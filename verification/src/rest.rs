//! The REST front end's decisions: the store path of a request path, who may
//! write a state, which paths to create first, what a write is answered, and
//! the CORS headers.

use vstd::prelude::*;
use vstd::string::StringExecFns;
use crate::dash::string_views;
use crate::keypath::{joined, join_strings, contains_string};

verus! {

/// One component of a request path: the root, or a named component (`.` and
/// `..` included, by their text).
pub enum PathPart {
    Root,
    Named(String),
}

/// The names of the components that are not the root, in order.
pub open spec fn part_names(parts: Seq<PathPart>) -> Seq<Seq<char>>
    decreases parts.len(),
{
    if parts.len() == 0 {
        seq![]
    } else {
        let rest = part_names(parts.drop_last());
        match parts.last() {
            PathPart::Named(s) => rest.push(s@),
            PathPart::Root => rest,
        }
    }
}

/// The store path of a request path: its names joined by dots, or `.` when it has none.
pub open spec fn key_path_text(parts: Seq<PathPart>) -> Seq<char> {
    if part_names(parts).len() == 0 {
        "."@
    } else {
        joined(part_names(parts), "."@)
    }
}

/// Whether a part is a named component.
pub open spec fn is_named(p: PathPart) -> bool {
    p is Named
}

/// The text of a named component (empty for the root).
pub open spec fn name_of(p: PathPart) -> Seq<char> {
    match p {
        PathPart::Named(s) => s@,
        PathPart::Root => seq![],
    }
}

/// The store path of a request path is its named components, every one of
/// them and in order, joined by dots (`.` when there are none), wherever root
/// parts stand among them.
pub proof fn law_store_path_keeps_every_name(parts: Seq<PathPart>)
    ensures
        key_path_text(parts) == (if parts.filter(|p: PathPart| is_named(p)).len() == 0 {
            "."@
        } else {
            joined(parts.filter(|p: PathPart| is_named(p)).map_values(|p: PathPart| name_of(p)), "."@)
        }),
{
    lemma_names_are_filtered(parts);
}

/// The names of a request path are its named components' texts, in order.
pub proof fn lemma_names_are_filtered(parts: Seq<PathPart>)
    ensures
        part_names(parts) == parts.filter(|p: PathPart| is_named(p)).map_values(|p: PathPart| name_of(p)),
    decreases parts.len(),
{
    let f = |p: PathPart| is_named(p);
    let g = |p: PathPart| name_of(p);
    reveal(Seq::filter);
    if parts.len() > 0 {
        lemma_names_are_filtered(parts.drop_last());
        let before = parts.drop_last().filter(f);
        assert(parts.filter(f) == if f(parts.last()) { before.push(parts.last()) } else { before });
        if f(parts.last()) {
            assert(parts.filter(f).map_values(g) =~= before.map_values(g).push(g(parts.last())));
        }
    } else {
        assert(parts.filter(f).map_values(g) =~= Seq::<Seq<char>>::empty());
    }
}

/// The store path of a request path.
pub fn subpath_to_key_path(subpath: &Vec<PathPart>) -> (key_path: String)
    ensures
        key_path@ == key_path_text(subpath@),
{
    let mut keys: Vec<String> = Vec::new();
    let mut i: usize = 0;
    while i < subpath.len()
        invariant
            i <= subpath@.len(),
            string_views(keys@) == part_names(subpath@.take(i as int)),
        decreases subpath@.len() - i,
    {
        assert(subpath@.take(i + 1).drop_last() =~= subpath@.take(i as int));
        match &subpath[i] {
            PathPart::Root => {},
            PathPart::Named(name) => {
                let ghost before = keys@;
                keys.push(name.clone());
                assert(string_views(keys@) =~= string_views(before).push(name@));
            },
        }
        i = i + 1;
    }
    assert(subpath@.take(subpath@.len() as int) =~= subpath@);
    if keys.len() == 0 {
        String::from_str(".")
    } else {
        join_strings(&keys, ".")
    }
}

/// The channel a write to `state` at `publish_path` is published on.
pub fn publish_channel(state: &String, publish_path: &String) -> (channel: String)
    ensures
        channel@ == "state/"@ + state@ + "/keypath/"@ + publish_path@ + "/"@,
{
    let mut channel = String::from_str("state/");
    channel.append(state.as_str());
    channel.append("/keypath/");
    channel.append(publish_path.as_str());
    channel.append("/");
    channel
}

/// What a read of the store answers: the stored document, or `null` when the read failed.
pub fn stored_json_or_null(fetched: Option<String>) -> (json: String)
    ensures
        json@ == (match fetched {
            Some(s) => s@,
            None => "null"@,
        }),
{
    match fetched {
        Some(s) => s,
        None => String::from_str("null"),
    }
}

/// The claims a token carries: whether it may write any state, and the states
/// it names.
pub struct Claims {
    pub root: bool,
    pub states: Vec<String>,
}

/// The body of an answer: a document as it is, or an object whose `error` entry
/// holds the message.
pub enum ResponseBody {
    Raw(String),
    Error(String),
}

/// An answer: its status code and body.
pub struct ApiResponse {
    pub status: u16,
    pub body: ResponseBody,
}

/// The body as its text or error message, and whether it is an error.
pub open spec fn body_view(b: ResponseBody) -> (bool, Seq<char>) {
    match b {
        ResponseBody::Raw(s) => (false, s@),
        ResponseBody::Error(s) => (true, s@),
    }
}

/// The claims of a request, from the token it carried (`None` when it carried
/// none) as decoded (`None` when it did not decode): a missing or invalid token
/// is answered 401.
pub fn request_claims(decoded: Option<Option<Claims>>) -> (outcome: Result<Claims, ApiResponse>)
    ensures
        match decoded {
            None => outcome matches Err(r) && r.status == 401 && body_view(r.body) == (
                true,
                "Your token is missing."@,
            ),
            Some(None) => outcome matches Err(r) && r.status == 401 && body_view(r.body) == (
                true,
                "That token is invalid."@,
            ),
            Some(Some(c)) => outcome == Ok::<Claims, ApiResponse>(c),
        },
{
    match decoded {
        Some(Some(claims)) => Ok(claims),
        Some(None) => Err(
            ApiResponse { status: 401, body: ResponseBody::Error(String::from_str("That token is invalid.")) },
        ),
        None => Err(
            ApiResponse { status: 401, body: ResponseBody::Error(String::from_str("Your token is missing.")) },
        ),
    }
}

/// The pieces of `s` between occurrences of `sep`, empty pieces kept.
pub open spec fn split_text(s: Seq<char>, sep: char) -> Seq<Seq<char>>
    decreases s.len(),
{
    if s.len() == 0 {
        seq![seq![]]
    } else {
        let rest = split_text(s.drop_last(), sep);
        if s.last() == sep {
            rest.push(seq![])
        } else {
            rest.update(rest.len() - 1, rest.last().push(s.last()))
        }
    }
}

/// Splitting never gives an empty list.
pub proof fn lemma_split_text_nonempty(s: Seq<char>, sep: char)
    ensures
        split_text(s, sep).len() >= 1,
    decreases s.len(),
{
    if s.len() > 0 {
        lemma_split_text_nonempty(s.drop_last(), sep);
    }
}

/// Splits `s` at every `sep`, keeping empty pieces.
pub fn split_on(s: &str, sep: char) -> (pieces: Vec<String>)
    ensures
        string_views(pieces@) == split_text(s@, sep),
{
    let n = s.unicode_len();
    let mut pieces: Vec<String> = Vec::new();
    let mut start: usize = 0;
    let mut i: usize = 0;
    assert(s@.take(0) =~= Seq::<char>::empty());
    assert(string_views(pieces@).push(s@.subrange(0, 0)) =~= seq![Seq::<char>::empty()]);
    while i < n
        invariant
            n == s@.len(),
            start <= i <= n,
            string_views(pieces@).push(s@.subrange(start as int, i as int)) == split_text(s@.take(i as int), sep),
        decreases n - i,
    {
        proof {
            lemma_split_text_nonempty(s@.take(i as int), sep);
            assert(s@.take(i + 1).drop_last() =~= s@.take(i as int));
            assert(s@.take(i + 1).last() == s@[i as int]);
        }
        if s.get_char(i) == sep {
            let piece = s.substring_char(start, i).to_owned();
            let ghost before = string_views(pieces@);
            pieces.push(piece);
            assert(string_views(pieces@) =~= before.push(s@.subrange(start as int, i as int)));
            assert(s@.subrange(i + 1, i + 1) =~= Seq::<char>::empty());
            start = i + 1;
        } else {
            assert(s@.subrange(start as int, i + 1) =~= s@.subrange(start as int, i as int).push(s@[i as int]));
        }
        i = i + 1;
    }
    let last = s.substring_char(start, n).to_owned();
    let ghost before = string_views(pieces@);
    pieces.push(last);
    assert(string_views(pieces@) =~= before.push(s@.subrange(start as int, n as int)));
    assert(s@.take(n as int) =~= s@);
    pieces
}

/// The store paths and publish paths to create before a write at `path`: for
/// each leading run of its dot-separated pieces, shortest first, the pieces
/// joined by dots and by slashes.
pub open spec fn ensure_paths_of(path: Seq<char>) -> Seq<(Seq<char>, Seq<char>)> {
    let pieces = split_text(path, '.');
    Seq::new(pieces.len(), |k: int| (joined(pieces.take(k + 1), "."@), joined(pieces.take(k + 1), "/"@)))
}

/// Appending a character to the last piece appends it to the joined text.
pub proof fn lemma_joined_extend_last(x: Seq<Seq<char>>, sep: Seq<char>, c: char)
    requires
        x.len() > 0,
    ensures
        joined(x.update(x.len() - 1, x.last().push(c)), sep) == joined(x, sep).push(c),
{
    let y = x.update(x.len() - 1, x.last().push(c));
    if x.len() == 1 {
        assert(y[0] == x[0].push(c));
    } else {
        assert(y.drop_last() =~= x.drop_last());
        assert(y.last() == x.last().push(c));
        assert(joined(y, sep) == joined(y.drop_last(), sep) + sep + y.last());
        assert(joined(x, sep) == joined(x.drop_last(), sep) + sep + x.last());
        assert(joined(y, sep) =~= joined(x, sep).push(c));
    }
}

/// Joining the pieces of a text split at `c` with `c` gives the text back.
pub proof fn lemma_joined_split(s: Seq<char>, c: char)
    ensures
        joined(split_text(s, c), seq![c]) == s,
    decreases s.len(),
{
    if s.len() == 0 {
        assert(split_text(s, c) == seq![Seq::<char>::empty()]);
        assert(s =~= Seq::<char>::empty());
    } else {
        let rest = split_text(s.drop_last(), c);
        lemma_joined_split(s.drop_last(), c);
        lemma_split_text_nonempty(s.drop_last(), c);
        if s.last() == c {
            let x = rest.push(seq![]);
            assert(x.drop_last() =~= rest);
            assert(joined(x, seq![c]) == joined(rest, seq![c]) + seq![c] + x.last());
            assert(s =~= s.drop_last() + seq![c] + Seq::<char>::empty());
        } else {
            lemma_joined_extend_last(rest, seq![c], s.last());
            assert(s =~= s.drop_last().push(s.last()));
        }
    }
}

/// The paths a write creates first, for a path of `n` dot-separated pieces:
/// exactly `n` of them, the first being the first piece alone, each next one
/// its predecessor followed by a dot (a slash for the publish path) and the
/// next piece, and the last one the whole path. So the parent of every path
/// listed is listed before it.
pub proof fn law_ensure_paths_grow_by_piece(path: Seq<char>)
    ensures
        ensure_paths_of(path).len() == split_text(path, '.').len(),
        ensure_paths_of(path).len() >= 1,
        ensure_paths_of(path)[0] == (split_text(path, '.')[0], split_text(path, '.')[0]),
        forall|k: int| 0 <= k < ensure_paths_of(path).len() - 1 ==> #[trigger] ensure_paths_of(path)[k + 1] == (
            ensure_paths_of(path)[k].0 + "."@ + split_text(path, '.')[k + 1],
            ensure_paths_of(path)[k].1 + "/"@ + split_text(path, '.')[k + 1],
        ),
        ensure_paths_of(path).last().0 == path,
{
    let pieces = split_text(path, '.');
    let e = ensure_paths_of(path);
    lemma_split_text_nonempty(path, '.');
    assert(pieces.take(1).len() == 1);
    assert(joined(pieces.take(1), "."@) == pieces[0]);
    assert(joined(pieces.take(1), "/"@) == pieces[0]);
    assert forall|k: int| 0 <= k < e.len() - 1 implies #[trigger] e[k + 1] == (
        e[k].0 + "."@ + pieces[k + 1],
        e[k].1 + "/"@ + pieces[k + 1],
    ) by {
        let longer = pieces.take(k + 2);
        assert(longer.drop_last() =~= pieces.take(k + 1));
        assert(longer.last() == pieces[k + 1]);
        assert(joined(longer, "."@) == joined(longer.drop_last(), "."@) + "."@ + longer.last());
        assert(joined(longer, "/"@) == joined(longer.drop_last(), "/"@) + "/"@ + longer.last());
    }
    lemma_joined_split(path, '.');
    assert(pieces.take(pieces.len() as int) =~= pieces);
    assert(seq!['.'] =~= "."@) by {
        reveal_strlit(".");
    }
}

/// What to do before writing a state.
pub struct OverwritePlan {
    /// Create the state as an empty object if it does not exist.
    pub ensure_state: bool,
    /// Create these (store path, publish path) as empty objects if they do not exist, in order.
    pub ensure_paths: Vec<(String, String)>,
}

/// The characters of a list of string pairs.
pub open spec fn pair_views(s: Seq<(String, String)>) -> Seq<(Seq<char>, Seq<char>)> {
    s.map_values(|e: (String, String)| (e.0@, e.1@))
}

/// Whether the claims let a write to `state` through: a write is refused unless
/// the claims are root ones that do not name the state.
pub open spec fn write_refused(claims: Claims, state: Seq<char>) -> bool {
    !claims.root || string_views(claims.states@).contains(state)
}

/// Plans a write to `state` at the store path `path`. `should_ensure_state`
/// (1 when absent) asks for the state to be created first; `ensure_path` (0
/// when absent) asks for the leading paths to be created first. A refused
/// write is answered 403.
pub fn overwrite_plan(
    claims: &Claims,
    state: &String,
    path: &String,
    should_ensure_state: Option<usize>,
    ensure_path: Option<usize>,
) -> (plan: Result<OverwritePlan, ApiResponse>)
    ensures
        match plan {
            Err(r) => write_refused(*claims, state@) && r.status == 403 && body_view(r.body) == (
                true,
                "You are not entitled to this state."@,
            ),
            Ok(p) => !write_refused(*claims, state@) && p.ensure_state == (match should_ensure_state {
                Some(v) => v == 1,
                None => true,
            }) && pair_views(p.ensure_paths@) == (if (match ensure_path {
                Some(v) => v == 1,
                None => false,
            }) {
                ensure_paths_of(path@)
            } else {
                Seq::empty()
            }),
        },
{
    if !claims.root || contains_string(&claims.states, state) {
        return Err(
            ApiResponse {
                status: 403,
                body: ResponseBody::Error(String::from_str("You are not entitled to this state.")),
            },
        );
    }
    let ensure_state = match should_ensure_state {
        Some(v) => v == 1,
        None => true,
    };
    let wants_paths = match ensure_path {
        Some(v) => v == 1,
        None => false,
    };
    let mut ensure_paths: Vec<(String, String)> = Vec::new();
    if wants_paths {
        let pieces = split_on(path.as_str(), '.');
        let ghost ps = string_views(pieces@);
        let ghost target = ensure_paths_of(path@);
        let mut k: usize = 0;
        while k < pieces.len()
            invariant
                k <= pieces@.len(),
                ps == string_views(pieces@),
                ps == split_text(path@, '.'),
                target == ensure_paths_of(path@),
                pair_views(ensure_paths@) == target.take(k as int),
            decreases pieces@.len() - k,
        {
            let mut prefix: Vec<String> = Vec::new();
            let count = k + 1;
            let mut m: usize = 0;
            while m < count
                invariant
                    m <= count,
                    count <= pieces@.len(),
                    string_views(prefix@) == string_views(pieces@).take(m as int),
                decreases count - m,
            {
                let ghost before = string_views(prefix@);
                let piece = pieces[m].clone();
                assert(piece@ == string_views(pieces@)[m as int]);
                let ghost prefix_before = prefix@;
                prefix.push(piece);
                assert(prefix@ == prefix_before.push(piece));
                assert(string_views(prefix@) =~= before.push(piece@));
                assert(string_views(prefix@) =~= string_views(pieces@).take(m + 1));
                m = m + 1;
            }
            let dotted = join_strings(&prefix, ".");
            let slashed = join_strings(&prefix, "/");
            let ghost before = ensure_paths@;
            ensure_paths.push((dotted, slashed));
            proof {
                assert(pair_views(ensure_paths@) =~= pair_views(before).push((dotted@, slashed@)));
                assert(target.take(k + 1) =~= target.take(k as int).push(target[k as int]));
            }
            k = k + 1;
        }
        assert(target.take(pieces@.len() as int) =~= target);
    } else {
        assert(pair_views(ensure_paths@) =~= Seq::empty());
    }
    Ok(OverwritePlan { ensure_state, ensure_paths })
}

/// `s` begins with `prefix`.
pub open spec fn text_starts_with(s: Seq<char>, prefix: Seq<char>) -> bool {
    prefix.len() <= s.len() && s.take(prefix.len() as int) == prefix
}

/// Whether `s` begins with `prefix`.
pub fn starts_with_text(s: &str, prefix: &str) -> (begins: bool)
    ensures
        begins == text_starts_with(s@, prefix@),
{
    let n = s.unicode_len();
    let m = prefix.unicode_len();
    if m > n {
        return false;
    }
    let head = s.substring_char(0, m).to_owned();
    let wanted = String::from_str(prefix);
    assert(head@ =~= s@.take(m as int));
    head == wanted
}

/// What comes after a write to the store.
pub enum StoreOutcome {
    /// Answer now.
    Respond(ApiResponse),
    /// Publish the written document, then answer.
    Publish,
}

/// The message of a store error: its detail, or `null` when it has none.
pub open spec fn store_error_text(detail: Option<String>) -> Seq<char> {
    match detail {
        Some(d) => d@,
        None => "null"@,
    }
}

/// What follows a write of `json` to the store (`nx`: only where nothing was).
/// A write that only fills a gap is answered with the document whatever came
/// of it. A failed write whose message starts with `missing key` is answered
/// 404 and with `invalid key` 400, the message as the error; any other failure
/// is answered with its message as the body. A write that succeeded is published.
pub fn after_store(json: &String, nx: bool, stored: Result<(), Option<String>>) -> (outcome: StoreOutcome)
    ensures
        nx ==> (outcome matches StoreOutcome::Respond(r) && r.status == 200 && body_view(r.body) == (false, json@)),
        !nx && stored is Ok ==> outcome is Publish,
        !nx && stored is Err ==> ({
            let text = store_error_text(stored->Err_0);
            let missing = text_starts_with(text, "missing key"@);
            let invalid = text_starts_with(text, "invalid key"@);
            outcome matches StoreOutcome::Respond(r) && (if missing || invalid {
                r.status == (if missing { 404u16 } else { 400u16 }) && body_view(r.body) == (true, text)
            } else {
                r.status == 200 && body_view(r.body) == (false, text)
            })
        }),
{
    if nx {
        return StoreOutcome::Respond(ApiResponse { status: 200, body: ResponseBody::Raw(json.clone()) });
    }
    match stored {
        Ok(()) => StoreOutcome::Publish,
        Err(detail) => {
            let text = match detail {
                Some(d) => d,
                None => String::from_str("null"),
            };
            let missing = starts_with_text(text.as_str(), "missing key");
            let invalid = starts_with_text(text.as_str(), "invalid key");
            if missing || invalid {
                StoreOutcome::Respond(
                    ApiResponse { status: if missing { 404 } else { 400 }, body: ResponseBody::Error(text) },
                )
            } else {
                StoreOutcome::Respond(ApiResponse { status: 200, body: ResponseBody::Raw(text) })
            }
        },
    }
}

/// The answer to a write once it was published: the document, or 500 with the
/// publish error's detail (or a fixed message when it has none).
pub fn after_publish(json: &String, published: Result<(), Option<String>>) -> (response: ApiResponse)
    ensures
        match published {
            Ok(()) => response.status == 200 && body_view(response.body) == (false, json@),
            Err(detail) => response.status == 500 && body_view(response.body) == (true, match detail {
                Some(d) => d@,
                None => "Failed to publish to redis"@,
            }),
        },
{
    match published {
        Ok(()) => ApiResponse { status: 200, body: ResponseBody::Raw(json.clone()) },
        Err(detail) => {
            let text = match detail {
                Some(d) => d,
                None => String::from_str("Failed to publish to redis"),
            };
            ApiResponse { status: 500, body: ResponseBody::Error(text) }
        },
    }
}

/// The CORS headers allowing any origin, as every JSON answer and every
/// preflight answer carries them.
pub open spec fn cors_header_views() -> Seq<(Seq<char>, Seq<char>)> {
    seq![
        ("Access-Control-Allow-Origin"@, "*"@),
        ("Access-Control-Allow-Methods"@, "POST, GET, OPTIONS"@),
        ("Access-Control-Allow-Headers"@, "Content-Type, Authorization"@),
        ("Access-Control-Allow-Credentials"@, "true"@),
    ]
}

/// The CORS headers of an answer let any origin send `Content-Type` and
/// `Authorization` with credentials by `POST`, `GET` and `OPTIONS`: they are
/// the headers of a preflight answer to a request that names no origin, less
/// its last two (the cache age and the frame policy).
pub proof fn law_cors_headers_allow_authorization()
    ensures
        cors_header_views() == seq![
            ("Access-Control-Allow-Origin"@, "*"@),
            ("Access-Control-Allow-Methods"@, "POST, GET, OPTIONS"@),
            ("Access-Control-Allow-Headers"@, "Content-Type, Authorization"@),
            ("Access-Control-Allow-Credentials"@, "true"@),
        ],
        cors_header_views() == seq![
            ("Access-Control-Allow-Origin"@, "*"@),
            ("Access-Control-Allow-Methods"@, "POST, GET, OPTIONS"@),
            ("Access-Control-Allow-Headers"@, "Content-Type, Authorization"@),
            ("Access-Control-Allow-Credentials"@, "true"@),
            ("Access-Control-Max-Age"@, "86400"@),
            ("Content-Security-Policy"@, "frame-ancestors *"@),
        ].take(4),
{
    let six = seq![
        ("Access-Control-Allow-Origin"@, "*"@),
        ("Access-Control-Allow-Methods"@, "POST, GET, OPTIONS"@),
        ("Access-Control-Allow-Headers"@, "Content-Type, Authorization"@),
        ("Access-Control-Allow-Credentials"@, "true"@),
        ("Access-Control-Max-Age"@, "86400"@),
        ("Content-Security-Policy"@, "frame-ancestors *"@),
    ];
    assert(cors_header_views() =~= six.take(4));
}

/// A name and a value, as strings.
fn header(name: &str, value: &str) -> (h: (String, String))
    ensures
        h.0@ == name@,
        h.1@ == value@,
{
    (String::from_str(name), String::from_str(value))
}

/// The headers an answer gets on its way out: the CORS headers when the
/// request was a preflight or the answer is JSON; and whether the answer is
/// replaced by an empty plain-text one (for a preflight).
pub fn response_cors(is_options: bool, is_json: bool) -> (plan: (Vec<(String, String)>, bool))
    ensures
        pair_views(plan.0@) == (if is_options || is_json {
            cors_header_views()
        } else {
            Seq::empty()
        }),
        is_options || is_json ==> pair_views(plan.0@) == seq![
            ("Access-Control-Allow-Origin"@, "*"@),
            ("Access-Control-Allow-Methods"@, "POST, GET, OPTIONS"@),
            ("Access-Control-Allow-Headers"@, "Content-Type, Authorization"@),
            ("Access-Control-Allow-Credentials"@, "true"@),
        ],
        plan.1 == is_options,
{
    let mut headers: Vec<(String, String)> = Vec::new();
    if is_options || is_json {
        headers.push(header("Access-Control-Allow-Origin", "*"));
        headers.push(header("Access-Control-Allow-Methods", "POST, GET, OPTIONS"));
        headers.push(header("Access-Control-Allow-Headers", "Content-Type, Authorization"));
        headers.push(header("Access-Control-Allow-Credentials", "true"));
        assert(pair_views(headers@) =~= cors_header_views());
    } else {
        assert(pair_views(headers@) =~= Seq::empty());
    }
    (headers, is_options)
}

/// The headers of the answer to a preflight request from `origin` (any origin
/// when it names none); the answer itself is empty plain text.
pub fn preflight_headers(origin: Option<String>) -> (headers: Vec<(String, String)>)
    ensures
        pair_views(headers@) == seq![
            ("Access-Control-Allow-Origin"@, match origin {
                Some(o) => o@,
                None => "*"@,
            }),
            ("Access-Control-Allow-Methods"@, "POST, GET, OPTIONS"@),
            ("Access-Control-Allow-Headers"@, "Content-Type, Authorization"@),
            ("Access-Control-Allow-Credentials"@, "true"@),
            ("Access-Control-Max-Age"@, "86400"@),
            ("Content-Security-Policy"@, "frame-ancestors *"@),
        ],
{
    let allowed = match origin {
        Some(o) => o,
        None => String::from_str("*"),
    };
    let mut headers: Vec<(String, String)> = Vec::new();
    headers.push((String::from_str("Access-Control-Allow-Origin"), allowed));
    headers.push(header("Access-Control-Allow-Methods", "POST, GET, OPTIONS"));
    headers.push(header("Access-Control-Allow-Headers", "Content-Type, Authorization"));
    headers.push(header("Access-Control-Allow-Credentials", "true"));
    headers.push(header("Access-Control-Max-Age", "86400"));
    headers.push(header("Content-Security-Policy", "frame-ancestors *"));
    headers
}

} // verus!
