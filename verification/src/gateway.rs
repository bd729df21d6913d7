//! The gateway's decisions: what a client message asks for, which channel a
//! publication speaks of, and which packets each client is sent for it.

use vstd::prelude::*;
use vstd::string::StringExecFns;
use crate::dash::string_views;
use crate::subscription::descendant_views;
use crate::json::{
    JsonValue, IntoStringVec, entry_value, int_of, string_vec_of, descend, object_get, as_i64, parsed_json,
    json_text, parse_json, to_json_text, message_object,
};
use crate::keypath::{joined, join_strings, make_update_packet, make_bulk_update_packet};

verus! {

/// The packet that answers a ping.
pub fn pong_packet() -> (packet: String)
    ensures
        packet@ == "{\"o\":1}"@,
{
    String::from_str("{\"o\":1}")
}

/// The packet that acknowledges a subscription change.
pub fn ok_packet() -> (packet: String)
    ensures
        packet@ == "{\"o\":5}"@,
{
    String::from_str("{\"o\":5}")
}

/// What a client message asks the gateway to do.
pub enum ClientAction {
    /// Answer with a pong.
    Pong,
    /// Subscribe (or unsubscribe) the client at the keypaths, if they could be read,
    /// then acknowledge and update the broker patterns.
    Track { subscribed: bool, keypaths: Option<Vec<String>> },
    /// Stop serving the client.
    Close,
}

/// The characters of each string of an optional list.
pub open spec fn optional_views(v: Option<Vec<String>>) -> Option<Seq<Seq<char>>> {
    match v {
        Some(items) => Some(string_views(items@)),
        None => None,
    }
}

/// The opcode of a payload: its `o` entry as a whole number.
pub open spec fn opcode_of(payload: Seq<(String, JsonValue)>) -> Option<i64> {
    int_of(entry_value(payload, "o"@).unwrap())
}

/// The payload has an opcode, and keypaths where its opcode asks for them.
pub open spec fn payload_readable(payload: Seq<(String, JsonValue)>) -> bool {
    &&& entry_value(payload, "o"@) is Some
    &&& opcode_of(payload) == Some(2i64) || opcode_of(payload) == Some(3i64) ==> entry_value(payload, "d"@) is Some
}

/// `action` is what `payload` asks for: opcode 0 a pong, opcode 2 a
/// subscription and 3 an unsubscription at the string items of its `d` entry,
/// anything else (or no whole-number opcode) the end.
pub open spec fn action_fits(payload: Seq<(String, JsonValue)>, action: ClientAction) -> bool {
    match opcode_of(payload) {
        Some(op) => if op == 0 {
            action is Pong
        } else if op == 2 || op == 3 {
            action matches ClientAction::Track { subscribed, keypaths } && subscribed == (op == 2)
                && optional_views(keypaths) == string_vec_of(entry_value(payload, "d"@).unwrap())
        } else {
            action is Close
        },
        None => action is Close,
    }
}

/// What the text of a client message asks for. A text that is not a JSON
/// object ends the connection; an object is read as `client_action` reads it.
/// `None` when the object has no opcode, or asks to (un)subscribe without
/// keypaths: such a message cannot be served.
pub fn client_message_action(text: &String) -> (action: Option<ClientAction>)
    ensures
        match parsed_json(text@) {
            Some(Some(JsonValue::Object(e))) => if payload_readable(e@) {
                action matches Some(a) && action_fits(e@, a)
            } else {
                action is None
            },
            _ => action matches Some(ClientAction::Close),
        },
{
    match message_object(text) {
        Some(payload) => {
            let opcode = match object_get(&payload, "o") {
                Some(o) => as_i64(o),
                None => {
                    return None;
                },
            };
            if (opcode == Some(2i64) || opcode == Some(3i64)) && object_get(&payload, "d").is_none() {
                return None;
            }
            Some(client_action(&payload))
        },
        None => Some(ClientAction::Close),
    }
}

/// What the object `payload` of a client message asks for: opcode 0 a pong,
/// opcode 2 a subscription and 3 an unsubscription at the string items of
/// its `d` entry, anything else (or no whole-number opcode) the end.
pub fn client_action(payload: &Vec<(String, JsonValue)>) -> (action: ClientAction)
    requires
        payload_readable(payload@),
    ensures
        action_fits(payload@, action),
{
    let opcode = match object_get(payload, "o") {
        Some(v) => as_i64(v),
        None => None,
    };
    match opcode {
        Some(op) => {
            if op == 0 {
                ClientAction::Pong
            } else if op == 2 || op == 3 {
                let keypaths = match object_get(payload, "d") {
                    Some(d) => d.into_string_vec(),
                    None => None,
                };
                ClientAction::Track { subscribed: op == 2, keypaths }
            } else {
                ClientAction::Close
            }
        },
        None => ClientAction::Close,
    }
}

/// The keypath a broker pattern listens on: the pattern without its last character.
pub fn event_keypath(pattern: &String) -> (keypath: String)
    ensures
        keypath@ == (if pattern@.len() > 0 {
            pattern@.drop_last()
        } else {
            pattern@
        }),
{
    let len = pattern.as_str().unicode_len();
    if len > 0 {
        let kept = pattern.as_str().substring_char(0, len - 1).to_owned();
        assert(kept@ =~= pattern@.drop_last());
        kept
    } else {
        pattern.clone()
    }
}

/// The first position at which `pat` occurs in `s`, if any.
pub open spec fn text_position(s: Seq<char>, pat: Seq<char>) -> Option<int>
    decreases s.len(),
{
    if s.len() < pat.len() {
        None
    } else if s.take(pat.len() as int) == pat {
        Some(0)
    } else if s.len() == 0 {
        None
    } else {
        match text_position(s.drop_first(), pat) {
            Some(i) => Some(i + 1),
            None => None,
        }
    }
}

/// The first position at which `pat` occurs in `s`, counted in characters.
pub fn find_text(s: &str, pat: &str) -> (found: Option<usize>)
    ensures
        match found {
            Some(i) => text_position(s@, pat@) == Some(i as int),
            None => text_position(s@, pat@) is None,
        },
{
    let n = s.unicode_len();
    let m = pat.unicode_len();
    let wanted = String::from_str(pat);
    let mut i: usize = 0;
    assert(s@.skip(0) =~= s@);
    while i <= n
        invariant
            n == s@.len(),
            m == pat@.len(),
            wanted@ == pat@,
            i <= n + 1,
            i <= n ==> text_position(s@, pat@) == (match text_position(s@.skip(i as int), pat@) {
                Some(j) => Some(j + i),
                None => None::<int>,
            }),
            i > n ==> text_position(s@, pat@) is None,
        decreases n + 1 - i,
    {
        let ghost rest = s@.skip(i as int);
        if n - i < m {
            assert(text_position(rest, pat@) is None);
            return None;
        }
        let window = s.substring_char(i, i + m).to_owned();
        assert(window@ =~= rest.take(m as int));
        if window == wanted {
            return Some(i);
        }
        if i == n {
            assert(rest.len() == 0);
            return None;
        }
        assert(rest.drop_first() =~= s@.skip(i + 1));
        i = i + 1;
    }
    None
}

/// The keypath a publication channel speaks of: what follows the first
/// `keypath` in it (all of it when there is none), ending in a slash.
pub open spec fn channel_keypath(channel: Seq<char>) -> Seq<char> {
    let rest = match text_position(channel, "keypath"@) {
        Some(i) => channel.skip(i + "keypath"@.len()),
        None => channel,
    };
    if rest.len() > 0 && rest.last() == '/' {
        rest
    } else {
        rest + "/"@
    }
}

/// The keypath a publication channel speaks of, ending in a slash.
pub fn normalize_channel(publish_channel: &String) -> (channel: String)
    ensures
        channel@ == channel_keypath(publish_channel@),
{
    let token = String::from_str("keypath");
    let mut channel = match find_text(publish_channel.as_str(), token.as_str()) {
        Some(index) => {
            let len = publish_channel.as_str().unicode_len();
            let tlen = token.as_str().unicode_len();
            proof {
                lemma_text_position_bounds(publish_channel@, token@);
            }
            publish_channel.as_str().substring_char(index + tlen, len).to_owned()
        },
        None => publish_channel.clone(),
    };
    let clen = channel.as_str().unicode_len();
    if clen > 0 && channel.as_str().get_char(clen - 1) == '/' {
        channel
    } else {
        channel.append("/");
        channel
    }
}

/// A position found lies where the whole pattern still fits.
pub proof fn lemma_text_position_bounds(s: Seq<char>, pat: Seq<char>)
    ensures
        text_position(s, pat) matches Some(i) ==> 0 <= i && i + pat.len() <= s.len()
            && s.subrange(i, i + pat.len()) == pat,
    decreases s.len(),
{
    if s.len() >= pat.len() && s.take(pat.len() as int) != pat && s.len() > 0 {
        lemma_text_position_bounds(s.drop_first(), pat);
        if let Some(i) = text_position(s.drop_first(), pat) {
            assert(s.subrange(i + 1, i + 1 + pat.len()) =~= s.drop_first().subrange(i, i + pat.len()));
        }
    }
    if s.len() >= pat.len() && s.take(pat.len() as int) == pat {
        assert(s.subrange(0, pat.len() as int) =~= s.take(pat.len() as int));
    }
}

/// A published message as read: not JSON, JSON `null`, or another value.
pub enum ParsedMessage {
    Invalid,
    Null,
    Value(JsonValue),
}

/// A value found inside a document: a part of it, or a `null` met on the way.
pub enum Located<'a> {
    At(&'a JsonValue),
    Null,
}

/// The value a location stands for.
pub open spec fn located_value(l: Located) -> JsonValue {
    match l {
        Located::At(v) => *v,
        Located::Null => JsonValue::Null,
    }
}

/// Follows `keys` down from `v`: an object gives the value under the key, any
/// other value gives null. `None` where an object lacks a key.
pub fn descend_keys<'a>(v: &'a JsonValue, keys: &Vec<String>) -> (found: Option<Located<'a>>)
    ensures
        match found {
            Some(l) => descend(*v, string_views(keys@)) == Some(located_value(l)),
            None => descend(*v, string_views(keys@)) is None,
        },
{
    let ghost ks = string_views(keys@);
    let mut cur: Located<'a> = Located::At(v);
    let mut k: usize = 0;
    assert(ks.skip(0) =~= ks);
    while k < keys.len()
        invariant
            k <= keys@.len(),
            ks == string_views(keys@),
            descend(*v, ks) == descend(located_value(cur), ks.skip(k as int)),
        decreases keys@.len() - k,
    {
        assert(ks.skip(k as int)[0] == keys@[k as int]@);
        assert(ks.skip(k as int).drop_first() =~= ks.skip(k + 1));
        cur = match cur {
            Located::At(r) => match r {
                JsonValue::Object(entries) => match object_get(entries, keys[k].as_str()) {
                    Some(w) => Located::At(w),
                    None => {
                        return None;
                    },
                },
                _ => Located::Null,
            },
            Located::Null => Located::Null,
        };
        k = k + 1;
    }
    Some(cur)
}

/// A client to be sent a part of a published document: the keypath of that
/// part and the part.
pub struct BubbleTarget<'a> {
    pub client: String,
    pub update_path: String,
    pub value: Located<'a>,
}

/// What becomes of the descendants of a published keypath.
pub enum BubblePlan<'a> {
    /// Each target is sent its part.
    Updates(Vec<BubbleTarget<'a>>),
    /// The message is not JSON: nothing at all is sent for this publication.
    Abort,
    /// The message is JSON `null`, or an object on the way to a part lacks a
    /// key: the publication cannot be handled.
    Fail,
}

/// The keypath of a part: the channel followed by the part's relative keypath.
pub open spec fn bubble_path_text(channel: Seq<char>, path: Seq<Seq<char>>) -> Seq<char> {
    channel + joined(path, "/"@)
}

/// A descendant is sent a part unless its relative keypath is empty or adds nothing to the channel.
pub open spec fn bubble_kept(channel: Seq<char>, e: (Seq<char>, Seq<Seq<char>>)) -> bool {
    !(bubble_path_text(channel, e.1) == channel || e.1.len() == 0)
}

/// The descendants that are sent a part, in order.
pub open spec fn kept_descendants(channel: Seq<char>, entries: Seq<(Seq<char>, Seq<Seq<char>>)>) -> Seq<
    (Seq<char>, Seq<Seq<char>>),
> {
    entries.filter(|e: (Seq<char>, Seq<Seq<char>>)| bubble_kept(channel, e))
}

/// `targets` sends each kept descendant its part of `v`.
pub open spec fn targets_match(
    targets: Seq<BubbleTarget>,
    channel: Seq<char>,
    kept: Seq<(Seq<char>, Seq<Seq<char>>)>,
    v: JsonValue,
) -> bool {
    &&& targets.len() == kept.len()
    &&& forall|i: int| #![trigger targets[i]] 0 <= i < kept.len() ==> {
        &&& targets[i].client@ == kept[i].0
        &&& targets[i].update_path@ == bubble_path_text(channel, kept[i].1)
        &&& descend(v, kept[i].1) == Some(located_value(targets[i].value))
    }
}

/// Plans the parts of a published document sent to the descendants of its
/// keypath. `channel` is the keypath the publication speaks of; `descendants`
/// lists each client subscribed below it with its relative keypath.
#[verifier::spinoff_prover]
pub fn bubble_updates<'a>(
    channel: &String,
    descendants: &Vec<(String, Vec<String>)>,
    parsed: &'a ParsedMessage,
) -> (plan: BubblePlan<'a>)
    ensures
        ({
            let kept = kept_descendants(channel@, descendant_views(descendants@));
            if kept.len() == 0 {
                plan matches BubblePlan::Updates(targets) && targets@.len() == 0
            } else {
                match *parsed {
                    ParsedMessage::Invalid => plan is Abort,
                    ParsedMessage::Null => plan is Fail,
                    ParsedMessage::Value(v) => if forall|i: int|
                        0 <= i < kept.len() ==> (#[trigger] descend(v, kept[i].1)) is Some {
                        plan matches BubblePlan::Updates(targets) && targets_match(targets@, channel@, kept, v)
                    } else {
                        plan is Fail
                    },
                }
            }
        }),
{
    let ghost entries = descendant_views(descendants@);
    let ghost pred = |e: (Seq<char>, Seq<Seq<char>>)| bubble_kept(channel@, e);
    let mut targets: Vec<BubbleTarget<'a>> = Vec::new();
    let mut i: usize = 0;
    while i < descendants.len()
        invariant
            i <= descendants@.len(),
            entries == descendant_views(descendants@),
            pred == (|e: (Seq<char>, Seq<Seq<char>>)| bubble_kept(channel@, e)),
            entries.take(i as int).filter(pred).len() == targets@.len(),
            match *parsed {
                ParsedMessage::Value(v) => targets_match(targets@, channel@, entries.take(i as int).filter(pred), v),
                _ => targets@.len() == 0,
            },
        decreases descendants@.len() - i,
    {
        proof {
            reveal(Seq::filter);
            assert(entries.take(i + 1).drop_last() =~= entries.take(i as int));
        }
        let client = &descendants[i].0;
        let path = &descendants[i].1;
        let mut update_path = channel.clone();
        let tail = join_strings(path, "/");
        update_path.append(tail.as_str());
        assert(entries[i as int] == (client@, string_views(path@)));
        if !(update_path == *channel || path.len() == 0) {
            match parsed {
                ParsedMessage::Invalid => {
                    proof {
                        lemma_kept_nonempty(channel@, entries, i as int);
                    }
                    return BubblePlan::Abort;
                },
                ParsedMessage::Null => {
                    proof {
                        lemma_kept_nonempty(channel@, entries, i as int);
                    }
                    return BubblePlan::Fail;
                },
                ParsedMessage::Value(v) => {
                    match descend_keys(v, path) {
                        Some(value) => {
                            let ghost before = targets@;
                            targets.push(BubbleTarget { client: client.clone(), update_path, value });
                            proof {
                                let kept_now = entries.take(i + 1).filter(pred);
                                assert(kept_now == entries.take(i as int).filter(pred).push(entries[i as int]));
                                assert forall|j: int| #![trigger targets@[j]] 0 <= j < kept_now.len() implies {
                                    &&& targets@[j].client@ == kept_now[j].0
                                    &&& targets@[j].update_path@ == bubble_path_text(channel@, kept_now[j].1)
                                    &&& descend(*v, kept_now[j].1) == Some(located_value(targets@[j].value))
                                } by {
                                    if j < before.len() {
                                        assert(targets@[j] == before[j]);
                                    }
                                }
                            }
                        },
                        None => {
                            proof {
                                lemma_kept_nonempty(channel@, entries, i as int);
                                lemma_kept_has(channel@, entries, i as int);
                            }
                            return BubblePlan::Fail;
                        },
                    }
                },
            }
        }
        i = i + 1;
    }
    proof {
        assert(entries.take(descendants@.len() as int) =~= entries);
        let kept = kept_descendants(channel@, entries);
        assert(kept == entries.filter(pred));
        match parsed {
            ParsedMessage::Value(v) => {
                assert forall|j: int| 0 <= j < kept.len() implies (#[trigger] descend(*v, kept[j].1)) is Some by {
                    assert(targets@[j].client@ == kept[j].0);
                }
            },
            _ => {},
        }
    }
    BubblePlan::Updates(targets)
}

/// The text of an update packet.
pub open spec fn update_packet_text(keypath: Seq<char>, data: Seq<char>) -> Seq<char> {
    "{\"o\":4,\"p\":\""@ + keypath + "\",\"d\":"@ + data + "}"@
}

/// The text of a bulk packet carrying several packets.
pub open spec fn bulk_packet_text(packets: Seq<Seq<char>>) -> Seq<char> {
    "{\"o\":6,\"d\":["@ + joined(packets, ","@) + "]}"@
}

/// The position of the first group of `key`, if any.
pub open spec fn group_index(groups: Seq<(Seq<char>, Seq<Seq<char>>)>, key: Seq<char>) -> Option<int>
    decreases groups.len(),
{
    if groups.len() == 0 {
        None
    } else if groups[0].0 == key {
        Some(0)
    } else {
        match group_index(groups.drop_first(), key) {
            Some(i) => Some(i + 1),
            None => None,
        }
    }
}

/// Adding one packet for a client: to the client's group, or in a new group at the end.
pub open spec fn group_step(groups: Seq<(Seq<char>, Seq<Seq<char>>)>, pair: (Seq<char>, Seq<char>)) -> Seq<
    (Seq<char>, Seq<Seq<char>>),
> {
    match group_index(groups, pair.0) {
        Some(i) => groups.update(i, (groups[i].0, groups[i].1.push(pair.1))),
        None => groups.push((pair.0, seq![pair.1])),
    }
}

/// The packets of each client, clients in the order first met, packets in order.
pub open spec fn grouped(pairs: Seq<(Seq<char>, Seq<char>)>) -> Seq<(Seq<char>, Seq<Seq<char>>)>
    decreases pairs.len(),
{
    if pairs.len() == 0 {
        seq![]
    } else {
        group_step(grouped(pairs.drop_last()), pairs.last())
    }
}

/// What a client is sent for its packets: the packet itself when there is one, else a bulk packet.
pub open spec fn outgoing_text(packets: Seq<Seq<char>>) -> Seq<char> {
    if packets.len() == 1 {
        packets[0]
    } else {
        bulk_packet_text(packets)
    }
}

/// The packets of a publication: every observer of the published keypath is
/// sent the message at the channel keypath, then each bubble target its part.
pub open spec fn publication_pairs(
    channel: Seq<char>,
    msg: Seq<char>,
    observers: Seq<Seq<char>>,
    bubble: Seq<(Seq<char>, Seq<char>, Seq<char>)>,
) -> Seq<(Seq<char>, Seq<char>)> {
    observers.map_values(|c: Seq<char>| (c, update_packet_text(channel, msg))) + bubble.map_values(
        |b: (Seq<char>, Seq<char>, Seq<char>)| (b.0, update_packet_text(b.1, b.2)),
    )
}

/// The characters of a list of groups.
pub open spec fn group_views(g: Seq<(String, Vec<String>)>) -> Seq<(Seq<char>, Seq<Seq<char>>)> {
    g.map_values(|e: (String, Vec<String>)| (e.0@, string_views(e.1@)))
}

/// The characters of a list of (client, text) pairs.
pub open spec fn pair_views(g: Seq<(String, String)>) -> Seq<(Seq<char>, Seq<char>)> {
    g.map_values(|e: (String, String)| (e.0@, e.1@))
}

/// The characters of a list of (client, keypath, data) triples.
pub open spec fn triple_views(g: Seq<(String, String, String)>) -> Seq<(Seq<char>, Seq<char>, Seq<char>)> {
    g.map_values(|e: (String, String, String)| (e.0@, e.1@, e.2@))
}

/// Adds one packet for a client to its group, or opens a group for it.
pub fn pipe_packet(groups: &mut Vec<(String, Vec<String>)>, client: String, packet: String)
    ensures
        group_views(final(groups)@) == group_step(group_views(old(groups)@), (client@, packet@)),
{
    let ghost g = group_views(groups@);
    let mut i: usize = 0;
    assert(g.skip(0) =~= g);
    while i < groups.len()
        invariant
            i <= groups@.len(),
            g == group_views(groups@),
            groups@ == old(groups)@,
            group_index(g, client@) == (match group_index(g.skip(i as int), client@) {
                Some(j) => Some(j + i),
                None => None::<int>,
            }),
        decreases groups@.len() - i,
    {
        assert(g.skip(i as int)[0] == g[i as int]);
        assert(g.skip(i as int).drop_first() =~= g.skip(i + 1));
        if groups[i].0 == client {
            let ghost before = groups@;
            let ghost old_packets = groups@[i as int].1@;
            let entry = &mut groups[i];
            entry.1.push(packet);
            proof {
                assert(groups@.len() == before.len());
                assert(forall|x: int| 0 <= x < before.len() && x != i ==> groups@[x] == before[x]);
                assert(groups@[i as int].0 == before[i as int].0);
                assert(groups@[i as int].1@ == old_packets.push(packet));
                assert(string_views(groups@[i as int].1@) =~= string_views(old_packets).push(packet@));
                assert(group_views(groups@) =~= g.update(i as int, (g[i as int].0, g[i as int].1.push(packet@))));
            }
            return;
        }
        i = i + 1;
    }
    let mut fresh: Vec<String> = Vec::new();
    fresh.push(packet);
    assert(string_views(fresh@) =~= seq![packet@]);
    let ghost before = groups@;
    groups.push((client, fresh));
    assert(groups@ == before.push((client, fresh)));
    assert(group_views(groups@) =~= g.push((client@, seq![packet@])));
}

/// The packets of a publication, grouped by client: clients in the order first
/// met, each client's packets in order.
#[verifier::spinoff_prover]
fn group_publication(
    channel: &String,
    msg: &String,
    observers: &Vec<String>,
    bubble: &Vec<(String, String, String)>,
) -> (groups: Vec<(String, Vec<String>)>)
    ensures
        group_views(groups@) == grouped(
            publication_pairs(channel@, msg@, string_views(observers@), triple_views(bubble@)),
        ),
{
    let ghost pairs = publication_pairs(channel@, msg@, string_views(observers@), triple_views(bubble@));
    let mut groups: Vec<(String, Vec<String>)> = Vec::new();
    let mut i: usize = 0;
    assert(group_views(groups@) =~= grouped(pairs.take(0)));
    if observers.len() > 0 {
        let message = make_update_packet(channel.clone(), msg.clone());
        while i < observers.len()
            invariant
                i <= observers@.len(),
                pairs == publication_pairs(channel@, msg@, string_views(observers@), triple_views(bubble@)),
                message@ == update_packet_text(channel@, msg@),
                group_views(groups@) == grouped(pairs.take(i as int)),
            decreases observers@.len() - i,
        {
            assert(pairs.take(i + 1).drop_last() =~= pairs.take(i as int));
            assert(pairs[i as int] == (observers@[i as int]@, message@));
            pipe_packet(&mut groups, observers[i].clone(), message.clone());
            i = i + 1;
        }
    }
    let n = observers.len();
    let mut k: usize = 0;
    while k < bubble.len()
        invariant
            k <= bubble@.len(),
            n == observers@.len(),
            pairs == publication_pairs(channel@, msg@, string_views(observers@), triple_views(bubble@)),
            pairs.len() == n + bubble@.len(),
            group_views(groups@) == grouped(pairs.take(n + k)),
        decreases bubble@.len() - k,
    {
        assert(pairs.take(n + k + 1).drop_last() =~= pairs.take(n + k));
        let packet = make_update_packet(bubble[k].1.clone(), bubble[k].2.clone());
        assert(pairs[n + k] == (bubble@[k as int].0@, packet@));
        pipe_packet(&mut groups, bubble[k].0.clone(), packet);
        k = k + 1;
    }
    assert(pairs.take(pairs.len() as int) =~= pairs);
    groups
}

/// What each client of a list of groups is sent: its one packet, or a bulk
/// packet of all of them.
#[verifier::spinoff_prover]
fn outgoing_messages(groups: &Vec<(String, Vec<String>)>) -> (messages: Vec<(String, String)>)
    ensures
        pair_views(messages@) == group_views(groups@).map_values(
            |g: (Seq<char>, Seq<Seq<char>>)| (g.0, outgoing_text(g.1)),
        ),
{
    let ghost gv = group_views(groups@);
    let mut messages: Vec<(String, String)> = Vec::new();
    let mut j: usize = 0;
    while j < groups.len()
        invariant
            j <= groups@.len(),
            gv == group_views(groups@),
            pair_views(messages@) == gv.take(j as int).map_values(
                |g: (Seq<char>, Seq<Seq<char>>)| (g.0, outgoing_text(g.1)),
            ),
        decreases groups@.len() - j,
    {
        let packets = &groups[j].1;
        let text = if packets.len() == 1 {
            packets[0].clone()
        } else {
            make_bulk_update_packet(packets.clone())
        };
        assert(text@ == outgoing_text(gv[j as int].1));
        let ghost before = messages@;
        let client = groups[j].0.clone();
        let ghost text_view = text@;
        messages.push((client, text));
        assert(messages@ == before.push((client, text)));
        assert(pair_views(messages@) =~= pair_views(before).push((gv[j as int].0, text_view)));
        assert(pair_views(messages@) =~= gv.take(j + 1).map_values(
            |g: (Seq<char>, Seq<Seq<char>>)| (g.0, outgoing_text(g.1)),
        ));
        j = j + 1;
    }
    assert(gv.take(groups@.len() as int) =~= gv);
    messages
}

/// What each client is sent for a publication, as texts per client.
pub open spec fn delivered(
    channel: Seq<char>,
    msg: Seq<char>,
    observers: Seq<Seq<char>>,
    bubble: Seq<(Seq<char>, Seq<char>, Seq<char>)>,
) -> Seq<(Seq<char>, Seq<char>)> {
    grouped(publication_pairs(channel, msg, observers, bubble)).map_values(
        |g: (Seq<char>, Seq<Seq<char>>)| (g.0, outgoing_text(g.1)),
    )
}

/// What each client is sent for a publication: `channel` is the keypath the
/// publication speaks of, `msg` the message, `observers` the clients of the
/// published keypath, `bubble` the clients below it with the keypath and data
/// of their parts.
pub fn publication_messages(
    channel: &String,
    msg: &String,
    observers: &Vec<String>,
    bubble: &Vec<(String, String, String)>,
) -> (messages: Vec<(String, String)>)
    ensures
        pair_views(messages@) == delivered(channel@, msg@, string_views(observers@), triple_views(bubble@)),
{
    let groups = group_publication(channel, msg, observers, bubble);
    outgoing_messages(&groups)
}

/// The JSON text of a part of a document.
pub fn located_text(part: &Located) -> (text: String)
    ensures
        text@ == json_text(located_value(*part)),
{
    match part {
        Located::At(v) => to_json_text(v),
        Located::Null => to_json_text(&JsonValue::Null),
    }
}

/// The parts of `v` sent to the kept descendants: each client with the keypath
/// of its part and the part's JSON text.
pub open spec fn bubble_triples(
    channel: Seq<char>,
    kept: Seq<(Seq<char>, Seq<Seq<char>>)>,
    v: JsonValue,
) -> Seq<(Seq<char>, Seq<char>, Seq<char>)> {
    kept.map_values(
        |e: (Seq<char>, Seq<Seq<char>>)| (e.0, bubble_path_text(channel, e.1), json_text(descend(v, e.1).unwrap())),
    )
}

/// What becomes of a publication.
pub enum Publication {
    /// Each client is sent its text.
    Send(Vec<(String, String)>),
    /// Parts were due but the message is not JSON: nothing is sent.
    Dropped,
    /// Parts were due but the message is `null`, or an object on the way to a
    /// part lacks a key: the publication cannot be handled.
    Broken,
}

/// What each client is sent for a message published on `publish_channel`:
/// `observers` are the clients of the published keypath, `descendants` the
/// clients below it with their relative keypaths. Observers are sent the
/// message as published; each descendant kept (see `bubble_kept`) is sent the
/// JSON text of its part of the message.
pub fn publication_updates(
    publish_channel: &String,
    msg: &String,
    observers: &Vec<String>,
    descendants: &Vec<(String, Vec<String>)>,
) -> (out: Publication)
    ensures
        ({
            let channel = channel_keypath(publish_channel@);
            let kept = kept_descendants(channel, descendant_views(descendants@));
            let obs = string_views(observers@);
            if kept.len() == 0 {
                out matches Publication::Send(m) && pair_views(m@) == delivered(channel, msg@, obs, seq![])
            } else {
                match parsed_json(msg@) {
                    None => out is Dropped,
                    Some(None) => out is Broken,
                    Some(Some(v)) => if forall|i: int| 0 <= i < kept.len() ==> (#[trigger] descend(v, kept[i].1)) is Some {
                        out matches Publication::Send(m) && pair_views(m@) == delivered(
                            channel,
                            msg@,
                            obs,
                            bubble_triples(channel, kept, v),
                        )
                    } else {
                        out is Broken
                    },
                }
            }
        }),
{
    let channel = normalize_channel(publish_channel);
    let parsed = match parse_json(msg) {
        Some(Some(v)) => ParsedMessage::Value(v),
        Some(None) => ParsedMessage::Null,
        None => ParsedMessage::Invalid,
    };
    let ghost pv = parsed;
    let plan = bubble_updates(&channel, descendants, &parsed);
    let targets = match plan {
        BubblePlan::Updates(targets) => targets,
        BubblePlan::Abort => {
            return Publication::Dropped;
        },
        BubblePlan::Fail => {
            return Publication::Broken;
        },
    };
    let ghost kept = kept_descendants(channel@, descendant_views(descendants@));
    let mut bubble: Vec<(String, String, String)> = Vec::new();
    let mut i: usize = 0;
    while i < targets.len()
        invariant
            i <= targets@.len(),
            bubble@.len() == i,
            kept == kept_descendants(channel@, descendant_views(descendants@)),
            match pv {
                ParsedMessage::Value(v) => targets_match(targets@, channel@, kept, v)
                    && triple_views(bubble@) == bubble_triples(channel@, kept, v).take(i as int),
                _ => targets@.len() == 0,
            },
        decreases targets@.len() - i,
    {
        let data = located_text(&targets[i].value);
        let ghost before = bubble@;
        bubble.push((targets[i].client.clone(), targets[i].update_path.clone(), data));
        proof {
            match pv {
                ParsedMessage::Value(v) => {
                    let b = bubble_triples(channel@, kept, v);
                    assert(triple_views(bubble@) =~= triple_views(before).push(b[i as int]));
                    assert(b.take(i + 1) =~= b.take(i as int).push(b[i as int]));
                },
                _ => {},
            }
        }
        i = i + 1;
    }
    proof {
        match pv {
            ParsedMessage::Value(v) => {
                assert(bubble_triples(channel@, kept, v).take(targets@.len() as int) =~= bubble_triples(channel@, kept, v));
            },
            _ => {
                assert(triple_views(bubble@) =~= Seq::<(Seq<char>, Seq<char>, Seq<char>)>::empty());
            },
        }
    }
    Publication::Send(publication_messages(&channel, msg, observers, &bubble))
}

/// The packets of the client `c`, in order.
pub open spec fn packets_for(pairs: Seq<(Seq<char>, Seq<char>)>, c: Seq<char>) -> Seq<Seq<char>>
    decreases pairs.len(),
{
    if pairs.len() == 0 {
        seq![]
    } else if pairs.last().0 == c {
        packets_for(pairs.drop_last(), c).push(pairs.last().1)
    } else {
        packets_for(pairs.drop_last(), c)
    }
}

/// A client with packets has a pair.
pub proof fn lemma_packets_for_keys(pairs: Seq<(Seq<char>, Seq<char>)>, c: Seq<char>)
    ensures
        packets_for(pairs, c).len() > 0 ==> exists|i: int| 0 <= i < pairs.len() && pairs[i].0 == c,
    decreases pairs.len(),
{
    if pairs.len() > 0 {
        lemma_packets_for_keys(pairs.drop_last(), c);
        if pairs.last().0 != c && packets_for(pairs, c).len() > 0 {
            let i = choose|i: int| 0 <= i < pairs.drop_last().len() && pairs.drop_last()[i].0 == c;
            assert(pairs[i].0 == c);
        }
        if pairs.last().0 == c {
            assert(pairs[pairs.len() - 1].0 == c);
        }
    }
}

/// The group found for a key holds that key; no group holds a key that is not found.
pub proof fn lemma_group_index(groups: Seq<(Seq<char>, Seq<Seq<char>>)>, key: Seq<char>)
    ensures
        group_index(groups, key) matches Some(i) ==> 0 <= i < groups.len() && groups[i].0 == key,
        group_index(groups, key) is None ==> forall|j: int| 0 <= j < groups.len() ==> groups[j].0 != key,
    decreases groups.len(),
{
    if groups.len() > 0 && groups[0].0 != key {
        lemma_group_index(groups.drop_first(), key);
        assert forall|j: int| 1 <= j < groups.len() implies groups[j] == groups.drop_first()[j - 1] by {}
    }
}

/// Every observer and every bubble entry gives exactly one packet, whoever the
/// client: the observers first, each sent the message at the channel, then
/// each bubble entry, sent its data at its keypath, in order.
pub proof fn law_one_packet_per_entry(
    channel: Seq<char>,
    msg: Seq<char>,
    observers: Seq<Seq<char>>,
    bubble: Seq<(Seq<char>, Seq<char>, Seq<char>)>,
)
    ensures
        publication_pairs(channel, msg, observers, bubble).len() == observers.len() + bubble.len(),
        forall|i: int| 0 <= i < observers.len() ==> #[trigger] publication_pairs(channel, msg, observers, bubble)[i]
            == (observers[i], "{\"o\":4,\"p\":\""@ + channel + "\",\"d\":"@ + msg + "}"@),
        forall|k: int| 0 <= k < bubble.len() ==> #[trigger] publication_pairs(channel, msg, observers, bubble)[observers.len() + k]
            == (bubble[k].0, "{\"o\":4,\"p\":\""@ + bubble[k].1 + "\",\"d\":"@ + bubble[k].2 + "}"@),
{
    let pairs = publication_pairs(channel, msg, observers, bubble);
    let a = observers.map_values(|c: Seq<char>| (c, update_packet_text(channel, msg)));
    let b = bubble.map_values(|e: (Seq<char>, Seq<char>, Seq<char>)| (e.0, update_packet_text(e.1, e.2)));
    assert(pairs == a + b);
    assert forall|k: int| 0 <= k < bubble.len() implies #[trigger] pairs[observers.len() + k]
        == (bubble[k].0, "{\"o\":4,\"p\":\""@ + bubble[k].1 + "\",\"d\":"@ + bubble[k].2 + "}"@) by {
        assert(pairs[observers.len() + k] == b[k]);
    }
}

/// Each client of a publication is sent exactly one message: the groups name
/// each client once, every client with a packet has a group, and a client's
/// group holds its packets in order.
pub proof fn law_one_group_per_client(pairs: Seq<(Seq<char>, Seq<char>)>)
    ensures
        forall|i: int, j: int| 0 <= i < j < grouped(pairs).len() ==> grouped(pairs)[i].0 != grouped(pairs)[j].0,
        forall|i: int| 0 <= i < pairs.len() ==> exists|j: int| 0 <= j < grouped(pairs).len()
            && grouped(pairs)[j].0 == #[trigger] pairs[i].0,
        forall|j: int| 0 <= j < grouped(pairs).len() ==> #[trigger] grouped(pairs)[j].1 == packets_for(
            pairs,
            grouped(pairs)[j].0,
        ),
    decreases pairs.len(),
{
    if pairs.len() > 0 {
        let prev = pairs.drop_last();
        law_one_group_per_client(prev);
        let g = grouped(prev);
        let last = pairs.last();
        lemma_group_index(g, last.0);
        let h = grouped(pairs);
        assert(h == group_step(g, last));
        assert forall|j: int| 0 <= j < h.len() implies #[trigger] h[j].1 == packets_for(pairs, h[j].0) by {
            match group_index(g, last.0) {
                Some(i0) => {
                    assert(g[j].1 == packets_for(prev, g[j].0));
                    if j != i0 {
                        assert(g[j].0 != g[i0].0);
                    }
                },
                None => {
                    if j < g.len() {
                        assert(g[j].1 == packets_for(prev, g[j].0));
                        assert(g[j].0 != last.0);
                    } else {
                        lemma_packets_for_keys(prev, last.0);
                        if packets_for(prev, last.0).len() > 0 {
                            let i = choose|i: int| 0 <= i < prev.len() && prev[i].0 == last.0;
                            let k = choose|k: int| 0 <= k < g.len() && g[k].0 == #[trigger] prev[i].0;
                            assert(g[k].0 != last.0);
                        }
                        assert(packets_for(prev, last.0) =~= Seq::<Seq<char>>::empty());
                    }
                },
            }
        }
        assert forall|i: int| 0 <= i < pairs.len() implies exists|j: int| 0 <= j < h.len()
            && h[j].0 == #[trigger] pairs[i].0 by {
            if i < prev.len() {
                assert(prev[i] == pairs[i]);
                let j = choose|j: int| 0 <= j < g.len() && g[j].0 == #[trigger] prev[i].0;
                assert(h[j].0 == g[j].0);
            } else {
                match group_index(g, last.0) {
                    Some(j) => assert(h[j].0 == last.0),
                    None => assert(h[g.len() as int].0 == last.0),
                }
            }
        }
        assert forall|i: int, j: int| 0 <= i < j < h.len() implies h[i].0 != h[j].0 by {
            if j < g.len() {
                assert(h[i].0 == g[i].0 && h[j].0 == g[j].0);
            } else if i < g.len() {
                assert(h[i].0 == g[i].0);
            }
        }
    }
}

/// A kept entry among the first `i + 1` makes the kept list non-empty.
pub proof fn lemma_kept_nonempty(channel: Seq<char>, entries: Seq<(Seq<char>, Seq<Seq<char>>)>, i: int)
    requires
        0 <= i < entries.len(),
        bubble_kept(channel, entries[i]),
    ensures
        kept_descendants(channel, entries).len() > 0,
{
    let pred = |e: (Seq<char>, Seq<Seq<char>>)| bubble_kept(channel, e);
    entries.lemma_filter_contains(pred, i);
}

/// A kept entry is one of the kept list.
pub proof fn lemma_kept_has(channel: Seq<char>, entries: Seq<(Seq<char>, Seq<Seq<char>>)>, i: int)
    requires
        0 <= i < entries.len(),
        bubble_kept(channel, entries[i]),
    ensures
        exists|j: int| 0 <= j < kept_descendants(channel, entries).len()
            && kept_descendants(channel, entries)[j] == entries[i],
{
    let pred = |e: (Seq<char>, Seq<Seq<char>>)| bubble_kept(channel, e);
    entries.lemma_filter_contains(pred, i);
    let kept = kept_descendants(channel, entries);
    assert(kept.contains(entries[i]));
    let j = choose|j: int| 0 <= j < kept.len() && kept[j] == entries[i];
    assert(0 <= j < kept.len() && kept[j] == entries[i]);
}

} // verus!
