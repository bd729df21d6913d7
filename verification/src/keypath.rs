//! Keypaths: slash-separated segment lists, the absolute keypath of a state,
//! and the update packets that carry a keypath to a client.

use vstd::prelude::*;
use vstd::string::StringExecFns;
use crate::dash::string_views;

verus! {

/// The position of the first occurrence of `c` in `s`, if any.
pub open spec fn first_position(s: Seq<char>, c: char) -> Option<int>
    decreases s.len(),
{
    if s.len() == 0 {
        None
    } else if s[0] == c {
        Some(0)
    } else {
        match first_position(s.drop_first(), c) {
            Some(i) => Some(i + 1),
            None => None,
        }
    }
}

/// A position held as a mathematical integer.
pub open spec fn position_int(p: Option<usize>) -> Option<int> {
    match p {
        Some(i) => Some(i as int),
        None => None,
    }
}

/// The first occurrence found is in bounds, holds `c`, and nothing before it does;
/// when none is found, `c` does not occur at all.
pub proof fn lemma_first_position(s: Seq<char>, c: char)
    ensures
        first_position(s, c) matches Some(i) ==> 0 <= i < s.len() && s[i] == c
            && forall|j: int| 0 <= j < i ==> s[j] != c,
        first_position(s, c) is None ==> forall|j: int| 0 <= j < s.len() ==> s[j] != c,
    decreases s.len(),
{
    if s.len() > 0 && s[0] != c {
        lemma_first_position(s.drop_first(), c);
        assert forall|j: int| 1 <= j < s.len() implies s[j] == s.drop_first()[j - 1] by {}
    }
}

/// The segments of a keypath: the pieces between slashes, empty pieces left out.
/// Leading slashes are skipped, then the text up to the next slash is one segment.
pub open spec fn segments(s: Seq<char>) -> Seq<Seq<char>>
    decreases s.len(),
{
    if s.len() == 0 {
        seq![]
    } else if s[0] == '/' {
        segments(s.drop_first())
    } else {
        match first_position(s, '/') {
            Some(i) => if 0 < i < s.len() {
                seq![s.take(i)] + segments(s.skip(i + 1))
            } else {
                seq![s]
            },
            None => seq![s],
        }
    }
}

/// The parts joined, with `sep` between each two neighbours.
pub open spec fn joined(parts: Seq<Seq<char>>, sep: Seq<char>) -> Seq<char>
    decreases parts.len(),
{
    if parts.len() == 0 {
        seq![]
    } else if parts.len() == 1 {
        parts[0]
    } else {
        joined(parts.drop_last(), sep) + sep + parts.last()
    }
}

/// Finding the first position of a character in a string.
pub trait IndexOf: View<V = Seq<char>> {
    /// The position of the first `character`, counted in characters; the text is left as it was.
    fn index_of(&mut self, character: char) -> (position: Option<usize>)
        ensures
            final(self)@ == old(self)@,
            position_int(position) == first_position(old(self)@, character),
    ;
}

impl IndexOf for String {
    fn index_of(&mut self, character: char) -> (position: Option<usize>) {
        let len = self.as_str().unicode_len();
        let mut i: usize = 0;
        while i < len
            invariant
                len == self@.len(),
                0 <= i <= len,
                forall|j: int| 0 <= j < i ==> self@[j] != character,
            decreases len - i,
        {
            if self.as_str().get_char(i) == character {
                proof {
                    lemma_first_position(self@, character);
                    if first_position(self@, character) is None {
                        assert(self@[i as int] != character);
                    }
                }
                return Some(i);
            }
            i = i + 1;
        }
        proof {
            lemma_first_position(self@, character);
        }
        None
    }
}

/// Splits a keypath into its segments, as the subscription tree walks them.
pub fn keypath_segments(keypath: &str) -> (segs: Vec<String>)
    ensures
        string_views(segs@) == segments(keypath@),
{
    let mut segs: Vec<String> = Vec::new();
    let mut rest: String = keypath.to_owned();
    loop
        invariant
            string_views(segs@) + segments(rest@) == segments(keypath@),
        decreases rest@.len(),
    {
        let len = rest.as_str().unicode_len();
        if len == 0 {
            assert(string_views(segs@) + seq![] =~= string_views(segs@));
            return segs;
        }
        if rest.as_str().get_char(0) == '/' {
            let next = rest.as_str().substring_char(1, len).to_owned();
            assert(next@ =~= rest@.drop_first());
            rest = next;
        } else {
            match rest.index_of('/') {
                Some(i) => {
                    proof {
                        lemma_first_position(rest@, '/');
                    }
                    let seg = rest.as_str().substring_char(0, i).to_owned();
                    let next = rest.as_str().substring_char(i + 1, len).to_owned();
                    assert(seg@ =~= rest@.take(i as int));
                    assert(next@ =~= rest@.skip(i + 1));
                    let ghost old_segs = string_views(segs@);
                    segs.push(seg);
                    assert(string_views(segs@) =~= old_segs.push(seg@));
                    assert(old_segs.push(seg@) + segments(next@) =~= old_segs + (seq![seg@]
                        + segments(next@)));
                    rest = next;
                },
                None => {
                    let ghost old_segs = string_views(segs@);
                    segs.push(rest);
                    assert(string_views(segs@) =~= old_segs + seq![rest@]);
                    return segs;
                },
            }
        }
    }
}

/// `a` comes before `b` or equals it, comparing characters by code point
/// from the first on; a proper prefix comes first.
pub open spec fn text_le(a: Seq<char>, b: Seq<char>) -> bool
    decreases a.len(),
{
    if a.len() == 0 {
        true
    } else if b.len() == 0 {
        false
    } else if a[0] != b[0] {
        (a[0] as int) < (b[0] as int)
    } else {
        text_le(a.drop_first(), b.drop_first())
    }
}

/// Each element comes before or equals every later one.
pub open spec fn text_sorted(s: Seq<Seq<char>>) -> bool {
    forall|i: int, j: int| 0 <= i < j < s.len() ==> text_le(#[trigger] s[i], #[trigger] s[j])
}

/// Two texts that each come before or equal the other are equal.
pub proof fn lemma_text_le_antisymmetric(a: Seq<char>, b: Seq<char>)
    requires
        text_le(a, b),
        text_le(b, a),
    ensures
        a == b,
    decreases a.len(),
{
    if a.len() > 0 && b.len() > 0 && a[0] == b[0] {
        lemma_text_le_antisymmetric(a.drop_first(), b.drop_first());
        assert(a =~= seq![a[0]] + a.drop_first());
        assert(b =~= seq![b[0]] + b.drop_first());
    } else if a.len() == 0 && b.len() == 0 {
        assert(a =~= b);
    }
}

/// `<[String]>::sort_unstable`: the same strings, each as often as before,
/// in ascending order. `Ord` for strings compares their bytes, which for UTF-8
/// is the order of the code points.
#[verifier::external_body]
pub(crate) fn sort_strings(items: &mut Vec<String>)
    ensures
        string_views(final(items)@).to_multiset() == string_views(old(items)@).to_multiset(),
        text_sorted(string_views(final(items)@)),
{
    items.sort_unstable()
}

/// Drops each string of a sorted list that equals the one before it.
pub fn dedup_sorted(items: &Vec<String>) -> (out: Vec<String>)
    requires
        text_sorted(string_views(items@)),
    ensures
        string_views(out@).no_duplicates(),
        string_views(out@).to_set() == string_views(items@).to_set(),
        text_sorted(string_views(out@)),
{
    let ghost input = string_views(items@);
    let mut out: Vec<String> = Vec::new();
    let ghost mut idx: Seq<int> = seq![];
    let mut j: usize = 0;
    while j < items.len()
        invariant
            input == string_views(items@),
            text_sorted(input),
            j <= items@.len(),
            idx.len() == out@.len(),
            forall|p: int| 0 <= p < idx.len() ==> 0 <= #[trigger] idx[p] < j && out@[p]@ == input[idx[p]],
            forall|p: int, q: int| 0 <= p < q < idx.len() ==> #[trigger] idx[p] < #[trigger] idx[q],
            j > 0 ==> out@.len() > 0 && out@[out@.len() - 1]@ == input[j - 1],
            forall|i: int| #![trigger input[i]] 0 <= i < j ==> exists|p: int| 0 <= p < out@.len() && #[trigger] out@[p]@ == input[i],
            string_views(out@).no_duplicates(),
        decreases items@.len() - j,
    {
        if j == 0 || items[j] != out[out.len() - 1] {
            proof {
                assert forall|p: int| 0 <= p < out@.len() implies out@[p]@ != input[j as int] by {
                    let i = idx[p];
                    if out@[p]@ == input[j as int] && j > 0 {
                        if i < j - 1 {
                            assert(text_le(input[i], input[j - 1]));
                            assert(text_le(input[j - 1], input[j as int]));
                            lemma_text_le_antisymmetric(input[i], input[j - 1]);
                        }
                    }
                }
            }
            let ghost before = out@;
            out.push(items[j].clone());
            proof {
                idx = idx.push(j as int);
                assert(string_views(out@) =~= string_views(before).push(input[j as int]));
                assert forall|i: int| #![trigger input[i]] 0 <= i <= j implies exists|p: int| 0 <= p < out@.len() && #[trigger] out@[p]@ == input[i] by {
                    if i == j {
                        assert(out@[out@.len() - 1]@ == input[i]);
                    } else {
                        let p = choose|p: int| 0 <= p < before.len() && before[p]@ == input[i];
                        assert(out@[p]@ == input[i]);
                    }
                }
            }
        } else {
            proof {
                assert forall|i: int| #![trigger input[i]] 0 <= i <= j implies exists|p: int| 0 <= p < out@.len() && #[trigger] out@[p]@ == input[i] by {
                    if i == j {
                        assert(out@[out@.len() - 1]@ == input[i]);
                    }
                }
            }
        }
        j = j + 1;
    }
    proof {
        let o = string_views(out@);
        assert forall|x: Seq<char>| o.contains(x) <==> input.contains(x) by {
            if o.contains(x) {
                let p = choose|p: int| 0 <= p < o.len() && o[p] == x;
                assert(input[idx[p]] == x);
            }
            if input.contains(x) {
                let i = choose|i: int| 0 <= i < input.len() && input[i] == x;
                let p = choose|p: int| 0 <= p < out@.len() && #[trigger] out@[p]@ == input[i];
                assert(o[p] == x);
            }
        }
        assert(o.to_set() =~= input.to_set());
        assert forall|p: int, q: int| 0 <= p < q < o.len() implies text_le(#[trigger] o[p], #[trigger] o[q]) by {
            assert(idx[p] < idx[q]);
            assert(text_le(input[idx[p]], input[idx[q]]));
        }
    }
    out
}

/// Whether `wanted` is one of `items`.
pub fn contains_string(items: &Vec<String>, wanted: &String) -> (found: bool)
    ensures
        found == string_views(items@).contains(wanted@),
{
    let mut i: usize = 0;
    while i < items.len()
        invariant
            i <= items@.len(),
            forall|j: int| 0 <= j < i ==> items@[j]@ != wanted@,
        decreases items@.len() - i,
    {
        if items[i] == *wanted {
            assert(string_views(items@)[i as int] == wanted@);
            return true;
        }
        i = i + 1;
    }
    proof {
        if string_views(items@).contains(wanted@) {
            let j = choose|j: int| 0 <= j < string_views(items@).len() && string_views(items@)[j] == wanted@;
            assert(items@[j]@ == wanted@);
        }
    }
    false
}

/// The absolute keypath of `keypath` inside the state `state`.
pub fn formatted_absolute_keypath(state: String, keypath: String) -> (path: String)
    ensures
        path@ == "/state/"@ + state@ + "/keypath/"@ + keypath@,
{
    let mut path = String::from_str("/state/");
    path.append(state.as_str());
    path.append("/keypath/");
    path.append(keypath.as_str());
    path
}

/// The packet that tells a client the value `data` now stands at `keypath`.
pub fn make_update_packet(keypath: String, data: String) -> (packet: String)
    ensures
        packet@ == "{\"o\":4,\"p\":\""@ + keypath@ + "\",\"d\":"@ + data@ + "}"@,
{
    let mut packet = String::from_str("{\"o\":4,\"p\":\"");
    packet.append(keypath.as_str());
    packet.append("\",\"d\":");
    packet.append(data.as_str());
    packet.append("}");
    packet
}

/// The parts joined with `sep` between neighbours.
pub fn join_strings(parts: &Vec<String>, sep: &str) -> (out: String)
    ensures
        out@ == joined(string_views(parts@), sep@),
{
    let mut out = String::new();
    let mut i: usize = 0;
    while i < parts.len()
        invariant
            0 <= i <= parts.len(),
            out@ == joined(string_views(parts@).take(i as int), sep@),
        decreases parts.len() - i,
    {
        let ghost before = string_views(parts@).take(i as int);
        if i > 0 {
            out.append(sep);
        }
        out.append(parts[i].as_str());
        assert(string_views(parts@).take(i + 1).drop_last() =~= before);
        if i == 0 {
            assert(out@ =~= joined(string_views(parts@).take(1), sep@));
        }
        i = i + 1;
    }
    assert(string_views(parts@).take(parts.len() as int) =~= string_views(parts@));
    out
}

/// The packet that carries several update packets to one client at once.
pub fn make_bulk_update_packet(packets: Vec<String>) -> (packet: String)
    ensures
        packet@ == "{\"o\":6,\"d\":["@ + joined(string_views(packets@), ","@) + "]}"@,
{
    let mut packet = String::from_str("{\"o\":6,\"d\":[");
    let inner = join_strings(&packets, ",");
    packet.append(inner.as_str());
    packet.append("]}");
    packet
}

} // verus!
