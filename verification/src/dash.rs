//! Concurrent collections of the `dashmap` crate, as the subscription tree
//! uses them: a set of client ids and a map from path segment to node index.

use vstd::prelude::*;
use dashmap::{DashMap, DashSet};

verus! {

#[verifier::external_type_specification]
#[verifier::external_body]
#[verifier::reject_recursive_types(K)]
#[verifier::reject_recursive_types(V)]
#[verifier::reject_recursive_types(S)]
pub struct ExDashMap<K, V, S>(DashMap<K, V, S>);

#[verifier::external_type_specification]
#[verifier::external_body]
#[verifier::reject_recursive_types(K)]
#[verifier::reject_recursive_types(S)]
pub struct ExDashSet<K, S>(DashSet<K, S>);

/// A map from path segment to the index of the node under it.
pub type ChildMap = DashMap<String, usize>;

/// What a set of client ids holds, each id taken by its characters.
pub uninterp spec fn member_set(s: DashSet<String>) -> Set<Seq<char>>;

/// What a segment-to-node map holds, each segment taken by its characters.
pub uninterp spec fn child_map(m: ChildMap) -> Map<Seq<char>, usize>;

/// The characters of each string of a sequence.
pub open spec fn string_views(s: Seq<String>) -> Seq<Seq<char>> {
    s.map_values(|x: String| x@)
}

/// `s` lists every key of `m` exactly once, each with its value in `m`.
pub open spec fn is_listing(s: Seq<(Seq<char>, usize)>, m: Map<Seq<char>, usize>) -> bool {
    &&& forall|i: int| 0 <= i < s.len() ==> #[trigger] m.contains_key(s[i].0) && m[s[i].0] == s[i].1
    &&& forall|i: int, j: int| 0 <= i < j < s.len() ==> #[trigger] s[i].0 != #[trigger] s[j].0
    &&& forall|k: Seq<char>| #[trigger] m.contains_key(k) ==> exists|i: int| 0 <= i < s.len() && s[i].0 == k
}

/// The segment and node index of each entry of a listing.
pub open spec fn entry_views(s: Seq<(String, usize)>) -> Seq<(Seq<char>, usize)> {
    s.map_values(|e: (String, usize)| (e.0@, e.1))
}

/// `DashSet::new`: an empty set.
#[verifier::external_body]
pub(crate) fn member_set_new() -> (s: DashSet<String>)
    ensures
        member_set(s) == Set::<Seq<char>>::empty(),
{
    DashSet::new()
}

/// `DashSet::insert`: adds the id; the result tells whether it was absent.
#[verifier::external_body]
pub(crate) fn member_insert(s: &mut DashSet<String>, id: String) -> (added: bool)
    ensures
        member_set(*final(s)) == member_set(*old(s)).insert(id@),
        added == !member_set(*old(s)).contains(id@),
{
    s.insert(id)
}

/// `DashSet::remove`: takes the id out; the result is the stored id if there was one.
#[verifier::external_body]
pub(crate) fn member_remove(s: &mut DashSet<String>, id: &String) -> (removed: Option<String>)
    ensures
        member_set(*final(s)) == member_set(*old(s)).remove(id@),
        removed is Some <==> member_set(*old(s)).contains(id@),
        removed matches Some(k) ==> k@ == id@,
{
    s.remove(id)
}

/// `DashSet::contains`.
#[verifier::external_body]
pub(crate) fn member_contains(s: &DashSet<String>, id: &String) -> (found: bool)
    ensures
        found == member_set(*s).contains(id@),
{
    s.contains(id)
}

/// `DashSet::len`: the number of ids held.
#[verifier::external_body]
pub(crate) fn member_count(s: &DashSet<String>) -> (n: usize)
    ensures
        n == member_set(*s).len(),
{
    s.len()
}

/// `DashSet::iter`, each id copied out: every id held, once each, in the
/// order in which the shards are walked (which nothing here fixes).
#[verifier::external_body]
pub(crate) fn member_list(s: &DashSet<String>) -> (ids: Vec<String>)
    ensures
        string_views(ids@).no_duplicates(),
        string_views(ids@).to_set() == member_set(*s),
{
    s.iter().map(|r| r.key().clone()).collect()
}

/// `DashMap::new`: an empty map.
#[verifier::external_body]
pub(crate) fn child_map_new() -> (children: ChildMap)
    ensures
        child_map(children).dom() == Set::<Seq<char>>::empty(),
{
    DashMap::new()
}

/// `DashMap::get`, the value copied out: the node stored under the segment, if any.
#[verifier::external_body]
pub(crate) fn child_get(m: &ChildMap, segment: &String) -> (node: Option<usize>)
    ensures
        node == (if child_map(*m).contains_key(segment@) {
            Some(child_map(*m)[segment@])
        } else {
            None
        }),
{
    m.get(segment).map(|r| *r.value())
}

/// `DashMap::insert`: stores the node under the segment, replacing what was there.
#[verifier::external_body]
pub(crate) fn child_insert(m: &mut ChildMap, segment: String, node: usize) -> (previous: Option<usize>)
    ensures
        child_map(*final(m)) == child_map(*old(m)).insert(segment@, node),
        previous == (if child_map(*old(m)).contains_key(segment@) {
            Some(child_map(*old(m))[segment@])
        } else {
            None
        }),
{
    m.insert(segment, node)
}

/// `DashMap::iter`, each entry copied out: every segment once, with its node,
/// in the order in which the shards are walked (which nothing here fixes).
#[verifier::external_body]
pub(crate) fn child_list(m: &ChildMap) -> (entries: Vec<(String, usize)>)
    ensures
        is_listing(entry_views(entries@), child_map(*m)),
{
    m.iter().map(|r| (r.key().clone(), *r.value())).collect()
}

} // verus!
