//! The subscription tracker: subscribes clients at the absolute keypaths of a
//! state, answers which clients a published keypath reaches, and derives the
//! broker patterns the gateway must listen on.

use vstd::prelude::*;
use crate::dash::string_views;
use crate::keypath::{
    segments, joined, formatted_absolute_keypath, join_strings, contains_string, sort_strings,
    dedup_sorted, text_sorted,
};
use crate::subscription::{
    Subscription, NodeView, ListingView, listing_of, walk, with_clients, without_client_below,
    observers, descendants_in, descendant_views, patterns_in, nested_views, tree_wf, same_shape,
    in_subtree, lemma_walk_create, lemma_walk_idempotent, lemma_walk_same_shape, lemma_walk_concat,
    lemma_walk_create_below, lemma_subscriber_observes_subtree, lemma_with_clients_shape,
    lemma_all_below_root, lemma_unheld_unobserved, lemma_same_shape_wf, lemma_walk_path,
    lemma_same_shape_path, law_every_subscribed_keypath_listened, law_patterns_order_free, path,
    extends, lemma_extends_path, lemma_path_injective,
};
use crate::keypath::lemma_first_position;

verus! {

/// The broker patterns gained and lost since the previous look.
pub struct SubscriptionDiff {
    pub new_subscribed: Vec<String>,
    pub unsubscribed: Vec<String>,
}

/// The subscription tree with the broker patterns last listened on.
pub struct SubscriptionTracker {
    pub last_subscribed_paths: Vec<String>,
    pub root_subscription: Subscription,
}

/// The absolute keypath of `keypath` inside the state `state`.
pub open spec fn absolute_keypath(state: Seq<char>, keypath: Seq<char>) -> Seq<char> {
    "/state/"@ + state + "/keypath/"@ + keypath
}

/// Subscribing (or unsubscribing) `id` at `key` inside `state`: the node for
/// the absolute keypath is created if missing, then the id is added to (or
/// taken from) its clients.
pub open spec fn subscription_step(
    t: Seq<NodeView>,
    state: Seq<char>,
    key: Seq<char>,
    id: Seq<char>,
    subscribed: bool,
) -> Seq<NodeView> {
    let (u, found) = walk(t, 0, segments(absolute_keypath(state, key)), true);
    match found {
        Some(n) => with_clients(
            u,
            n,
            if subscribed {
                u[n].clients.insert(id)
            } else {
                u[n].clients.remove(id)
            },
        ),
        None => u,
    }
}

/// Subscription steps for each key in turn.
pub open spec fn subscription_steps(
    t: Seq<NodeView>,
    state: Seq<char>,
    keys: Seq<Seq<char>>,
    id: Seq<char>,
    subscribed: bool,
) -> Seq<NodeView>
    decreases keys.len(),
{
    if keys.len() == 0 {
        t
    } else {
        subscription_step(
            subscription_steps(t, state, keys.drop_last(), id, subscribed),
            state,
            keys.last(),
            id,
            subscribed,
        )
    }
}

/// The clients a publication at `keypath` reaches, once its node exists.
pub open spec fn keypath_observers(t: Seq<NodeView>, keypath: Seq<char>) -> Set<Seq<char>> {
    let (u, found) = walk(t, 0, segments(keypath), true);
    match found {
        Some(n) => observers(u, n),
        None => Set::empty(),
    }
}

/// The text of a broker pattern: its segments joined by slashes, with a slash
/// added unless it already ends in `*` or `/`.
pub open spec fn pattern_text(p: Seq<Seq<char>>) -> Seq<char> {
    let j = joined(p, "/"@);
    if j.len() > 0 && (j.last() == '*' || j.last() == '/') {
        j
    } else {
        j + "/"@
    }
}

/// `keys` is a listing, without repeats, of the pattern texts of the tree as
/// its collections were met in `l`.
pub open spec fn is_dump(t: Seq<NodeView>, l: ListingView, keys: Seq<Seq<char>>) -> bool {
    &&& keys.no_duplicates()
    &&& keys.to_set() == patterns_in(t, l, 0, seq![]).0.map_values(
        |p: Seq<Seq<char>>| pattern_text(p),
    ).to_set()
}

/// The keys of `new` not in `old`, and those of `old` not in `new`.
pub open spec fn keys_gained(old: Seq<Seq<char>>, new: Seq<Seq<char>>) -> Seq<Seq<char>> {
    new.filter(|k: Seq<char>| !old.contains(k))
}

/// A client subscribed at a keypath of a state is reached by publications at
/// that keypath and at every keypath below it: once `id` is subscribed at `key`
/// in `state`, the clients of any keypath whose segments begin with those of
/// the subscribed keypath include `id`.
pub proof fn law_subscriber_reached_below(
    t: Seq<NodeView>,
    state: Seq<char>,
    key: Seq<char>,
    id: Seq<char>,
    keypath: Seq<char>,
)
    requires
        tree_wf(t),
        segments(keypath).len() >= segments(absolute_keypath(state, key)).len(),
        segments(keypath).take(segments(absolute_keypath(state, key)).len() as int) == segments(
            absolute_keypath(state, key),
        ),
        t.len() + segments(absolute_keypath(state, key)).len() + segments(keypath).len() <= usize::MAX,
    ensures
        keypath_observers(subscription_step(t, state, key, id, true), keypath).contains(id),
{
    let s1 = segments(absolute_keypath(state, key));
    let s = segments(keypath);
    let s2 = s.skip(s1.len() as int);
    assert(s =~= s1 + s2);
    lemma_walk_create(t, 0, s1);
    let (u, found) = walk(t, 0, s1, true);
    let n = found.unwrap();
    let t1 = with_clients(u, n, u[n].clients.insert(id));
    lemma_with_clients_shape(u, n, u[n].clients.insert(id));
    lemma_walk_idempotent(t, 0, s1, true);
    lemma_walk_same_shape(u, t1, 0, s1, true);
    lemma_walk_concat(t1, 0, s1, s2, true);
    lemma_walk_create(t1, n, s2);
    lemma_walk_create_below(t1, n, s2);
    let (v, reached) = walk(t1, n, s2, true);
    let m = reached.unwrap();
    assert(v[n].clients == t1[n].clients);
    lemma_subscriber_observes_subtree(v, n, m, id);
}

/// A deleted client is reached by no publication: after `delete_client(id)`,
/// the clients of every keypath leave `id` out.
pub proof fn law_deleted_client_unreached(t: Seq<NodeView>, id: Seq<char>, keypath: Seq<char>)
    requires
        tree_wf(t),
        t.len() + segments(keypath).len() <= usize::MAX,
    ensures
        !keypath_observers(without_client_below(t, 0, id), keypath).contains(id),
{
    let t0 = without_client_below(t, 0, id);
    assert(same_shape(t, t0));
    lemma_same_shape_wf(t, t0);
    assert forall|x: int| 0 <= x < t0.len() implies !(#[trigger] t0[x].clients).contains(id) by {
        lemma_all_below_root(t, x);
    }
    lemma_walk_create(t0, 0, segments(keypath));
    let (u, found) = walk(t0, 0, segments(keypath), true);
    assert forall|x: int| 0 <= x < u.len() implies !(#[trigger] u[x].clients).contains(id) by {
        if x < t0.len() {
            assert(u[x].clients == t0[x].clients);
        } else {
            assert(u[x].clients == Set::<Seq<char>>::empty());
        }
    }
    lemma_unheld_unobserved(u, found.unwrap(), id);
}

/// Of two subscription changes of one client at one keypath, the later one
/// decides: subscribing then unsubscribing is unsubscribing, unsubscribing then
/// subscribing is subscribing, and doing either twice is doing it once.
pub proof fn law_last_subscription_change_decides(
    t: Seq<NodeView>,
    state: Seq<char>,
    key: Seq<char>,
    id: Seq<char>,
    first: bool,
    second: bool,
)
    requires
        tree_wf(t),
        t.len() + segments(absolute_keypath(state, key)).len() <= usize::MAX,
    ensures
        subscription_step(subscription_step(t, state, key, id, first), state, key, id, second)
            == subscription_step(t, state, key, id, second),
{
    let s1 = segments(absolute_keypath(state, key));
    lemma_walk_create(t, 0, s1);
    let (u, found) = walk(t, 0, s1, true);
    let n = found.unwrap();
    let a = if first { u[n].clients.insert(id) } else { u[n].clients.remove(id) };
    let t1 = with_clients(u, n, a);
    lemma_with_clients_shape(u, n, a);
    lemma_walk_idempotent(t, 0, s1, true);
    lemma_walk_same_shape(u, t1, 0, s1, true);
    let b = if second { t1[n].clients.insert(id) } else { t1[n].clients.remove(id) };
    let b0 = if second { u[n].clients.insert(id) } else { u[n].clients.remove(id) };
    assert(b =~= b0);
    assert(with_clients(t1, n, b) =~= with_clients(u, n, b0));
}

/// A key gained is a key of the new list missing from the old one, and every
/// such key is gained.
pub proof fn law_keys_gained(old: Seq<Seq<char>>, new: Seq<Seq<char>>)
    ensures
        forall|k: Seq<char>| keys_gained(old, new).contains(k) <==> new.contains(k) && !old.contains(k),
{
    let pred = |k: Seq<char>| !old.contains(k);
    assert forall|k: Seq<char>| keys_gained(old, new).contains(k) <==> new.contains(k) && !old.contains(k) by {
        if new.contains(k) && !old.contains(k) {
            let i = choose|i: int| 0 <= i < new.len() && new[i] == k;
            new.lemma_filter_contains(pred, i);
        }
        if keys_gained(old, new).contains(k) {
            new.lemma_filter_contains_rev(pred, k);
            let f = new.filter(pred);
            let i = choose|i: int| 0 <= i < f.len() && f[i] == k;
            new.lemma_filter_pred(pred, i);
        }
    }
}

/// The absolute keypath of a state has at least one segment.
pub proof fn lemma_absolute_segments_nonempty(state: Seq<char>, key: Seq<char>)
    ensures
        segments(absolute_keypath(state, key)).len() > 0,
{
    reveal_strlit("/state/");
    let s = absolute_keypath(state, key);
    assert(s[0] == '/');
    let s1 = s.drop_first();
    assert(s1[0] == 's');
    lemma_first_position(s1, '/');
    assert(segments(s) == segments(s1));
}

/// Every subscribed keypath is listened on: once `id` is subscribed at `key`
/// in `state`, every dump of the tree holds the pattern of that absolute
/// keypath followed by `*`, whatever order the collections were met in.
pub proof fn law_subscribed_keypath_listened(
    t: Seq<NodeView>,
    state: Seq<char>,
    key: Seq<char>,
    id: Seq<char>,
    l: ListingView,
    keys: Seq<Seq<char>>,
)
    requires
        tree_wf(t),
        t.len() + segments(absolute_keypath(state, key)).len() <= usize::MAX,
        listing_of(subscription_step(t, state, key, id, true), l),
        is_dump(subscription_step(t, state, key, id, true), l, keys),
    ensures
        keys.contains(pattern_text(segments(absolute_keypath(state, key)).push("*"@))),
{
    let s1 = segments(absolute_keypath(state, key));
    lemma_absolute_segments_nonempty(state, key);
    lemma_walk_create(t, 0, s1);
    let (u, found) = walk(t, 0, s1, true);
    let n = found.unwrap();
    let t1 = with_clients(u, n, u[n].clients.insert(id));
    assert(t1 == subscription_step(t, state, key, id, true));
    lemma_with_clients_shape(u, n, u[n].clients.insert(id));
    lemma_walk_path(t, 0, s1);
    assert(path(t, 0) + s1 =~= s1);
    lemma_same_shape_path(u, t1, n);
    assert(n != 0);
    vstd::seq_lib::seq_to_set_is_finite(l.clients[n]);
    assert(l.clients[n].to_set() == t1[n].clients);
    vstd::set::axiom_set_contains_len(t1[n].clients, id);
    law_every_subscribed_keypath_listened(t1, l, n);
    let pats = patterns_in(t1, l, 0, seq![]).0;
    let x = s1.push("*"@);
    let q = choose|q: int| 0 <= q < pats.len() && pats[q] == x;
    let mapped = pats.map_values(|p: Seq<Seq<char>>| pattern_text(p));
    assert(mapped[q] == pattern_text(x));
    assert(mapped.contains(pattern_text(x)));
    assert(mapped.to_set().contains(pattern_text(x)));
    assert(keys.to_set().contains(pattern_text(x)));
}

/// Two dumps of one tree hold the same keys, whatever order the collections
/// were met in each time.
pub proof fn law_dumps_agree(
    t: Seq<NodeView>,
    l1: ListingView,
    l2: ListingView,
    keys1: Seq<Seq<char>>,
    keys2: Seq<Seq<char>>,
)
    requires
        tree_wf(t),
        listing_of(t, l1),
        listing_of(t, l2),
        is_dump(t, l1, keys1),
        is_dump(t, l2, keys2),
    ensures
        keys1.to_set() == keys2.to_set(),
{
    law_patterns_order_free(t, l1, l2, 0, seq![]);
    let p1 = patterns_in(t, l1, 0, seq![]).0;
    let p2 = patterns_in(t, l2, 0, seq![]).0;
    let m1 = p1.map_values(|p: Seq<Seq<char>>| pattern_text(p));
    let m2 = p2.map_values(|p: Seq<Seq<char>>| pattern_text(p));
    assert forall|y: Seq<char>| m1.contains(y) <==> m2.contains(y) by {
        if m1.contains(y) {
            let q = choose|q: int| 0 <= q < m1.len() && m1[q] == y;
            assert(p1.to_set().contains(p1[q]));
            assert(p2.contains(p1[q]));
            let q2 = choose|q2: int| 0 <= q2 < p2.len() && p2[q2] == p1[q];
            assert(m2[q2] == y);
        }
        if m2.contains(y) {
            let q = choose|q: int| 0 <= q < m2.len() && m2[q] == y;
            assert(p2.to_set().contains(p2[q]));
            assert(p1.contains(p2[q]));
            let q1 = choose|q1: int| 0 <= q1 < p1.len() && p1[q1] == p2[q];
            assert(m1[q1] == y);
        }
    }
    assert(m1.to_set() =~= m2.to_set());
}

/// Looking again at a tree that has not changed since the last look gains and
/// loses nothing: when the keys listened on are a dump of the tree and a new
/// dump of the same tree is taken, no key is gained and none is lost.
pub proof fn law_unchanged_tree_no_diff(
    t: Seq<NodeView>,
    l1: ListingView,
    l2: ListingView,
    listened: Seq<Seq<char>>,
    dumped: Seq<Seq<char>>,
)
    requires
        tree_wf(t),
        listing_of(t, l1),
        listing_of(t, l2),
        is_dump(t, l1, listened),
        is_dump(t, l2, dumped),
    ensures
        keys_gained(listened, dumped) == Seq::<Seq<char>>::empty(),
        keys_gained(dumped, listened) == Seq::<Seq<char>>::empty(),
{
    law_dumps_agree(t, l1, l2, listened, dumped);
    law_keys_gained(listened, dumped);
    law_keys_gained(dumped, listened);
    let g1 = keys_gained(listened, dumped);
    let g2 = keys_gained(dumped, listened);
    if g1.len() > 0 {
        let k = g1[0];
        assert(g1.contains(k));
        assert(dumped.to_set().contains(k));
        assert(listened.to_set().contains(k));
        assert(false);
    }
    if g2.len() > 0 {
        let k = g2[0];
        assert(g2.contains(k));
        assert(listened.to_set().contains(k));
        assert(dumped.to_set().contains(k));
        assert(false);
    }
    assert(g1 =~= Seq::<Seq<char>>::empty());
    assert(g2 =~= Seq::<Seq<char>>::empty());
}

/// The number of segments of the absolute keypaths of all of `keys`: an upper
/// bound on the nodes that subscribing at them creates.
pub open spec fn total_segments(state: Seq<char>, keys: Seq<Seq<char>>) -> nat
    decreases keys.len(),
{
    if keys.len() == 0 {
        0
    } else {
        total_segments(state, keys.drop_last()) + segments(absolute_keypath(state, keys.last())).len()
    }
}

/// Node `j` of `t` sits at the absolute keypath of one of `keys`.
pub open spec fn at_one_of(t: Seq<NodeView>, state: Seq<char>, keys: Seq<Seq<char>>, j: int) -> bool {
    exists|q: int| 0 <= q < keys.len() && path(t, j) == segments(absolute_keypath(state, #[trigger] keys[q]))
}

/// `clients` with `id` added (or taken out) when `hit`, and left alone otherwise.
pub open spec fn adjusted(clients: Set<Seq<char>>, hit: bool, id: Seq<char>, subscribed: bool) -> Set<Seq<char>> {
    if hit {
        if subscribed {
            clients.insert(id)
        } else {
            clients.remove(id)
        }
    } else {
        clients
    }
}

/// The clients of a node of `t` after subscription steps, as a function of its
/// keypath: those it had (none for a node the steps created), with `id` added
/// or taken out when the node sits at one of the keypaths. The nodes of `t`
/// keep their keypaths, and every keypath stepped at has a node.
pub proof fn lemma_steps_clients(
    t: Seq<NodeView>,
    state: Seq<char>,
    keys: Seq<Seq<char>>,
    id: Seq<char>,
    subscribed: bool,
)
    requires
        tree_wf(t),
        t.len() + total_segments(state, keys) <= usize::MAX,
    ensures
        ({
            let v = subscription_steps(t, state, keys, id, subscribed);
            &&& tree_wf(v)
            &&& t.len() <= v.len() <= t.len() + total_segments(state, keys)
            &&& forall|j: int| 0 <= j < t.len() ==> #[trigger] path(v, j) == path(t, j)
            &&& forall|q: int| #![trigger keys[q]] 0 <= q < keys.len() ==> exists|n: int| 0 <= n < v.len()
                && #[trigger] path(v, n) == segments(absolute_keypath(state, keys[q]))
            &&& forall|j: int| 0 <= j < v.len() ==> #[trigger] v[j].clients == adjusted(
                if j < t.len() { t[j].clients } else { Set::empty() },
                at_one_of(v, state, keys, j),
                id,
                subscribed,
            )
        }),
    decreases keys.len(),
{
    let v = subscription_steps(t, state, keys, id, subscribed);
    if keys.len() == 0 {
        assert forall|j: int| 0 <= j < v.len() implies #[trigger] v[j].clients == adjusted(
            if j < t.len() { t[j].clients } else { Set::empty() },
            at_one_of(v, state, keys, j),
            id,
            subscribed,
        ) by {}
    } else {
        let front = keys.drop_last();
        let key = keys.last();
        lemma_steps_clients(t, state, front, id, subscribed);
        let w = subscription_steps(t, state, front, id, subscribed);
        let segs = segments(absolute_keypath(state, key));
        lemma_walk_create(w, 0, segs);
        lemma_walk_path(w, 0, segs);
        let (u, found) = walk(w, 0, segs, true);
        let n = found.unwrap();
        let c = if subscribed { u[n].clients.insert(id) } else { u[n].clients.remove(id) };
        assert(v == with_clients(u, n, c));
        lemma_with_clients_shape(u, n, c);
        assert(path(w, 0) + segs =~= segs);
        assert(path(v, n) == segs) by {
            lemma_same_shape_path(u, v, n);
        }
        assert forall|j: int| 0 <= j < w.len() implies #[trigger] path(v, j) == path(w, j) by {
            lemma_same_shape_path(u, v, j);
            lemma_extends_path(w, u, j);
        }
        assert forall|j: int| 0 <= j < t.len() implies #[trigger] path(v, j) == path(t, j) by {
            assert(path(v, j) == path(w, j));
            assert(path(w, j) == path(t, j));
        }
        assert forall|q: int| #![trigger keys[q]] 0 <= q < keys.len() implies exists|m: int| 0 <= m < v.len()
            && #[trigger] path(v, m) == segments(absolute_keypath(state, keys[q])) by {
            if q < front.len() {
                assert(front[q] == keys[q]);
                let m = choose|m: int| 0 <= m < w.len() && #[trigger] path(w, m) == segments(absolute_keypath(state, front[q]));
                assert(path(v, m) == path(w, m));
            } else {
                assert(keys[q] == key);
                assert(path(v, n) == segments(absolute_keypath(state, keys[q])));
            }
        }
        assert forall|j: int| 0 <= j < v.len() implies #[trigger] v[j].clients == adjusted(
            if j < t.len() { t[j].clients } else { Set::empty() },
            at_one_of(v, state, keys, j),
            id,
            subscribed,
        ) by {
            let base = if j < t.len() { t[j].clients } else { Set::<Seq<char>>::empty() };
            let hit_key = path(v, j) == segs;
            assert(hit_key <==> j == n) by {
                if hit_key {
                    lemma_path_injective(v, j, n);
                }
            }
            if j < w.len() {
                assert(path(v, j) == path(w, j));
                assert(at_one_of(w, state, front, j) ==> at_one_of(v, state, keys, j)) by {
                    if at_one_of(w, state, front, j) {
                        let q = choose|q: int| 0 <= q < front.len() && path(w, j) == segments(
                            absolute_keypath(state, #[trigger] front[q]),
                        );
                        assert(keys[q] == front[q]);
                    }
                }
                assert(at_one_of(v, state, keys, j) ==> at_one_of(w, state, front, j) || hit_key) by {
                    if at_one_of(v, state, keys, j) {
                        let q = choose|q: int| 0 <= q < keys.len() && path(v, j) == segments(
                            absolute_keypath(state, #[trigger] keys[q]),
                        );
                        if q < front.len() {
                            assert(keys[q] == front[q]);
                        }
                    }
                }
                assert(w[j].clients == adjusted(base, at_one_of(w, state, front, j), id, subscribed));
                assert(u[j].clients == w[j].clients);
                if j == n {
                    assert(at_one_of(v, state, keys, j)) by {
                        assert(keys[keys.len() - 1] == key);
                    }
                    assert(v[j].clients =~= adjusted(base, true, id, subscribed));
                } else {
                    assert(v[j].clients == w[j].clients);
                }
            } else {
                assert(u[j].clients == Set::<Seq<char>>::empty());
                assert(base == Set::<Seq<char>>::empty());
                assert(!at_one_of(w, state, front, j)) by {
                    if at_one_of(w, state, front, j) {
                        let q = choose|q: int| 0 <= q < front.len() && path(w, j) == segments(
                            absolute_keypath(state, #[trigger] front[q]),
                        );
                        lemma_absolute_segments_nonempty(state, front[q]);
                        assert(path(w, j).len() == 0);
                    }
                }
                assert(at_one_of(v, state, keys, j) ==> hit_key) by {
                    if at_one_of(v, state, keys, j) {
                        let q = choose|q: int| 0 <= q < keys.len() && path(v, j) == segments(
                            absolute_keypath(state, #[trigger] keys[q]),
                        );
                        if q < front.len() {
                            assert(keys[q] == front[q]);
                            let m = choose|m: int| 0 <= m < w.len() && #[trigger] path(w, m) == segments(
                                absolute_keypath(state, front[q]),
                            );
                            assert(path(v, m) == path(w, m));
                            lemma_path_injective(v, j, m);
                        }
                    }
                }
                if j == n {
                    assert(at_one_of(v, state, keys, j)) by {
                        assert(keys[keys.len() - 1] == key);
                    }
                } else {
                    assert(!at_one_of(v, state, keys, j));
                    assert(v[j].clients == u[j].clients);
                }
            }
        }
    }
}

/// Subscribing a client at a list of keypaths of a state and then
/// unsubscribing it at the same list gives every node back the clients it
/// had, when the client was subscribed at none of those keypaths before. The
/// nodes created on the way remain, with no clients, and every node keeps its
/// keypath.
pub proof fn law_subscribe_unsubscribe_round_trip(
    t: Seq<NodeView>,
    state: Seq<char>,
    keys: Seq<Seq<char>>,
    id: Seq<char>,
)
    requires
        tree_wf(t),
        t.len() + 2 * total_segments(state, keys) <= usize::MAX,
        forall|j: int, q: int|
            #![trigger path(t, j), keys[q]]
            0 <= j < t.len() && 0 <= q < keys.len() && path(t, j) == segments(absolute_keypath(state, keys[q]))
                ==> !t[j].clients.contains(id),
    ensures
        ({
            let u = subscription_steps(subscription_steps(t, state, keys, id, true), state, keys, id, false);
            &&& tree_wf(u)
            &&& t.len() <= u.len()
            &&& forall|j: int| 0 <= j < t.len() ==> #[trigger] u[j].clients == t[j].clients && path(u, j) == path(t, j)
            &&& forall|j: int| t.len() <= j < u.len() ==> #[trigger] u[j].clients == Set::<Seq<char>>::empty()
        }),
{
    lemma_steps_clients(t, state, keys, id, true);
    let v = subscription_steps(t, state, keys, id, true);
    lemma_steps_clients(v, state, keys, id, false);
    let u = subscription_steps(v, state, keys, id, false);
    assert forall|j: int| 0 <= j < t.len() implies #[trigger] u[j].clients == t[j].clients && path(u, j) == path(t, j) by {
        assert(path(u, j) == path(v, j));
        assert(path(v, j) == path(t, j));
        let hit = at_one_of(v, state, keys, j);
        assert(at_one_of(u, state, keys, j) == hit);
        assert(v[j].clients == adjusted(t[j].clients, hit, id, true));
        assert(u[j].clients == adjusted(v[j].clients, hit, id, false));
        if hit {
            let q = choose|q: int| 0 <= q < keys.len() && path(v, j) == segments(absolute_keypath(state, #[trigger] keys[q]));
            assert(path(t, j) == segments(absolute_keypath(state, keys[q])));
            assert(!t[j].clients.contains(id));
            assert(t[j].clients.insert(id).remove(id) =~= t[j].clients);
        }
    }
    assert forall|j: int| t.len() <= j < u.len() implies #[trigger] u[j].clients == Set::<Seq<char>>::empty() by {
        if j < v.len() {
            assert(path(u, j) == path(v, j));
            assert(v[j].clients == adjusted(Set::<Seq<char>>::empty(), at_one_of(v, state, keys, j), id, true));
            assert(u[j].clients == adjusted(v[j].clients, at_one_of(u, state, keys, j), id, false));
            assert(Set::<Seq<char>>::empty().insert(id).remove(id) =~= Set::<Seq<char>>::empty());
            assert(Set::<Seq<char>>::empty().remove(id) =~= Set::<Seq<char>>::empty());
        } else {
            assert(Set::<Seq<char>>::empty().remove(id) =~= Set::<Seq<char>>::empty());
        }
    }
}

/// The broker pattern text of a list of segments.
pub fn pattern_to_text(pattern: &Vec<String>) -> (text: String)
    ensures
        text@ == pattern_text(string_views(pattern@)),
{
    let mut text = join_strings(pattern, "/");
    let len = text.as_str().unicode_len();
    if !(len > 0 && (text.as_str().get_char(len - 1) == '*' || text.as_str().get_char(len - 1) == '/')) {
        text.append("/");
    }
    text
}

/// Lists each pattern text once.
pub fn unique_pattern_texts(patterns: &Vec<Vec<String>>) -> (texts: Vec<String>)
    ensures
        string_views(texts@).no_duplicates(),
        string_views(texts@).to_set() == nested_views(patterns@).map_values(
            |p: Seq<Seq<char>>| pattern_text(p),
        ).to_set(),
{
    let ghost all = nested_views(patterns@).map_values(|p: Seq<Seq<char>>| pattern_text(p));
    let mut texts: Vec<String> = Vec::new();
    let mut i: usize = 0;
    while i < patterns.len()
        invariant
            i <= patterns@.len(),
            all == nested_views(patterns@).map_values(|p: Seq<Seq<char>>| pattern_text(p)),
            string_views(texts@).no_duplicates(),
            string_views(texts@).to_set() == all.take(i as int).to_set(),
        decreases patterns@.len() - i,
    {
        let text = pattern_to_text(&patterns[i]);
        assert(all[i as int] == text@);
        let ghost before = string_views(texts@);
        if !contains_string(&texts, &text) {
            texts.push(text);
            assert(string_views(texts@) =~= before.push(all[i as int]));
            proof {
                before.lemma_push_to_set_commute(all[i as int]);
            }
        } else {
            assert(before.to_set().insert(all[i as int]) =~= before.to_set());
        }
        assert(all.take(i + 1) =~= all.take(i as int).push(all[i as int]));
        proof {
            all.take(i as int).lemma_push_to_set_commute(all[i as int]);
        }
        assert(string_views(texts@).to_set() =~= all.take(i + 1).to_set());
        i = i + 1;
    }
    assert(all.take(patterns@.len() as int) =~= all);
    texts
}

/// Compares two lists of keys.
pub fn diff_paths(old: &Vec<String>, new: &Vec<String>) -> (diff: SubscriptionDiff)
    ensures
        string_views(diff.new_subscribed@) == keys_gained(string_views(old@), string_views(new@)),
        string_views(diff.unsubscribed@) == keys_gained(string_views(new@), string_views(old@)),
{
    SubscriptionDiff {
        new_subscribed: keys_not_in(new, old),
        unsubscribed: keys_not_in(old, new),
    }
}

impl SubscriptionTracker {
    /// The shape the tree keeps.
    pub open spec fn wf(&self) -> bool {
        self.root_subscription.wf()
    }

    /// A tracker with an empty tree that listens on nothing.
    pub fn new() -> (tracker: SubscriptionTracker)
        ensures
            tracker.wf(),
            tracker.last_subscribed_paths@.len() == 0,
            tracker.root_subscription@.len() == 1,
            tracker.root_subscription@[0].clients == Set::<Seq<char>>::empty(),
            tracker.root_subscription@[0].children == Map::<Seq<char>, usize>::empty(),
    {
        SubscriptionTracker { last_subscribed_paths: Vec::new(), root_subscription: Subscription::new() }
    }

    /// Subscribes (or unsubscribes) the client `id` at each of `keypaths` inside
    /// the state `stream`, creating the nodes that are missing.
    pub fn set_subscribed(&mut self, subscribed: bool, keypaths: Vec<String>, stream: String, id: String)
        requires
            old(self).wf(),
        ensures
            final(self).wf(),
            final(self).root_subscription@ == subscription_steps(
                old(self).root_subscription@,
                stream@,
                string_views(keypaths@),
                id@,
                subscribed,
            ),
            final(self).last_subscribed_paths == old(self).last_subscribed_paths,
    {
        let ghost t = self.root_subscription@;
        let ghost keys = string_views(keypaths@);
        let mut k: usize = 0;
        while k < keypaths.len()
            invariant
                self.wf(),
                k <= keypaths@.len(),
                keys == string_views(keypaths@),
                self.root_subscription@ == subscription_steps(t, stream@, keys.take(k as int), id@, subscribed),
                self.last_subscribed_paths == old(self).last_subscribed_paths,
            decreases keypaths@.len() - k,
        {
            assert(keys.take(k + 1).drop_last() =~= keys.take(k as int));
            let ghost before = self.root_subscription@;
            let key = formatted_absolute_keypath(stream.clone(), keypaths[k].clone());
            let found = self.root_subscription.get_subscription(0, key.as_str(), true);
            match found {
                Some(n) => {
                    if subscribed {
                        self.root_subscription.add_client(n, id.clone());
                    } else {
                        self.root_subscription.remove_client(n, id.clone());
                    }
                },
                None => {},
            }
            assert(self.root_subscription@ == subscription_step(before, stream@, keys[k as int], id@, subscribed));
            k = k + 1;
        }
        assert(keys.take(keypaths@.len() as int) =~= keys);
    }

    /// Unsubscribes the client `id` everywhere.
    pub fn delete_client(&mut self, id: String)
        requires
            old(self).wf(),
        ensures
            final(self).wf(),
            final(self).root_subscription@ == without_client_below(old(self).root_subscription@, 0, id@),
            final(self).last_subscribed_paths == old(self).last_subscribed_paths,
    {
        self.root_subscription.remove_client_recursive(0, &id);
    }

    /// The clients a publication at `keypath` reaches: those subscribed at its
    /// node or above, once each, in ascending order. The node is created if missing.
    pub fn clients_for_keypath(&mut self, keypath: String) -> (clients: Vec<String>)
        requires
            old(self).wf(),
        ensures
            final(self).wf(),
            final(self).root_subscription@ == walk(
                old(self).root_subscription@,
                0,
                segments(keypath@),
                true,
            ).0,
            final(self).last_subscribed_paths == old(self).last_subscribed_paths,
            string_views(clients@).no_duplicates(),
            text_sorted(string_views(clients@)),
            string_views(clients@).to_set() == keypath_observers(old(self).root_subscription@, keypath@),
    {
        let found = self.root_subscription.get_subscription(0, keypath.as_str(), true);
        let mut observers: Vec<String> = match found {
            Some(n) => self.root_subscription.collect_observers(n),
            None => Vec::new(),
        };
        let ghost gathered = string_views(observers@);
        sort_strings(&mut observers);
        proof {
            let sorted = string_views(observers@);
            assert forall|x: Seq<char>| sorted.contains(x) <==> gathered.contains(x) by {
                vstd::seq_lib::to_multiset_contains(sorted, x);
                vstd::seq_lib::to_multiset_contains(gathered, x);
            }
            assert(sorted.to_set() =~= gathered.to_set());
        }
        dedup_sorted(&observers)
    }

    /// Every client subscribed at or below the node of `keypath`, with the
    /// keypath of its node relative to it; none when that node does not exist.
    pub fn clients_for_bubble_down(&mut self, keypath: String) -> (found: Vec<(String, Vec<String>)>)
        requires
            old(self).wf(),
        ensures
            final(self).wf(),
            final(self).root_subscription@ == old(self).root_subscription@,
            final(self).last_subscribed_paths == old(self).last_subscribed_paths,
            walk(old(self).root_subscription@, 0, segments(keypath@), false).1 matches Some(n)
                ==> exists|l: ListingView| #[trigger] listing_of(old(self).root_subscription@, l)
                && descendant_views(found@) == descendants_in(old(self).root_subscription@, l, n),
            walk(old(self).root_subscription@, 0, segments(keypath@), false).1 is None ==> found@.len() == 0,
    {
        let ghost t = self.root_subscription@;
        let node = self.root_subscription.get_subscription(0, keypath.as_str(), false);
        proof {
            crate::subscription::lemma_walk_without_create(t, 0, segments(keypath@));
        }
        match node {
            Some(n) => self.root_subscription.collect_descendants(n),
            None => Vec::new(),
        }
    }

    /// The broker patterns to listen on, each once.
    pub fn dump_keypaths(&self) -> (keys: Vec<String>)
        requires
            self.wf(),
        ensures
            exists|l: ListingView| #[trigger] listing_of(self.root_subscription@, l)
                && is_dump(self.root_subscription@, l, string_views(keys@)),
    {
        let mut patterns: Vec<Vec<String>> = Vec::new();
        let root: Vec<String> = Vec::new();
        let ghost empty = nested_views(patterns@);
        self.root_subscription.collect_pubsub_patterns(0, &mut patterns, root);
        let keys = unique_pattern_texts(&patterns);
        proof {
            assert(empty =~= Seq::<Seq<Seq<char>>>::empty());
            assert(string_views(root@) =~= Seq::<Seq<char>>::empty());
            let l = choose|l: ListingView| #[trigger] listing_of(self.root_subscription@, l)
                && nested_views(patterns@) == empty + patterns_in(
                self.root_subscription@,
                l,
                0,
                string_views(root@),
            ).0 && true;
            assert(nested_views(patterns@) =~= patterns_in(self.root_subscription@, l, 0, seq![]).0);
            assert(is_dump(self.root_subscription@, l, string_views(keys@)));
        }
        keys
    }

    /// The broker patterns gained and lost since the previous call; the
    /// patterns now listened on are remembered.
    pub fn diff_keypaths(&mut self) -> (diff: SubscriptionDiff)
        requires
            old(self).wf(),
        ensures
            final(self).wf(),
            final(self).root_subscription == old(self).root_subscription,
            exists|l: ListingView| #[trigger] listing_of(old(self).root_subscription@, l)
                && is_dump(old(self).root_subscription@, l, string_views(final(self).last_subscribed_paths@)),
            string_views(diff.new_subscribed@) == keys_gained(
                string_views(old(self).last_subscribed_paths@),
                string_views(final(self).last_subscribed_paths@),
            ),
            string_views(diff.unsubscribed@) == keys_gained(
                string_views(final(self).last_subscribed_paths@),
                string_views(old(self).last_subscribed_paths@),
            ),
    {
        let new_keypaths = self.dump_keypaths();
        let diff = diff_paths(&self.last_subscribed_paths, &new_keypaths);
        self.last_subscribed_paths = new_keypaths;
        diff
    }
}

/// The keys of `from` that are not in `other`, in their order.
fn keys_not_in(from: &Vec<String>, other: &Vec<String>) -> (kept: Vec<String>)
    ensures
        string_views(kept@) == keys_gained(string_views(other@), string_views(from@)),
{
    let ghost o = string_views(other@);
    let ghost f = string_views(from@);
    let mut kept: Vec<String> = Vec::new();
    let mut i: usize = 0;
    while i < from.len()
        invariant
            i <= from@.len(),
            o == string_views(other@),
            f == string_views(from@),
            string_views(kept@) == keys_gained(o, f.take(i as int)),
        decreases from@.len() - i,
    {
        assert(f.take(i + 1).drop_last() =~= f.take(i as int));
        let ghost before = string_views(kept@);
        if !contains_string(other, &from[i]) {
            kept.push(from[i].clone());
            assert(string_views(kept@) =~= before.push(f[i as int]));
        }
        proof {
            let g = |k: Seq<char>| !o.contains(k);
            assert(f.take(i + 1) =~= f.take(i as int).push(f[i as int]));
            reveal(Seq::filter);
            assert(f.take(i + 1).filter(g) == (if g(f[i as int]) {
                f.take(i as int).filter(g).push(f[i as int])
            } else {
                f.take(i as int).filter(g)
            }));
        }
        i = i + 1;
    }
    assert(f.take(from@.len() as int) =~= f);
    kept
}

} // verus!
