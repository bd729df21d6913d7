//! The subscription tree. Each node stands for a keypath: the root for the
//! empty one, and a child under segment `k` of the node for `p` for `p/k`.
//! A node holds the ids of the clients subscribed at exactly its keypath.
//! Nodes live in one vector and refer to each other by index; a child is
//! always created after its parent, so its index is the larger one.

use vstd::prelude::*;
use dashmap::DashSet;
use vstd::std_specs::vec::spec_vec_len;
use crate::dash::{ChildMap, member_set, child_map, member_set_new, child_map_new, member_insert, member_contains, member_remove, member_count, member_list, child_get, child_insert, child_list, is_listing, entry_views, string_views};
use vstd::string::StringExecFns;
use crate::keypath::{segments, keypath_segments, position_int, contains_string};

verus! {

/// One node of the tree.
pub struct SubscriptionNode {
    /// The ids of the clients subscribed at this node's keypath.
    pub clients: DashSet<String>,
    /// The children, by the segment that leads to each.
    pub nodes: ChildMap,
    /// The index of the parent; the root has none.
    pub parent: Option<usize>,
    /// The segment under which the parent holds this node.
    pub segment: String,
}

/// What a node holds, as mathematical values.
pub struct NodeView {
    pub segment: Seq<char>,
    pub parent: Option<usize>,
    pub clients: Set<Seq<char>>,
    pub children: Map<Seq<char>, usize>,
}

impl View for SubscriptionNode {
    type V = NodeView;

    open spec fn view(&self) -> NodeView {
        NodeView {
            segment: self.segment@,
            parent: self.parent,
            clients: member_set(self.clients),
            children: child_map(self.nodes),
        }
    }
}

/// The whole tree; node 0 is the root.
pub struct Subscription {
    nodes: Vec<SubscriptionNode>,
}

impl View for Subscription {
    type V = Seq<NodeView>;

    closed spec fn view(&self) -> Seq<NodeView> {
        self.nodes@.map_values(|n: SubscriptionNode| n@)
    }
}

/// Node `i` (not the root) has a smaller parent that holds it under its segment.
pub open spec fn parent_links(t: Seq<NodeView>, i: int) -> bool {
    match t[i].parent {
        Some(p) => {
            &&& p < i
            &&& t[p as int].children.contains_key(t[i].segment)
            &&& t[p as int].children[t[i].segment] == i
        },
        None => false,
    }
}

/// The child of node `i` under segment `k` is a later node whose parent is `i`
/// and whose segment is `k`.
pub open spec fn child_links(t: Seq<NodeView>, i: int, k: Seq<char>) -> bool {
    let c = t[i].children[k];
    &&& i < c < t.len()
    &&& t[c as int].parent == Some(i as usize)
    &&& t[c as int].segment == k
}

/// The shape every tree keeps: a root without parent, and parent and child
/// links that agree with each other.
pub open spec fn tree_wf(t: Seq<NodeView>) -> bool {
    &&& 1 <= t.len() <= usize::MAX
    &&& t[0].parent is None
    &&& forall|i: int| 0 < i < t.len() ==> #[trigger] parent_links(t, i)
    &&& forall|i: int, k: Seq<char>|
        0 <= i < t.len() && #[trigger] t[i].children.contains_key(k) ==> child_links(t, i, k)
}

/// The keypath of node `i`: the segments on the way down from the root.
pub open spec fn path(t: Seq<NodeView>, i: int) -> Seq<Seq<char>>
    decreases i,
{
    if 0 < i < t.len() {
        match t[i].parent {
            Some(p) => if p < i {
                path(t, p as int).push(t[i].segment)
            } else {
                seq![]
            },
            None => seq![],
        }
    } else {
        seq![]
    }
}

/// Node `j` lies in the subtree of node `a` (`a` itself included).
pub open spec fn in_subtree(t: Seq<NodeView>, j: int, a: int) -> bool
    decreases j,
{
    if j == a {
        true
    } else if 0 < j < t.len() {
        match t[j].parent {
            Some(p) => p < j && in_subtree(t, p as int, a),
            None => false,
        }
    } else {
        false
    }
}

/// The clients that observe node `i`: those subscribed at it or at any node above it.
pub open spec fn observers(t: Seq<NodeView>, i: int) -> Set<Seq<char>>
    decreases i,
{
    if 0 <= i < t.len() {
        match t[i].parent {
            Some(p) => if p < i {
                t[i].clients.union(observers(t, p as int))
            } else {
                t[i].clients
            },
            None => t[i].clients,
        }
    } else {
        Set::empty()
    }
}

/// A fresh node under segment `segment` of node `i`, with no clients and no children.
pub open spec fn fresh_node(i: int, segment: Seq<char>) -> NodeView {
    NodeView {
        segment: segment,
        parent: Some(i as usize),
        clients: Set::empty(),
        children: Map::empty(),
    }
}

/// The tree with a fresh node appended under segment `segment` of node `i`.
pub open spec fn add_child(t: Seq<NodeView>, i: int, segment: Seq<char>) -> Seq<NodeView> {
    let n = t.len() as usize;
    t.push(fresh_node(i, segment)).update(
        i,
        NodeView { children: t[i].children.insert(segment, n), ..t[i] },
    )
}

/// Walking down from node `i` along `segs`: the tree afterwards and the node
/// reached, if any. With `create`, missing nodes are added on the way.
pub open spec fn walk(t: Seq<NodeView>, i: int, segs: Seq<Seq<char>>, create: bool) -> (
    Seq<NodeView>,
    Option<int>,
)
    decreases segs.len(),
{
    if segs.len() == 0 {
        (t, Some(i))
    } else if 0 <= i < t.len() && t[i].children.contains_key(segs[0]) {
        walk(t, t[i].children[segs[0]] as int, segs.drop_first(), create)
    } else if create && 0 <= i < t.len() {
        walk(add_child(t, i, segs[0]), t.len() as int, segs.drop_first(), create)
    } else {
        (t, None)
    }
}

/// Two trees of the same nodes, linked the same way; only clients may differ.
pub open spec fn same_shape(t: Seq<NodeView>, u: Seq<NodeView>) -> bool {
    &&& t.len() == u.len()
    &&& forall|j: int| #![trigger u[j]] 0 <= j < t.len() ==> {
        &&& u[j].segment == t[j].segment
        &&& u[j].parent == t[j].parent
        &&& u[j].children == t[j].children
    }
}

/// The tree with the clients of node `i` replaced.
pub open spec fn with_clients(t: Seq<NodeView>, i: int, clients: Set<Seq<char>>) -> Seq<NodeView> {
    t.update(i, NodeView { clients: clients, ..t[i] })
}

/// The tree with `id` taken out of every node of the subtree of `a`.
pub open spec fn without_client_below(t: Seq<NodeView>, a: int, id: Seq<char>) -> Seq<NodeView> {
    Seq::new(
        t.len(),
        |j: int|
            if in_subtree(t, j, a) {
                NodeView { clients: t[j].clients.remove(id), ..t[j] }
            } else {
                t[j]
            },
    )
}

/// Every node of a subtree comes at or after the subtree's top.
pub proof fn lemma_subtree_after_top(t: Seq<NodeView>, j: int, a: int)
    requires
        in_subtree(t, j, a),
    ensures
        a <= j,
    decreases j,
{
    if j != a {
        if let Some(p) = t[j].parent {
            lemma_subtree_after_top(t, p as int, a);
        }
    }
}

/// Adding a child keeps the shape.
pub proof fn lemma_add_child_wf(t: Seq<NodeView>, i: int, segment: Seq<char>)
    requires
        tree_wf(t),
        0 <= i < t.len(),
        t.len() < usize::MAX,
        !t[i].children.contains_key(segment),
    ensures
        tree_wf(add_child(t, i, segment)),
        add_child(t, i, segment).len() == t.len() + 1,
{
    let u = add_child(t, i, segment);
    let n = t.len() as int;
    assert forall|j: int| 0 < j < u.len() implies #[trigger] parent_links(u, j) by {
        if j < n {
            assert(parent_links(t, j));
        }
    }
    assert forall|j: int, k: Seq<char>|
        0 <= j < u.len() && #[trigger] u[j].children.contains_key(k) implies child_links(u, j, k) by {
        if j == i && k == segment {
        } else {
            assert(child_links(t, j, k));
        }
    }
}

/// Changing the clients of one node keeps the shape, the keypaths and the subtrees.
pub proof fn lemma_with_clients_shape(t: Seq<NodeView>, i: int, clients: Set<Seq<char>>)
    requires
        tree_wf(t),
        0 <= i < t.len(),
    ensures
        tree_wf(with_clients(t, i, clients)),
        same_shape(t, with_clients(t, i, clients)),
{
    let u = with_clients(t, i, clients);
    assert forall|j: int| 0 < j < u.len() implies #[trigger] parent_links(u, j) by {
        assert(parent_links(t, j));
    }
    assert forall|j: int, k: Seq<char>|
        0 <= j < u.len() && #[trigger] u[j].children.contains_key(k) implies child_links(u, j, k) by {
        assert(child_links(t, j, k));
    }
}

/// One walk over every node's collections: for each node, its children in
/// the order met and its clients in the order met.
pub struct TreeListing {
    pub children: Vec<Vec<(String, usize)>>,
    pub clients: Vec<Vec<String>>,
}

/// A listing as mathematical values.
pub struct ListingView {
    pub children: Seq<Seq<(Seq<char>, usize)>>,
    pub clients: Seq<Seq<Seq<char>>>,
}

impl View for TreeListing {
    type V = ListingView;

    open spec fn view(&self) -> ListingView {
        ListingView {
            children: self.children@.map_values(|v: Vec<(String, usize)>| entry_views(v@)),
            clients: self.clients@.map_values(|v: Vec<String>| string_views(v@)),
        }
    }
}

/// `l` lists, for every node of `t`, each child once and each client once.
pub open spec fn listing_of(t: Seq<NodeView>, l: ListingView) -> bool {
    &&& l.children.len() == t.len()
    &&& l.clients.len() == t.len()
    &&& forall|i: int| 0 <= i < t.len() ==> #[trigger] is_listing(l.children[i], t[i].children)
    &&& forall|i: int| 0 <= i < t.len() ==> (#[trigger] l.clients[i]).no_duplicates()
        && l.clients[i].to_set() == t[i].clients
}

/// The clients met from node `i` upwards: the node's own, then those above it.
pub open spec fn observers_in(t: Seq<NodeView>, l: ListingView, i: int) -> Seq<Seq<char>>
    decreases i,
{
    if 0 <= i < t.len() {
        match t[i].parent {
            Some(p) => if p < i {
                l.clients[i] + observers_in(t, l, p as int)
            } else {
                l.clients[i]
            },
            None => l.clients[i],
        }
    } else {
        seq![]
    }
}

/// Each entry with `segment` put in front of its path.
pub open spec fn under_segment(s: Seq<(Seq<char>, Seq<Seq<char>>)>, segment: Seq<char>) -> Seq<
    (Seq<char>, Seq<Seq<char>>),
> {
    s.map_values(|e: (Seq<char>, Seq<Seq<char>>)| (e.0, seq![segment] + e.1))
}

/// Every client subscribed in the subtree of node `i`, with the keypath of its
/// node relative to `i`: the node's own clients first, then each child's in turn.
pub open spec fn descendants_in(t: Seq<NodeView>, l: ListingView, i: int) -> Seq<
    (Seq<char>, Seq<Seq<char>>),
>
    decreases t.len() - i, l.children[i].len() + 1,
{
    if 0 <= i < t.len() {
        l.clients[i].map_values(|c: Seq<char>| (c, Seq::<Seq<char>>::empty()))
            + descendants_of_children(t, l, i, 0)
    } else {
        seq![]
    }
}

/// The part of `descendants_in(t, l, i)` that comes from the children listed from position `k` on.
pub open spec fn descendants_of_children(t: Seq<NodeView>, l: ListingView, i: int, k: int) -> Seq<
    (Seq<char>, Seq<Seq<char>>),
>
    decreases t.len() - i, l.children[i].len() - k,
{
    if 0 <= i < t.len() && 0 <= k < l.children[i].len() {
        let (segment, c) = l.children[i][k];
        (if i < c < t.len() {
            under_segment(descendants_in(t, l, c as int), segment)
        } else {
            seq![]
        }) + descendants_of_children(t, l, i, k + 1)
    } else {
        seq![]
    }
}

/// The characters of each client id and path segment of a list of descendants.
pub open spec fn descendant_views(s: Seq<(String, Vec<String>)>) -> Seq<(Seq<char>, Seq<Seq<char>>)> {
    s.map_values(|e: (String, Vec<String>)| (e.0@, string_views(e.1@)))
}

/// The characters of each segment of each pattern of a list of patterns.
pub open spec fn nested_views(s: Seq<Vec<String>>) -> Seq<Seq<Seq<char>>> {
    s.map_values(|v: Vec<String>| string_views(v@))
}

/// The broker patterns gathered below node `i`, whose keypath is `root`, as
/// met in `l`, and whether any node of the subtree of `i` has clients. Every
/// child is searched. For each child met, its own patterns come first; then its
/// keypath alone, when it has no clients of its own, its keypath holds the
/// segment `keypath`, and either `i` has clients or a client was found below
/// the child; then its keypath followed by `*`, when it has clients.
pub open spec fn patterns_in(t: Seq<NodeView>, l: ListingView, i: int, root: Seq<Seq<char>>) -> (
    Seq<Seq<Seq<char>>>,
    bool,
)
    decreases t.len() - i, l.children[i].len() + 1,
{
    if 0 <= i < t.len() {
        let (found, below) = patterns_from(t, l, i, root, 0);
        (found, t[i].clients.len() > 0 || below)
    } else {
        (seq![], false)
    }
}

/// The part of `patterns_in` that comes from the children listed from position
/// `k` on, and whether a client was found below one of them.
pub open spec fn patterns_from(t: Seq<NodeView>, l: ListingView, i: int, root: Seq<Seq<char>>, k: int) -> (
    Seq<Seq<Seq<char>>>,
    bool,
)
    decreases t.len() - i, l.children[i].len() - k,
{
    if 0 <= i < t.len() && 0 <= k < l.children[i].len() {
        let (segment, c) = l.children[i][k];
        let sub = root.push(segment);
        let (inner, found) = if i < c < t.len() {
            patterns_in(t, l, c as int, sub)
        } else {
            (seq![], false)
        };
        let marked = if (t[i].clients.len() > 0 || found) && sub.contains("keypath"@)
            && t[c as int].clients.len() == 0 {
            seq![sub]
        } else {
            seq![]
        };
        let starred = if t[c as int].clients.len() > 0 {
            seq![sub.push("*"@)]
        } else {
            seq![]
        };
        let (rest, found_rest) = patterns_from(t, l, i, root, k + 1);
        (inner + marked + starred + rest, found || found_rest)
    } else {
        (seq![], false)
    }
}

/// The elements of two sequences put together are those of either.
pub proof fn lemma_concat_to_set<A>(a: Seq<A>, b: Seq<A>)
    ensures
        (a + b).to_set() == a.to_set().union(b.to_set()),
{
    assert forall|x: A| (a + b).contains(x) <==> a.contains(x) || b.contains(x) by {
        if (a + b).contains(x) {
            let k = choose|k: int| 0 <= k < (a + b).len() && (a + b)[k] == x;
            if k >= a.len() {
                assert(b[k - a.len()] == x);
            }
        }
        if a.contains(x) {
            let k = choose|k: int| 0 <= k < a.len() && a[k] == x;
            assert((a + b)[k] == x);
        }
        if b.contains(x) {
            let k = choose|k: int| 0 <= k < b.len() && b[k] == x;
            assert((a + b)[k + a.len()] == x);
        }
    }
    assert((a + b).to_set() =~= a.to_set().union(b.to_set()));
}

/// The clients met from a node upwards are exactly the node's observers.
pub proof fn lemma_observers_in_set(t: Seq<NodeView>, l: ListingView, i: int)
    requires
        tree_wf(t),
        listing_of(t, l),
        0 <= i < t.len(),
    ensures
        observers_in(t, l, i).to_set() == observers(t, i),
    decreases i,
{
    assert(l.clients[i].to_set() == t[i].clients);
    match t[i].parent {
        Some(p) => {
            if i > 0 {
                assert(parent_links(t, i));
            }
            lemma_observers_in_set(t, l, p as int);
            lemma_concat_to_set(l.clients[i], observers_in(t, l, p as int));
            assert(observers_in(t, l, i) == l.clients[i] + observers_in(t, l, p as int));
        },
        None => {},
    }
}

/// `u` keeps every node of `t` with its segment, parent and clients, and every
/// child link of `t`; the nodes `u` adds have no clients.
pub open spec fn extends(t: Seq<NodeView>, u: Seq<NodeView>) -> bool {
    &&& t.len() <= u.len()
    &&& forall|j: int| #![trigger u[j]] 0 <= j < t.len() ==> {
        &&& u[j].segment == t[j].segment
        &&& u[j].parent == t[j].parent
        &&& u[j].clients == t[j].clients
        &&& t[j].children.submap_of(u[j].children)
    }
    &&& forall|j: int| #![trigger u[j]] t.len() <= j < u.len() ==> u[j].clients == Set::<Seq<char>>::empty()
}

/// Extending is transitive.
pub proof fn lemma_extends_trans(t: Seq<NodeView>, u: Seq<NodeView>, v: Seq<NodeView>)
    requires
        extends(t, u),
        extends(u, v),
    ensures
        extends(t, v),
{
    assert forall|j: int| #![trigger v[j]] 0 <= j < t.len() implies {
        &&& v[j].segment == t[j].segment
        &&& v[j].parent == t[j].parent
        &&& v[j].clients == t[j].clients
        &&& t[j].children.submap_of(v[j].children)
    } by {
        assert(u[j].segment == t[j].segment);
        assert(v[j].segment == u[j].segment);
        assert forall|k: Seq<char>| #[trigger] t[j].children.contains_key(k) implies v[j].children.contains_key(k)
            && v[j].children[k] == t[j].children[k] by {
            assert(u[j].children.contains_key(k) && u[j].children[k] == t[j].children[k]);
        }
    }
    assert forall|j: int| #![trigger v[j]] t.len() <= j < v.len() implies v[j].clients == Set::<Seq<char>>::empty() by {
        if j < u.len() {
            assert(u[j].clients == Set::<Seq<char>>::empty());
            assert(v[j].clients == u[j].clients);
        }
    }
}

/// Walking with `create` from a node of a tree keeps the shape, only extends
/// the tree, and always reaches a node.
pub proof fn lemma_walk_create(t: Seq<NodeView>, i: int, segs: Seq<Seq<char>>)
    requires
        tree_wf(t),
        0 <= i < t.len(),
        t.len() + segs.len() <= usize::MAX,
    ensures
        tree_wf(walk(t, i, segs, true).0),
        extends(t, walk(t, i, segs, true).0),
        walk(t, i, segs, true).0.len() <= t.len() + segs.len(),
        walk(t, i, segs, true).1 matches Some(n) && 0 <= n < walk(t, i, segs, true).0.len(),
    decreases segs.len(),
{
    if segs.len() == 0 {
        assert(extends(t, t));
    } else if t[i].children.contains_key(segs[0]) {
        assert(child_links(t, i, segs[0]));
        lemma_walk_create(t, t[i].children[segs[0]] as int, segs.drop_first());
    } else {
        let t1 = add_child(t, i, segs[0]);
        lemma_add_child_wf(t, i, segs[0]);
        assert(extends(t, t1)) by {
            assert forall|j: int| #![trigger t1[j]] 0 <= j < t.len() implies t[j].children.submap_of(
                t1[j].children,
            ) by {
                if j == i {
                    assert(t[j].children.submap_of(t[j].children.insert(segs[0], t.len() as usize)));
                }
            }
        }
        lemma_walk_create(t1, t.len() as int, segs.drop_first());
        lemma_extends_trans(t, t1, walk(t1, t.len() as int, segs.drop_first(), true).0);
    }
}

/// Once a walk with `create` has reached a node, walking again along the same
/// segments reaches the same node and changes nothing, creating or not.
pub proof fn lemma_walk_idempotent(t: Seq<NodeView>, i: int, segs: Seq<Seq<char>>, create: bool)
    requires
        tree_wf(t),
        0 <= i < t.len(),
        t.len() + segs.len() <= usize::MAX,
    ensures
        walk(walk(t, i, segs, true).0, i, segs, create) == walk(t, i, segs, true),
    decreases segs.len(),
{
    lemma_walk_create(t, i, segs);
    let u = walk(t, i, segs, true).0;
    if segs.len() > 0 {
        if t[i].children.contains_key(segs[0]) {
            assert(child_links(t, i, segs[0]));
            let c = t[i].children[segs[0]] as int;
            lemma_walk_idempotent(t, c, segs.drop_first(), create);
            assert(t[i].children.submap_of(u[i].children));
            assert(t[i].children.contains_key(segs[0]) ==> u[i].children.contains_key(segs[0])
                && u[i].children[segs[0]] == t[i].children[segs[0]]);
            assert(u[i].children.contains_key(segs[0]) && u[i].children[segs[0]] == c);
        } else {
            let t1 = add_child(t, i, segs[0]);
            lemma_add_child_wf(t, i, segs[0]);
            lemma_walk_idempotent(t1, t.len() as int, segs.drop_first(), create);
            lemma_walk_create(t1, t.len() as int, segs.drop_first());
            assert(t1[i].children.contains_key(segs[0]));
            assert(u[i] == walk(t1, t.len() as int, segs.drop_first(), true).0[i]);
            assert(t1[i].children.submap_of(u[i].children));
            assert(t1[i].children[segs[0]] == t.len() as usize);
            assert(t1[i].children.contains_key(segs[0]) ==> u[i].children.contains_key(segs[0])
                && u[i].children[segs[0]] == t1[i].children[segs[0]]);
            assert(u[i].children[segs[0]] == t.len());
        }
    }
}

/// A walk that leaves a tree as it was behaves the same on a tree of the same shape.
pub proof fn lemma_walk_same_shape(
    u: Seq<NodeView>,
    v: Seq<NodeView>,
    i: int,
    segs: Seq<Seq<char>>,
    create: bool,
)
    requires
        same_shape(u, v),
        walk(u, i, segs, create).0 == u,
    ensures
        walk(v, i, segs, create) == (v, walk(u, i, segs, create).1),
    decreases segs.len(),
{
    if segs.len() > 0 && 0 <= i < u.len() {
        assert(v[i].children == u[i].children);
        if u[i].children.contains_key(segs[0]) {
            lemma_walk_same_shape(u, v, u[i].children[segs[0]] as int, segs.drop_first(), create);
        } else if create {
            lemma_walk_create_grows(add_child(u, i, segs[0]), u.len() as int, segs.drop_first());
        }
    }
}

/// A walk never removes nodes.
pub proof fn lemma_walk_create_grows(t: Seq<NodeView>, i: int, segs: Seq<Seq<char>>)
    ensures
        walk(t, i, segs, true).0.len() >= t.len(),
    decreases segs.len(),
{
    if segs.len() > 0 && 0 <= i < t.len() {
        if t[i].children.contains_key(segs[0]) {
            lemma_walk_create_grows(t, t[i].children[segs[0]] as int, segs.drop_first());
        } else {
            lemma_walk_create_grows(add_child(t, i, segs[0]), t.len() as int, segs.drop_first());
        }
    }
}

/// Walking along two lists of segments is walking along the first, then on
/// from where it ended along the second.
pub proof fn lemma_walk_concat(
    t: Seq<NodeView>,
    i: int,
    first: Seq<Seq<char>>,
    second: Seq<Seq<char>>,
    create: bool,
)
    ensures
        walk(t, i, first + second, create) == (match walk(t, i, first, create) {
            (u, Some(n)) => walk(u, n, second, create),
            (u, None) => (u, None),
        }),
    decreases first.len(),
{
    if first.len() == 0 {
        assert(first + second =~= second);
    } else {
        assert((first + second)[0] == first[0]);
        assert((first + second).drop_first() =~= first.drop_first() + second);
        if 0 <= i < t.len() && t[i].children.contains_key(first[0]) {
            lemma_walk_concat(t, t[i].children[first[0]] as int, first.drop_first(), second, create);
        } else if create && 0 <= i < t.len() {
            lemma_walk_concat(add_child(t, i, first[0]), t.len() as int, first.drop_first(), second, create);
        }
    }
}

/// The subtree relation is transitive.
pub proof fn lemma_subtree_trans(t: Seq<NodeView>, x: int, y: int, z: int)
    requires
        in_subtree(t, x, y),
        in_subtree(t, y, z),
    ensures
        in_subtree(t, x, z),
    decreases x,
{
    if x != y {
        if let Some(p) = t[x].parent {
            lemma_subtree_trans(t, p as int, y, z);
        }
    }
}

/// Extending a tree keeps the subtrees its nodes were in.
pub proof fn lemma_extends_subtree(t: Seq<NodeView>, u: Seq<NodeView>, x: int, y: int)
    requires
        extends(t, u),
        0 <= x < t.len(),
        in_subtree(t, x, y),
    ensures
        in_subtree(u, x, y),
    decreases x,
{
    if x != y {
        assert(u[x].parent == t[x].parent);
        if let Some(p) = t[x].parent {
            lemma_extends_subtree(t, u, p as int, y);
        }
    }
}

/// The node a walk with `create` reaches lies in the subtree of the node it started from.
pub proof fn lemma_walk_create_below(t: Seq<NodeView>, i: int, segs: Seq<Seq<char>>)
    requires
        tree_wf(t),
        0 <= i < t.len(),
        t.len() + segs.len() <= usize::MAX,
    ensures
        in_subtree(walk(t, i, segs, true).0, walk(t, i, segs, true).1.unwrap(), i),
    decreases segs.len(),
{
    lemma_walk_create(t, i, segs);
    if segs.len() > 0 {
        let u = walk(t, i, segs, true).0;
        let n = walk(t, i, segs, true).1.unwrap();
        if t[i].children.contains_key(segs[0]) {
            let c = t[i].children[segs[0]] as int;
            assert(child_links(t, i, segs[0]));
            lemma_walk_create_below(t, c, segs.drop_first());
            assert(in_subtree(t, i, i));
            assert(in_subtree(t, c, i));
            lemma_extends_subtree(t, u, c, i);
            lemma_subtree_trans(u, n, c, i);
        } else {
            let t1 = add_child(t, i, segs[0]);
            let c = t.len() as int;
            lemma_add_child_wf(t, i, segs[0]);
            lemma_walk_create_below(t1, c, segs.drop_first());
            lemma_walk_create(t1, c, segs.drop_first());
            assert(in_subtree(t1, i, i));
            assert(t1[c].parent == Some(i as usize));
            assert(in_subtree(t1, c, i));
            lemma_extends_subtree(t1, u, c, i);
            lemma_subtree_trans(u, n, c, i);
        }
    }
}

/// A client subscribed at a node observes every node of its subtree.
pub proof fn lemma_subscriber_observes_subtree(t: Seq<NodeView>, a: int, j: int, id: Seq<char>)
    requires
        tree_wf(t),
        0 <= a < t.len(),
        0 <= j < t.len(),
        in_subtree(t, j, a),
        t[a].clients.contains(id),
    ensures
        observers(t, j).contains(id),
    decreases j,
{
    if j != a {
        assert(parent_links(t, j));
        let p = t[j].parent.unwrap();
        lemma_subscriber_observes_subtree(t, a, p as int, id);
    }
}

/// Every node lies in the subtree of the root.
pub proof fn lemma_all_below_root(t: Seq<NodeView>, j: int)
    requires
        tree_wf(t),
        0 <= j < t.len(),
    ensures
        in_subtree(t, j, 0),
    decreases j,
{
    if j != 0 {
        assert(parent_links(t, j));
        lemma_all_below_root(t, t[j].parent.unwrap() as int);
    }
}

/// When no node holds `id`, no node observes it.
pub proof fn lemma_unheld_unobserved(t: Seq<NodeView>, j: int, id: Seq<char>)
    requires
        forall|x: int| 0 <= x < t.len() ==> !(#[trigger] t[x].clients).contains(id),
    ensures
        !observers(t, j).contains(id),
    decreases j,
{
    if 0 <= j < t.len() {
        assert(!t[j].clients.contains(id));
        if let Some(p) = t[j].parent {
            if p < j {
                lemma_unheld_unobserved(t, p as int, id);
            }
        }
    }
}

/// A tree of the same shape as a well-formed tree is well formed.
pub proof fn lemma_same_shape_wf(t: Seq<NodeView>, u: Seq<NodeView>)
    requires
        tree_wf(t),
        same_shape(t, u),
    ensures
        tree_wf(u),
{
    assert(u[0].parent == t[0].parent);
    assert forall|j: int| 0 < j < u.len() implies #[trigger] parent_links(u, j) by {
        assert(parent_links(t, j));
        assert(u[j].parent == t[j].parent);
        let p = t[j].parent.unwrap() as int;
        assert(u[p].children == t[p].children);
    }
    assert forall|j: int, k: Seq<char>|
        0 <= j < u.len() && #[trigger] u[j].children.contains_key(k) implies child_links(u, j, k) by {
        assert(u[j].children == t[j].children);
        assert(child_links(t, j, k));
        let c = t[j].children[k] as int;
        assert(u[c].parent == t[c].parent);
    }
}

/// Some node of the subtree of `i` has clients.
pub open spec fn subtree_has_clients(t: Seq<NodeView>, i: int) -> bool {
    exists|j: int| 0 <= j < t.len() && in_subtree(t, j, i) && #[trigger] t[j].clients.len() > 0
}

/// A node below `a` lies in the subtree of one of `a`'s children.
pub proof fn lemma_below_child(t: Seq<NodeView>, j: int, a: int)
    requires
        tree_wf(t),
        0 <= a < t.len(),
        0 <= j < t.len(),
        j != a,
        in_subtree(t, j, a),
    ensures
        exists|k: Seq<char>| #[trigger] t[a].children.contains_key(k) && in_subtree(t, j, t[a].children[k] as int),
    decreases j,
{
    assert(parent_links(t, j));
    let p = t[j].parent.unwrap() as int;
    if p == a {
        assert(t[a].children.contains_key(t[j].segment));
    } else {
        lemma_below_child(t, p, a);
        let k = choose|k: Seq<char>| #[trigger] t[a].children.contains_key(k) && in_subtree(t, p, t[a].children[k] as int);
        assert(t[a].children.contains_key(k) && in_subtree(t, j, t[a].children[k] as int));
    }
}

/// Whether a client was found below `i` does not depend on the order met: it
/// is whether some node of the subtree of `i` has clients.
pub proof fn lemma_patterns_found(t: Seq<NodeView>, l: ListingView, i: int, root: Seq<Seq<char>>)
    requires
        tree_wf(t),
        listing_of(t, l),
        0 <= i < t.len(),
    ensures
        patterns_in(t, l, i, root).1 == subtree_has_clients(t, i),
    decreases t.len() - i, l.children[i].len() + 1,
{
    let entries = l.children[i];
    assert(is_listing(entries, t[i].children));
    lemma_patterns_from_found(t, l, i, root, 0);
    if t[i].clients.len() > 0 {
        assert(in_subtree(t, i, i));
    }
    if exists|m: int| 0 <= m < entries.len() && subtree_has_clients(t, #[trigger] entries[m].1 as int) {
        let m = choose|m: int| 0 <= m < entries.len() && subtree_has_clients(t, #[trigger] entries[m].1 as int);
        let c = entries[m].1 as int;
        assert(t[i].children.contains_key(entries[m].0));
        assert(child_links(t, i, entries[m].0));
        let j = choose|j: int| 0 <= j < t.len() && in_subtree(t, j, c) && #[trigger] t[j].clients.len() > 0;
        assert(in_subtree(t, i, i));
        assert(in_subtree(t, c, i));
        lemma_subtree_trans(t, j, c, i);
    }
    if subtree_has_clients(t, i) && t[i].clients.len() == 0 {
        let j = choose|j: int| 0 <= j < t.len() && in_subtree(t, j, i) && #[trigger] t[j].clients.len() > 0;
        lemma_below_child(t, j, i);
        let k = choose|k: Seq<char>| #[trigger] t[i].children.contains_key(k) && in_subtree(t, j, t[i].children[k] as int);
        let m = choose|m: int| 0 <= m < entries.len() && entries[m].0 == k;
        assert(entries[m].1 == t[i].children[k]);
        assert(subtree_has_clients(t, entries[m].1 as int));
    }
}

/// Whether a client was found below the children from position `k` on: some
/// of those children has clients in its subtree.
pub proof fn lemma_patterns_from_found(t: Seq<NodeView>, l: ListingView, i: int, root: Seq<Seq<char>>, k: int)
    requires
        tree_wf(t),
        listing_of(t, l),
        0 <= i < t.len(),
        0 <= k <= l.children[i].len(),
    ensures
        patterns_from(t, l, i, root, k).1 == exists|m: int|
            k <= m < l.children[i].len() && subtree_has_clients(t, #[trigger] l.children[i][m].1 as int),
    decreases t.len() - i, l.children[i].len() - k,
{
    let entries = l.children[i];
    if k < entries.len() {
        assert(is_listing(entries, t[i].children));
        let (segment, c) = entries[k];
        assert(t[i].children.contains_key(entries[k].0));
        assert(child_links(t, i, segment));
        let sub = root.push(segment);
        lemma_patterns_found(t, l, c as int, sub);
        lemma_patterns_from_found(t, l, i, root, k + 1);
        if exists|m: int| k <= m < entries.len() && subtree_has_clients(t, #[trigger] entries[m].1 as int) {
            let m = choose|m: int| k <= m < entries.len() && subtree_has_clients(t, #[trigger] entries[m].1 as int);
            if m > k {
                assert(k + 1 <= m < entries.len() && subtree_has_clients(t, entries[m].1 as int));
            }
        }
    }
}

/// The broker pattern that node `j` gives when its keypath relative to where
/// the search started is `p`, and the keypath there is `root`: `root + p`
/// followed by `*` when `j` has clients; `root + p` alone when `j` has none,
/// `root + p` holds the segment `keypath`, and the parent of `j` has clients or
/// some node of the subtree of `j` has.
pub open spec fn node_pattern(
    t: Seq<NodeView>,
    j: int,
    root: Seq<Seq<char>>,
    p: Seq<Seq<char>>,
    x: Seq<Seq<char>>,
) -> bool {
    ||| t[j].clients.len() > 0 && x == (root + p).push("*"@)
    ||| t[j].clients.len() == 0 && (root + p).contains("keypath"@) && (t[t[j].parent.unwrap() as int].clients.len()
        > 0 || subtree_has_clients(t, j)) && x == root + p
}

/// The elements of two sequences put together are those of either.
pub proof fn lemma_concat_contains<A>(a: Seq<A>, b: Seq<A>)
    ensures
        forall|x: A| #[trigger] (a + b).contains(x) <==> a.contains(x) || b.contains(x),
{
    assert forall|x: A| #[trigger] (a + b).contains(x) <==> a.contains(x) || b.contains(x) by {
        if (a + b).contains(x) {
            let k = choose|k: int| 0 <= k < (a + b).len() && (a + b)[k] == x;
            if k >= a.len() {
                assert(b[k - a.len()] == x);
            }
        }
        if a.contains(x) {
            let k = choose|k: int| 0 <= k < a.len() && a[k] == x;
            assert((a + b)[k] == x);
        }
        if b.contains(x) {
            let k = choose|k: int| 0 <= k < b.len() && b[k] == x;
            assert((a + b)[k + a.len()] == x);
        }
    }
}

/// Equal sequences after a common prefix are equal.
pub proof fn lemma_cancel_prefix<A>(a: Seq<A>, p: Seq<A>, q: Seq<A>)
    requires
        a + p == a + q,
    ensures
        p == q,
{
    assert((a + p).len() == (a + q).len());
    assert((a + p).len() == a.len() + p.len());
    assert((a + q).len() == a.len() + q.len());
    assert(p.len() == q.len());
    assert forall|x: int| 0 <= x < p.len() implies p[x] == q[x] by {
        assert((a + p)[a.len() + x] == p[x]);
        assert((a + q)[a.len() + x] == q[x]);
    }
    assert(p =~= q);
}

/// The broker patterns gathered below node `i` are exactly the patterns of the
/// nodes strictly below `i`, whatever the order met: each node gives its
/// keypath followed by `*` when it has clients, and its keypath alone when it
/// has none, that keypath holds the segment `keypath`, and its parent has
/// clients or a client is subscribed below it (see `node_pattern`).
pub proof fn law_patterns_exact(t: Seq<NodeView>, l: ListingView, i: int, root: Seq<Seq<char>>)
    requires
        tree_wf(t),
        listing_of(t, l),
        0 <= i < t.len(),
    ensures
        forall|x: Seq<Seq<char>>| #[trigger] patterns_in(t, l, i, root).0.contains(x) <==> exists|j: int, p: Seq<Seq<char>>|
            0 <= j < t.len() && j != i && in_subtree(t, j, i) && path(t, j) == path(t, i) + p
                && #[trigger] node_pattern(t, j, root, p, x),
    decreases t.len() - i, l.children[i].len() + 1,
{
    let entries = l.children[i];
    assert(is_listing(entries, t[i].children));
    lemma_patterns_from_exact(t, l, i, root, 0);
    assert(patterns_in(t, l, i, root).0 == patterns_from(t, l, i, root, 0).0);
    assert forall|x: Seq<Seq<char>>| #[trigger] patterns_in(t, l, i, root).0.contains(x) <==> exists|j: int, p: Seq<Seq<char>>|
        0 <= j < t.len() && j != i && in_subtree(t, j, i) && path(t, j) == path(t, i) + p
            && #[trigger] node_pattern(t, j, root, p, x) by {
        if patterns_in(t, l, i, root).0.contains(x) {
            let (m, j, p) = choose|m: int, j: int, p: Seq<Seq<char>>| 0 <= m < entries.len() && 0 <= j < t.len()
                && #[trigger] in_subtree(t, j, entries[m].1 as int) && path(t, j) == path(t, i) + p
                && #[trigger] node_pattern(t, j, root, p, x);
            let key = entries[m].0;
            assert(t[i].children.contains_key(key));
            lemma_child_below(t, i, key);
            let c = entries[m].1 as int;
            assert(child_links(t, i, key));
            lemma_subtree_trans(t, j, c, i);
            lemma_subtree_after_top(t, j, c);
        }
        if exists|j: int, p: Seq<Seq<char>>| 0 <= j < t.len() && j != i && in_subtree(t, j, i) && path(t, j) == path(t, i)
            + p && #[trigger] node_pattern(t, j, root, p, x) {
            let (j, p) = choose|j: int, p: Seq<Seq<char>>| 0 <= j < t.len() && j != i && in_subtree(t, j, i) && path(t, j)
                == path(t, i) + p && #[trigger] node_pattern(t, j, root, p, x);
            lemma_below_child(t, j, i);
            let key = choose|key: Seq<char>| #[trigger] t[i].children.contains_key(key) && in_subtree(t, j, t[i].children[key] as int);
            let m = choose|m: int| 0 <= m < entries.len() && entries[m].0 == key;
            assert(entries[m].1 == t[i].children[key]);
            assert(0 <= m < entries.len() && 0 <= j < t.len() && in_subtree(t, j, entries[m].1 as int)
                && path(t, j) == path(t, i) + p && node_pattern(t, j, root, p, x));
        }
    }
}

/// The patterns gathered below the children of `i` from position `k` on are
/// exactly the patterns of the nodes in those children's subtrees.
pub proof fn lemma_patterns_from_exact(t: Seq<NodeView>, l: ListingView, i: int, root: Seq<Seq<char>>, k: int)
    requires
        tree_wf(t),
        listing_of(t, l),
        0 <= i < t.len(),
        0 <= k <= l.children[i].len(),
    ensures
        forall|x: Seq<Seq<char>>| #[trigger] patterns_from(t, l, i, root, k).0.contains(x) <==> exists|
            m: int,
            j: int,
            p: Seq<Seq<char>>,
        |
            k <= m < l.children[i].len() && 0 <= j < t.len() && #[trigger] in_subtree(t, j, l.children[i][m].1 as int)
                && path(t, j) == path(t, i) + p && #[trigger] node_pattern(t, j, root, p, x),
    decreases t.len() - i, l.children[i].len() - k,
{
    let entries = l.children[i];
    assert(is_listing(entries, t[i].children));
    if k < entries.len() {
        let (segment, ch) = entries[k];
        assert(t[i].children.contains_key(entries[k].0));
        lemma_child_below(t, i, segment);
        assert(child_links(t, i, segment));
        let c = ch as int;
        let sub = root.push(segment);
        law_patterns_exact(t, l, c, sub);
        lemma_patterns_found(t, l, c, sub);
        lemma_patterns_from_exact(t, l, i, root, k + 1);
        let (inner, found) = patterns_in(t, l, c, sub);
        let marked = if (t[i].clients.len() > 0 || found) && sub.contains("keypath"@) && t[c].clients.len() == 0 {
            seq![sub]
        } else {
            Seq::<Seq<Seq<char>>>::empty()
        };
        let starred = if t[c].clients.len() > 0 {
            seq![sub.push("*"@)]
        } else {
            Seq::<Seq<Seq<char>>>::empty()
        };
        let rest = patterns_from(t, l, i, root, k + 1).0;
        assert(patterns_from(t, l, i, root, k).0 == inner + marked + starred + rest);
        lemma_concat_contains(inner, marked);
        lemma_concat_contains(inner + marked, starred);
        lemma_concat_contains(inner + marked + starred, rest);
        let one = seq![segment];
        assert(path(t, c) == path(t, i) + one);
        assert(sub == root + one);
        assert(t[c].parent == Some(i as usize));
        assert(in_subtree(t, c, c));
        assert forall|x: Seq<Seq<char>>| #[trigger] patterns_from(t, l, i, root, k).0.contains(x) <==> exists|
            m: int,
            j: int,
            p: Seq<Seq<char>>,
        |
            k <= m < entries.len() && 0 <= j < t.len() && #[trigger] in_subtree(t, j, entries[m].1 as int)
                && path(t, j) == path(t, i) + p && #[trigger] node_pattern(t, j, root, p, x) by {
            if patterns_from(t, l, i, root, k).0.contains(x) {
                if inner.contains(x) {
                    let (j, q) = choose|j: int, q: Seq<Seq<char>>| 0 <= j < t.len() && j != c && in_subtree(t, j, c)
                        && path(t, j) == path(t, c) + q && #[trigger] node_pattern(t, j, sub, q, x);
                    let p = one + q;
                    assert(path(t, j) =~= path(t, i) + p);
                    assert(sub + q =~= root + p);
                    assert(node_pattern(t, j, root, p, x));
                    assert(in_subtree(t, j, entries[k].1 as int));
                } else if marked.contains(x) || starred.contains(x) {
                    assert(node_pattern(t, c, root, one, x));
                    assert(in_subtree(t, c, entries[k].1 as int));
                } else {
                    assert(rest.contains(x));
                }
            }
            if exists|m: int, j: int, p: Seq<Seq<char>>| k <= m < entries.len() && 0 <= j < t.len()
                && #[trigger] in_subtree(t, j, entries[m].1 as int) && path(t, j) == path(t, i) + p
                && #[trigger] node_pattern(t, j, root, p, x) {
                let (m, j, p) = choose|m: int, j: int, p: Seq<Seq<char>>| k <= m < entries.len() && 0 <= j < t.len()
                    && #[trigger] in_subtree(t, j, entries[m].1 as int) && path(t, j) == path(t, i) + p
                    && #[trigger] node_pattern(t, j, root, p, x);
                if m == k {
                    if j == c {
                        lemma_cancel_prefix(path(t, i), p, one);
                        if t[c].clients.len() > 0 {
                            assert(starred[0] == x);
                            assert(starred.contains(x));
                        } else {
                            assert(marked[0] == x);
                            assert(marked.contains(x));
                        }
                    } else {
                        lemma_subtree_path(t, j, c);
                        let q = choose|q: Seq<Seq<char>>| path(t, j) == path(t, c) + q;
                        assert(path(t, i) + p =~= path(t, i) + (one + q));
                        lemma_cancel_prefix(path(t, i), p, one + q);
                        assert(sub + q =~= root + p);
                        assert(node_pattern(t, j, sub, q, x));
                        assert(inner.contains(x));
                    }
                } else {
                    assert(k + 1 <= m < entries.len() && 0 <= j < t.len() && in_subtree(t, j, entries[m].1 as int)
                        && path(t, j) == path(t, i) + p && node_pattern(t, j, root, p, x));
                    assert(rest.contains(x));
                }
            }
        }
    }
}

/// Every subscribed keypath is listened on: for every node other than the root
/// that has clients, the patterns gathered from the root hold its keypath
/// followed by `*`, whatever the order met.
pub proof fn law_every_subscribed_keypath_listened(t: Seq<NodeView>, l: ListingView, j: int)
    requires
        tree_wf(t),
        listing_of(t, l),
        0 < j < t.len(),
        t[j].clients.len() > 0,
    ensures
        patterns_in(t, l, 0, seq![]).0.contains(path(t, j).push("*"@)),
{
    law_patterns_exact(t, l, 0, seq![]);
    lemma_all_below_root(t, j);
    let root = Seq::<Seq<char>>::empty();
    assert(path(t, 0) == root);
    assert(path(t, j) == path(t, 0) + path(t, j));
    assert(root + path(t, j) == path(t, j));
    assert(node_pattern(t, j, root, path(t, j), path(t, j).push("*"@)));
}

/// The set of broker patterns gathered below a node does not depend on the
/// order in which the collections were met.
pub proof fn law_patterns_order_free(
    t: Seq<NodeView>,
    l1: ListingView,
    l2: ListingView,
    i: int,
    root: Seq<Seq<char>>,
)
    requires
        tree_wf(t),
        listing_of(t, l1),
        listing_of(t, l2),
        0 <= i < t.len(),
    ensures
        patterns_in(t, l1, i, root).0.to_set() == patterns_in(t, l2, i, root).0.to_set(),
        patterns_in(t, l1, i, root).1 == patterns_in(t, l2, i, root).1,
{
    law_patterns_exact(t, l1, i, root);
    law_patterns_exact(t, l2, i, root);
    lemma_patterns_found(t, l1, i, root);
    lemma_patterns_found(t, l2, i, root);
    assert(patterns_in(t, l1, i, root).0.to_set() =~= patterns_in(t, l2, i, root).0.to_set());
}

/// Extending a tree keeps the keypaths of its nodes.
pub proof fn lemma_extends_path(t: Seq<NodeView>, u: Seq<NodeView>, x: int)
    requires
        extends(t, u),
        0 <= x < t.len(),
    ensures
        path(u, x) == path(t, x),
    decreases x,
{
    if x > 0 {
        assert(u[x].parent == t[x].parent && u[x].segment == t[x].segment);
        if let Some(p) = t[x].parent {
            if p < x {
                lemma_extends_path(t, u, p as int);
            }
        }
    }
}

/// Trees of the same shape give their nodes the same keypaths.
pub proof fn lemma_same_shape_path(t: Seq<NodeView>, u: Seq<NodeView>, x: int)
    requires
        same_shape(t, u),
    ensures
        path(u, x) == path(t, x),
    decreases x,
{
    if 0 < x < t.len() {
        assert(u[x].parent == t[x].parent && u[x].segment == t[x].segment);
        if let Some(p) = t[x].parent {
            if p < x {
                lemma_same_shape_path(t, u, p as int);
            }
        }
    }
}

/// The node a walk with `create` reaches has the keypath of its start
/// followed by the segments walked.
pub proof fn lemma_walk_path(t: Seq<NodeView>, i: int, segs: Seq<Seq<char>>)
    requires
        tree_wf(t),
        0 <= i < t.len(),
        t.len() + segs.len() <= usize::MAX,
    ensures
        path(walk(t, i, segs, true).0, walk(t, i, segs, true).1.unwrap()) == path(t, i) + segs,
    decreases segs.len(),
{
    if segs.len() == 0 {
        assert(path(t, i) + segs =~= path(t, i));
    } else {
        assert(path(t, i) + segs =~= path(t, i).push(segs[0]) + segs.drop_first());
        if t[i].children.contains_key(segs[0]) {
            lemma_child_below(t, i, segs[0]);
            assert(child_links(t, i, segs[0]));
            lemma_walk_path(t, t[i].children[segs[0]] as int, segs.drop_first());
        } else {
            let t1 = add_child(t, i, segs[0]);
            let c = t.len() as int;
            lemma_add_child_wf(t, i, segs[0]);
            assert(extends(t, t1)) by {
                assert forall|j: int| #![trigger t1[j]] 0 <= j < t.len() implies t[j].children.submap_of(
                    t1[j].children,
                ) by {
                    if j == i {
                        assert(t[j].children.submap_of(t[j].children.insert(segs[0], t.len() as usize)));
                    }
                }
            }
            lemma_extends_path(t, t1, i);
            assert(t1[c].parent == Some(i as usize));
            assert(path(t1, c) == path(t1, i).push(segs[0]));
            lemma_walk_path(t1, c, segs.drop_first());
        }
    }
}

/// Two nodes of a tree with the same keypath are the same node.
pub proof fn lemma_path_injective(t: Seq<NodeView>, a: int, b: int)
    requires
        tree_wf(t),
        0 <= a < t.len(),
        0 <= b < t.len(),
        path(t, a) == path(t, b),
    ensures
        a == b,
    decreases path(t, a).len(),
{
    if a > 0 {
        assert(parent_links(t, a));
    }
    if b > 0 {
        assert(parent_links(t, b));
    }
    if a > 0 && b > 0 {
        let pa = t[a].parent.unwrap() as int;
        let pb = t[b].parent.unwrap() as int;
        assert(path(t, pa) == path(t, a).drop_last());
        assert(path(t, pb) == path(t, b).drop_last());
        lemma_path_injective(t, pa, pb);
        assert(t[a].segment == path(t, a).last());
        assert(t[b].segment == path(t, b).last());
    }
}

/// Taking a client out below a node touches that node's subtree only: every
/// node keeps its place, links and keypath; a node of the subtree loses the
/// client and keeps its other clients; every other node keeps all its clients.
pub proof fn law_removal_stays_below(t: Seq<NodeView>, a: int, id: Seq<char>)
    requires
        tree_wf(t),
        0 <= a < t.len(),
    ensures
        same_shape(t, without_client_below(t, a, id)),
        tree_wf(without_client_below(t, a, id)),
        forall|j: int| 0 <= j < t.len() ==> #[trigger] path(without_client_below(t, a, id), j) == path(t, j),
        forall|j: int| 0 <= j < t.len() && in_subtree(t, j, a) ==> !(#[trigger] without_client_below(t, a, id)[j]).clients.contains(id)
            && forall|c: Seq<char>| c != id ==> (without_client_below(t, a, id)[j].clients.contains(c) == t[j].clients.contains(c)),
        forall|j: int| 0 <= j < t.len() && !in_subtree(t, j, a) ==> (#[trigger] without_client_below(t, a, id)[j]).clients
            == t[j].clients,
        forall|j: int| 0 <= j < t.len() && !(exists|s: Seq<Seq<char>>| path(t, j) == path(t, a) + s)
            ==> (#[trigger] without_client_below(t, a, id)[j]).clients == t[j].clients,
        forall|j: int| 0 <= j < a ==> (#[trigger] without_client_below(t, a, id)[j]).clients == t[j].clients,
{
    let u = without_client_below(t, a, id);
    assert forall|j: int| 0 <= j < t.len() && in_subtree(t, j, a) implies exists|s: Seq<Seq<char>>| path(t, j) == path(t, a)
        + s by {
        lemma_subtree_path(t, j, a);
    }
    assert forall|j: int| 0 <= j < a implies !in_subtree(t, j, a) by {
        if in_subtree(t, j, a) {
            lemma_subtree_after_top(t, j, a);
        }
    }
    assert(same_shape(t, u));
    lemma_same_shape_wf(t, u);
    assert forall|j: int| 0 <= j < t.len() implies #[trigger] path(u, j) == path(t, j) by {
        lemma_same_shape_path(t, u, j);
    }
}

/// The keypath of a node in the subtree of `a` extends the keypath of `a`.
pub proof fn lemma_subtree_path(t: Seq<NodeView>, j: int, a: int)
    requires
        tree_wf(t),
        0 <= j < t.len(),
        in_subtree(t, j, a),
    ensures
        exists|s: Seq<Seq<char>>| path(t, j) == path(t, a) + s,
    decreases j,
{
    if j == a {
        assert(path(t, j) == path(t, a) + Seq::<Seq<char>>::empty());
    } else {
        assert(parent_links(t, j));
        let p = t[j].parent.unwrap() as int;
        lemma_subtree_path(t, p, a);
        let s = choose|s: Seq<Seq<char>>| path(t, p) == path(t, a) + s;
        assert(path(t, j) == path(t, a) + s.push(t[j].segment));
    }
}

/// A node is in its own subtree, and so is each of its children.
pub proof fn lemma_child_below(t: Seq<NodeView>, i: int, k: Seq<char>)
    requires
        tree_wf(t),
        0 <= i < t.len(),
        t[i].children.contains_key(k),
    ensures
        in_subtree(t, t[i].children[k] as int, i),
        path(t, t[i].children[k] as int) == path(t, i).push(k),
{
    assert(child_links(t, i, k));
    assert(in_subtree(t, i, i));
}

/// The clients listed below node `i`, with their relative keypaths, are
/// exactly the clients subscribed at the nodes of its subtree, each with the
/// keypath of its node relative to `i`.
pub proof fn law_descendants_are_subscribers_below(t: Seq<NodeView>, l: ListingView, i: int)
    requires
        tree_wf(t),
        listing_of(t, l),
        0 <= i < t.len(),
    ensures
        forall|c: Seq<char>, p: Seq<Seq<char>>| #[trigger] descendants_in(t, l, i).contains((c, p)) <==> exists|j: int|
            0 <= j < t.len() && in_subtree(t, j, i) && t[j].clients.contains(c) && path(t, j) == path(t, i) + p,
    decreases t.len() - i, l.children[i].len() + 1,
{
    let own = l.clients[i].map_values(|c: Seq<char>| (c, Seq::<Seq<char>>::empty()));
    let rest = descendants_of_children(t, l, i, 0);
    assert(descendants_in(t, l, i) == own + rest);
    assert(l.clients[i].to_set() == t[i].clients);
    lemma_children_part(t, l, i, 0);
    assert forall|c: Seq<char>, p: Seq<Seq<char>>| #[trigger] descendants_in(t, l, i).contains((c, p)) <==> exists|j: int|
        0 <= j < t.len() && in_subtree(t, j, i) && t[j].clients.contains(c) && path(t, j) == path(t, i) + p by {
        if descendants_in(t, l, i).contains((c, p)) {
            let q = choose|q: int| 0 <= q < (own + rest).len() && (own + rest)[q] == (c, p);
            if q < own.len() {
                assert(l.clients[i][q] == c);
                assert(l.clients[i].to_set().contains(c));
                assert(in_subtree(t, i, i));
                assert(path(t, i) == path(t, i) + p);
            } else {
                assert(rest[q - own.len()] == (c, p));
                assert(rest.contains((c, p)));
                let (m, j) = choose|m: int, j: int| 0 <= m < l.children[i].len() && 0 <= j < t.len()
                    && #[trigger] in_subtree(t, j, l.children[i][m].1 as int) && t[j].clients.contains(c)
                    && path(t, j) == path(t, i) + p;
                let key = l.children[i][m].0;
                assert(is_listing(l.children[i], t[i].children));
                assert(t[i].children.contains_key(key));
                lemma_child_below(t, i, key);
                lemma_subtree_trans(t, j, l.children[i][m].1 as int, i);
            }
        }
        if exists|j: int| 0 <= j < t.len() && in_subtree(t, j, i) && t[j].clients.contains(c) && path(t, j) == path(t, i) + p {
            let j = choose|j: int| 0 <= j < t.len() && in_subtree(t, j, i) && t[j].clients.contains(c) && path(t, j) == path(t, i) + p;
            if j == i {
                assert(p =~= Seq::<Seq<char>>::empty()) by {
                    assert((path(t, i) + p).len() == path(t, i).len());
                }
                assert(l.clients[i].to_set().contains(c));
                let q = choose|q: int| 0 <= q < l.clients[i].len() && l.clients[i][q] == c;
                assert((own + rest)[q] == (c, p));
            } else {
                assert(rest.contains((c, p)));
                let q = choose|q: int| 0 <= q < rest.len() && rest[q] == (c, p);
                assert((own + rest)[own.len() + q] == (c, p));
            }
        }
    }
}

/// The part of the listing below the children from position `k` on holds a
/// pair exactly when some node below one of those children holds the client,
/// the keypath being relative to `i`.
pub proof fn lemma_children_part(t: Seq<NodeView>, l: ListingView, i: int, k: int)
    requires
        tree_wf(t),
        listing_of(t, l),
        0 <= i < t.len(),
        0 <= k <= l.children[i].len(),
    ensures
        forall|c: Seq<char>, p: Seq<Seq<char>>| #[trigger] descendants_of_children(t, l, i, k).contains((c, p)) <==> exists|
            m: int,
            j: int,
        |
            k <= m < l.children[i].len() && 0 <= j < t.len() && #[trigger] in_subtree(t, j, l.children[i][m].1 as int)
                && t[j].clients.contains(c) && path(t, j) == path(t, i) + p,
        forall|j: int| 0 <= j < t.len() && j != i && in_subtree(t, j, i) ==> exists|m: int| 0 <= m < l.children[i].len()
            && in_subtree(t, j, #[trigger] l.children[i][m].1 as int),
    decreases t.len() - i, l.children[i].len() - k,
{
    let entries = l.children[i];
    assert(is_listing(entries, t[i].children));
    assert forall|j: int| 0 <= j < t.len() && j != i && in_subtree(t, j, i) implies exists|m: int| 0 <= m < entries.len()
        && in_subtree(t, j, #[trigger] entries[m].1 as int) by {
        lemma_below_child(t, j, i);
        let key = choose|key: Seq<char>| #[trigger] t[i].children.contains_key(key) && in_subtree(t, j, t[i].children[key] as int);
        let m = choose|m: int| 0 <= m < entries.len() && entries[m].0 == key;
        assert(entries[m].1 == t[i].children[key]);
    }
    if k < entries.len() {
        let (segment, ch) = entries[k];
        assert(t[i].children.contains_key(entries[k].0));
        lemma_child_below(t, i, segment);
        let child = ch as int;
        law_descendants_are_subscribers_below(t, l, child);
        lemma_children_part(t, l, i, k + 1);
        let below = under_segment(descendants_in(t, l, child), segment);
        let later = descendants_of_children(t, l, i, k + 1);
        assert(descendants_of_children(t, l, i, k) == below + later);
        assert forall|c: Seq<char>, p: Seq<Seq<char>>| #[trigger] descendants_of_children(t, l, i, k).contains((c, p)) <==> exists|
            m: int,
            j: int,
        |
            k <= m < entries.len() && 0 <= j < t.len() && #[trigger] in_subtree(t, j, entries[m].1 as int)
                && t[j].clients.contains(c) && path(t, j) == path(t, i) + p by {
            if (below + later).contains((c, p)) {
                let q = choose|q: int| 0 <= q < (below + later).len() && (below + later)[q] == (c, p);
                if q < below.len() {
                    let e = descendants_in(t, l, child)[q];
                    assert(below[q] == (e.0, seq![segment] + e.1));
                    assert(descendants_in(t, l, child).contains(e));
                    let j = choose|j: int| 0 <= j < t.len() && in_subtree(t, j, child) && t[j].clients.contains(e.0)
                        && path(t, j) == path(t, child) + e.1;
                    assert(path(t, j) =~= path(t, i) + p);
                    assert(k <= k < entries.len() && in_subtree(t, j, entries[k].1 as int));
                } else {
                    assert(later[q - below.len()] == (c, p));
                    assert(later.contains((c, p)));
                }
            }
            if exists|m: int, j: int| k <= m < entries.len() && 0 <= j < t.len() && #[trigger] in_subtree(t, j, entries[m].1 as int)
                && t[j].clients.contains(c) && path(t, j) == path(t, i) + p {
                let (m, j) = choose|m: int, j: int| k <= m < entries.len() && 0 <= j < t.len() && #[trigger] in_subtree(t, j, entries[m].1 as int) && t[j].clients.contains(c) && path(t, j) == path(t, i) + p;
                if m == k {
                    lemma_subtree_path(t, j, child);
                    let s2 = choose|s2: Seq<Seq<char>>| path(t, j) == path(t, child) + s2;
                    assert(path(t, i) + p =~= path(t, i) + (seq![segment] + s2));
                    assert(p =~= seq![segment] + s2) by {
                        assert forall|x: int| 0 <= x < p.len() implies p[x] == (seq![segment] + s2)[x] by {
                            assert((path(t, i) + p)[path(t, i).len() + x] == (path(t, i) + (seq![segment] + s2))[path(t, i).len() + x]);
                        }
                    }
                    assert(descendants_in(t, l, child).contains((c, s2)));
                    let q = choose|q: int| 0 <= q < descendants_in(t, l, child).len() && descendants_in(t, l, child)[q] == (c, s2);
                    assert(below[q] == (c, p));
                    assert((below + later)[q] == (c, p));
                } else {
                    assert(later.contains((c, p)));
                    let q = choose|q: int| 0 <= q < later.len() && later[q] == (c, p);
                    assert((below + later)[below.len() + q] == (c, p));
                }
            }
        }
    }
}

/// Walking without creating leaves the tree as it was.
pub proof fn lemma_walk_without_create(t: Seq<NodeView>, i: int, segs: Seq<Seq<char>>)
    ensures
        walk(t, i, segs, false).0 == t,
    decreases segs.len(),
{
    if segs.len() > 0 && 0 <= i < t.len() && t[i].children.contains_key(segs[0]) {
        lemma_walk_without_create(t, t[i].children[segs[0]] as int, segs.drop_first());
    }
}

/// Trees of the same shape have the same subtrees.
pub proof fn lemma_same_shape_subtree(t: Seq<NodeView>, u: Seq<NodeView>, j: int, a: int)
    requires
        same_shape(t, u),
    ensures
        in_subtree(t, j, a) == in_subtree(u, j, a),
    decreases j,
{
    if j != a && 0 < j < t.len() {
        assert(u[j].parent == t[j].parent);
        if let Some(p) = t[j].parent {
            if p < j {
                lemma_same_shape_subtree(t, u, p as int, a);
            }
        }
    }
}

/// A node is in the subtree of `a` exactly when walking up from it reaches `a`.
pub proof fn lemma_subtree_step(t: Seq<NodeView>, j: int, a: int)
    requires
        tree_wf(t),
        0 < j < t.len(),
        j != a,
    ensures
        t[j].parent matches Some(p) && p < j && in_subtree(t, j, a) == in_subtree(t, p as int, a),
{
    assert(parent_links(t, j));
}

impl SubscriptionNode {
    /// A node with no clients and no children.
    pub fn fresh(parent: Option<usize>, segment: String) -> (node: SubscriptionNode)
        ensures
            node@ == (NodeView {
                segment: segment@,
                parent: parent,
                clients: Set::empty(),
                children: Map::empty(),
            }),
    {
        let node = SubscriptionNode {
            clients: member_set_new(),
            nodes: child_map_new(),
            parent: parent,
            segment: segment,
        };
        assert(node@.children =~= Map::<Seq<char>, usize>::empty());
        node
    }
}

impl Subscription {
    /// The shape every tree keeps.
    pub open spec fn wf(&self) -> bool {
        tree_wf(self@)
    }

    /// A node that belongs to no tree yet: no clients, no children, no parent.
    pub fn new_unwrapped() -> (node: SubscriptionNode)
        ensures
            node@.parent is None,
            node@.clients == Set::<Seq<char>>::empty(),
            node@.children == Map::<Seq<char>, usize>::empty(),
            node@.segment == Seq::<char>::empty(),
    {
        SubscriptionNode::fresh(None, String::new())
    }

    /// A tree holding only its root.
    pub fn new() -> (tree: Subscription)
        ensures
            tree.wf(),
            tree@.len() == 1,
            tree@[0].clients == Set::<Seq<char>>::empty(),
            tree@[0].children == Map::<Seq<char>, usize>::empty(),
    {
        let mut nodes: Vec<SubscriptionNode> = Vec::new();
        nodes.push(Subscription::new_unwrapped());
        let tree = Subscription { nodes };
        assert(tree@.len() == 1);
        tree
    }

    /// Walks every node's children and clients once.
    pub fn listing(&self) -> (listing: TreeListing)
        requires
            self.wf(),
        ensures
            listing_of(self@, listing@),
    {
        let mut children: Vec<Vec<(String, usize)>> = Vec::new();
        let mut clients: Vec<Vec<String>> = Vec::new();
        let mut i: usize = 0;
        while i < self.nodes.len()
            invariant
                i <= self@.len(),
                children@.len() == i,
                clients@.len() == i,
                forall|j: int| 0 <= j < i ==> #[trigger] is_listing(
                    entry_views(children@[j]@),
                    self@[j].children,
                ),
                forall|j: int| 0 <= j < i ==> string_views((#[trigger] clients@[j])@).no_duplicates()
                    && string_views(clients@[j]@).to_set() == self@[j].clients,
            decreases self@.len() - i,
        {
            children.push(child_list(&self.nodes[i].nodes));
            clients.push(member_list(&self.nodes[i].clients));
            i = i + 1;
        }
        let listing = TreeListing { children, clients };
        proof {
            let l = listing@;
            assert forall|j: int| 0 <= j < self@.len() implies #[trigger] is_listing(l.children[j], self@[j].children) by {
                assert(l.children[j] == entry_views(children@[j]@));
            }
            assert forall|j: int| 0 <= j < self@.len() implies (#[trigger] l.clients[j]).no_duplicates()
                && l.clients[j].to_set() == self@[j].clients by {
                assert(l.clients[j] == string_views(clients@[j]@));
            }
        }
        listing
    }

    /// The clients that observe node `at`, as met in `listing`: those of `at`,
    /// then those of its parent, and so on up to the root.
    pub fn collect_observers_in(&self, listing: &TreeListing, at: usize) -> (found: Vec<String>)
        requires
            self.wf(),
            listing_of(self@, listing@),
            at < self@.len(),
        ensures
            string_views(found@) == observers_in(self@, listing@, at as int),
        decreases at,
    {
        let mut found = listing.clients[at].clone();
        assert(string_views(found@) =~= listing@.clients[at as int]);
        match self.nodes[at].parent {
            Some(p) => {
                proof {
                    if at > 0 {
                        assert(parent_links(self@, at as int));
                    }
                }
                let mut above = self.collect_observers_in(listing, p);
                let ghost mine = string_views(found@);
                found.append(&mut above);
                assert(string_views(found@) =~= mine + observers_in(self@, listing@, p as int));
            },
            None => {},
        }
        found
    }

    /// Every client subscribed in the subtree of node `at`, with the keypath of
    /// its node relative to `at`, as met in `listing`.
    pub fn collect_descendants_in(&self, listing: &TreeListing, at: usize) -> (found: Vec<(String, Vec<String>)>)
        requires
            self.wf(),
            listing_of(self@, listing@),
            at < self@.len(),
        ensures
            descendant_views(found@) == descendants_in(self@, listing@, at as int),
        decreases self@.len() - at,
    {
        let ghost t = self@;
        let ghost l = listing@;
        let mut found: Vec<(String, Vec<String>)> = Vec::new();
        let own = &listing.clients[at];
        let mut j: usize = 0;
        while j < own.len()
            invariant
                j <= own@.len(),
                own@.len() == l.clients[at as int].len(),
                string_views(own@) == l.clients[at as int],
                descendant_views(found@) =~= l.clients[at as int].take(j as int).map_values(
                    |c: Seq<char>| (c, Seq::<Seq<char>>::empty()),
                ),
            decreases own@.len() - j,
        {
            let empty: Vec<String> = Vec::new();
            let ghost before = found@;
            let id = own[j].clone();
            found.push((id, empty));
            proof {
                assert(string_views(empty@) =~= Seq::<Seq<char>>::empty());
                assert(found@ == before.push((id, empty)));
                assert(descendant_views(found@) =~= descendant_views(before).push((id@, Seq::<Seq<char>>::empty())));
                assert(id@ == l.clients[at as int][j as int]);
                assert(l.clients[at as int].take(j + 1) =~= l.clients[at as int].take(j as int).push(
                    own@[j as int]@,
                ));
            }
            j = j + 1;
        }
        assert(l.clients[at as int].take(own@.len() as int) =~= l.clients[at as int]);
        let entries = &listing.children[at];
        assert(is_listing(l.children[at as int], t[at as int].children));
        let mut k: usize = 0;
        while k < entries.len()
            invariant
                self@ == t,
                listing@ == l,
                tree_wf(t),
                listing_of(t, l),
                at < t.len(),
                k <= entries@.len(),
                entry_views(entries@) == l.children[at as int],
                is_listing(l.children[at as int], t[at as int].children),
                descendant_views(found@) + descendants_of_children(t, l, at as int, k as int)
                    == descendants_in(t, l, at as int),
            decreases entries@.len() - k,
        {
            let segment = &entries[k].0;
            let c = entries[k].1;
            proof {
                assert(l.children[at as int][k as int] == (segment@, c));
                assert(t[at as int].children.contains_key(l.children[at as int][k as int].0));
                assert(child_links(t, at as int, segment@));
            }
            let below = self.collect_descendants_in(listing, c);
            let ghost before = descendant_views(found@);
            let mut m: usize = 0;
            while m < below.len()
                invariant
                    m <= below@.len(),
                    descendant_views(found@) == before + under_segment(
                        descendant_views(below@),
                        segment@,
                    ).take(m as int),
                decreases below@.len() - m,
            {
                let mut path = below[m].1.clone();
                path.insert(0, segment.clone());
                let id = below[m].0.clone();
                let ghost found_before = found@;
                proof {
                    assert(string_views(path@) =~= seq![segment@] + string_views(below@[m as int].1@));
                    assert(under_segment(descendant_views(below@), segment@).take(m + 1) =~= under_segment(
                        descendant_views(below@),
                        segment@,
                    ).take(m as int).push((below@[m as int].0@, string_views(path@))));
                }
                found.push((id, path));
                proof {
                    assert(found@ == found_before.push((id, path)));
                    assert(descendant_views(found@) =~= descendant_views(found_before).push((id@, string_views(path@))));
                    assert(descendant_views(found@) =~= before + under_segment(
                        descendant_views(below@),
                        segment@,
                    ).take(m + 1));
                }
                m = m + 1;
            }
            proof {
                let u = under_segment(descendant_views(below@), segment@);
                assert(u.take(below@.len() as int) =~= u);
                assert(descendants_of_children(t, l, at as int, k as int) == u + descendants_of_children(
                    t,
                    l,
                    at as int,
                    k + 1,
                ));
                assert(descendant_views(found@) + descendants_of_children(t, l, at as int, k + 1)
                    =~= before + descendants_of_children(t, l, at as int, k as int));
            }
            k = k + 1;
        }
        assert(descendants_of_children(t, l, at as int, k as int) =~= seq![]);
        assert(descendant_views(found@) =~= descendant_views(found@) + descendants_of_children(t, l, at as int, k as int));
        found
    }

    /// Gathers into `into` the broker patterns below node `at`, whose keypath is
    /// `root`, as met in `listing`; tells whether a client was found.
    pub fn collect_pubsub_patterns_in(
        &self,
        listing: &TreeListing,
        at: usize,
        into: &mut Vec<Vec<String>>,
        root: Vec<String>,
    ) -> (had_any: bool)
        requires
            self.wf(),
            listing_of(self@, listing@),
            at < self@.len(),
        ensures
            nested_views(final(into)@) == nested_views(old(into)@) + patterns_in(
                self@,
                listing@,
                at as int,
                string_views(root@),
            ).0,
            had_any == patterns_in(self@, listing@, at as int, string_views(root@)).1,
        decreases self@.len() - at,
    {
        let ghost t = self@;
        let ghost l = listing@;
        let ghost r = string_views(root@);
        let ghost start = nested_views(into@);
        let keypath_token = String::from_str("keypath");
        let own = member_count(&self.nodes[at].clients) > 0;
        let mut had_any = own;
        let entries = &listing.children[at];
        assert(is_listing(l.children[at as int], t[at as int].children));
        assert(nested_views(into@) + seq![] =~= nested_views(into@));
        let mut k: usize = 0;
        while k < entries.len()
            invariant
                self@ == t,
                listing@ == l,
                tree_wf(t),
                listing_of(t, l),
                at < t.len(),
                k <= entries@.len(),
                entry_views(entries@) == l.children[at as int],
                is_listing(l.children[at as int], t[at as int].children),
                r == string_views(root@),
                keypath_token@ == "keypath"@,
                own == (t[at as int].clients.len() > 0),
                nested_views(into@) + patterns_from(t, l, at as int, r, k as int).0 == start
                    + patterns_in(t, l, at as int, r).0,
                (had_any || patterns_from(t, l, at as int, r, k as int).1) == patterns_in(t, l, at as int, r).1,
            decreases entries@.len() - k,
        {
            let segment = &entries[k].0;
            let c = entries[k].1;
            proof {
                assert(l.children[at as int][k as int] == (segment@, c));
                assert(t[at as int].children.contains_key(l.children[at as int][k as int].0));
                assert(child_links(t, at as int, segment@));
            }
            let ghost into0 = nested_views(into@);
            let mut subroot = root.clone();
            subroot.push(segment.clone());
            assert(string_views(subroot@) =~= r.push(segment@));
            let found = self.collect_pubsub_patterns_in(listing, c, into, subroot.clone());
            had_any = had_any || found;
            let ghost into1 = nested_views(into@);
            let child_clients = member_count(&self.nodes[c].clients);
            if (own || found) && contains_string(&subroot, &keypath_token) && child_clients == 0 {
                let ghost b = into@;
                into.push(subroot.clone());
                assert(nested_views(into@) =~= nested_views(b).push(r.push(segment@)));
            }
            let ghost into2 = nested_views(into@);
            if child_clients > 0 {
                let mut starred = subroot;
                starred.push(String::from_str("*"));
                let ghost b = into@;
                assert(string_views(starred@) =~= r.push(segment@).push("*"@));
                into.push(starred);
                assert(nested_views(into@) =~= nested_views(b).push(r.push(segment@).push("*"@)));
            }
            proof {
                let sub = r.push(segment@);
                let step = patterns_from(t, l, at as int, r, k as int);
                let inner = patterns_in(t, l, c as int, sub).0;
                assert(into1 =~= into0 + inner);
                let marked = if (own || found) && sub.contains("keypath"@) && t[c as int].clients.len() == 0 {
                    seq![sub]
                } else {
                    Seq::<Seq<Seq<char>>>::empty()
                };
                let starred = if t[c as int].clients.len() > 0 {
                    seq![sub.push("*"@)]
                } else {
                    Seq::<Seq<Seq<char>>>::empty()
                };
                assert(into2 =~= into1 + marked);
                assert(nested_views(into@) =~= into2 + starred);
                let rest = patterns_from(t, l, at as int, r, k + 1);
                assert(step.0 == inner + marked + starred + rest.0);
                assert(nested_views(into@) + rest.0 =~= into0 + step.0);
            }
            k = k + 1;
        }
        had_any
    }

    /// The clients that observe node `at`: those subscribed at it, then those at
    /// its parent, and so on up to the root, each node's in the order in which
    /// its set is walked.
    pub fn collect_observers(&self, at: usize) -> (found: Vec<String>)
        requires
            self.wf(),
            at < self@.len(),
        ensures
            exists|l: ListingView| #[trigger] listing_of(self@, l)
                && string_views(found@) == observers_in(self@, l, at as int),
            string_views(found@).to_set() == observers(self@, at as int),
    {
        let listing = self.listing();
        let found = self.collect_observers_in(&listing, at);
        proof {
            lemma_observers_in_set(self@, listing@, at as int);
            assert(listing_of(self@, listing@));
        }
        found
    }

    /// Every client subscribed in the subtree of node `at`, with the keypath of
    /// its node relative to `at`; each node's clients and children in the order
    /// in which its collections are walked.
    pub fn collect_descendants(&self, at: usize) -> (found: Vec<(String, Vec<String>)>)
        requires
            self.wf(),
            at < self@.len(),
        ensures
            exists|l: ListingView| #[trigger] listing_of(self@, l)
                && descendant_views(found@) == descendants_in(self@, l, at as int),
    {
        let listing = self.listing();
        let found = self.collect_descendants_in(&listing, at);
        assert(listing_of(self@, listing@));
        found
    }

    /// Gathers into `into` the broker patterns below node `at`, whose keypath is
    /// `root`; each node's children in the order in which its map is walked.
    /// Tells whether a client was found.
    pub fn collect_pubsub_patterns(&self, at: usize, into: &mut Vec<Vec<String>>, root: Vec<String>) -> (had_any: bool)
        requires
            self.wf(),
            at < self@.len(),
        ensures
            exists|l: ListingView| #[trigger] listing_of(self@, l)
                && nested_views(final(into)@) == nested_views(old(into)@) + patterns_in(
                self@,
                l,
                at as int,
                string_views(root@),
            ).0 && had_any == patterns_in(self@, l, at as int, string_views(root@)).1,
    {
        let listing = self.listing();
        let had_any = self.collect_pubsub_patterns_in(&listing, at, into, root);
        assert(listing_of(self@, listing@));
        had_any
    }

    /// The number of nodes.
    pub fn node_count(&self) -> (n: usize)
        ensures
            n == self@.len(),
    {
        self.nodes.len()
    }

    /// Subscribes `client` at node `at`.
    pub fn add_client(&mut self, at: usize, client: String)
        requires
            old(self).wf(),
            at < old(self)@.len(),
        ensures
            final(self).wf(),
            final(self)@ == with_clients(old(self)@, at as int, old(self)@[at as int].clients.insert(client@)),
    {
        let ghost t = self@;
        let ghost before = self.nodes@;
        let node = &mut self.nodes[at];
        if !member_contains(&node.clients, &client) {
            member_insert(&mut node.clients, client);
        }
        proof {
            assert(self.nodes@.len() == before.len());
            assert(forall|j: int| 0 <= j < before.len() && j != at ==> self.nodes@[j] == before[j]);
            assert(self.nodes@[at as int]@.clients == t[at as int].clients.insert(client@));
            assert(self@ =~= with_clients(t, at as int, t[at as int].clients.insert(client@)));
            lemma_with_clients_shape(t, at as int, t[at as int].clients.insert(client@));
        }
    }

    /// Unsubscribes `client` at node `at`.
    pub fn remove_client(&mut self, at: usize, client: String)
        requires
            old(self).wf(),
            at < old(self)@.len(),
        ensures
            final(self).wf(),
            final(self)@ == with_clients(old(self)@, at as int, old(self)@[at as int].clients.remove(client@)),
    {
        let ghost t = self@;
        let ghost before = self.nodes@;
        let node = &mut self.nodes[at];
        member_remove(&mut node.clients, &client);
        proof {
            assert(forall|j: int| 0 <= j < before.len() && j != at ==> self.nodes@[j] == before[j]);
            assert(self@ =~= with_clients(t, at as int, t[at as int].clients.remove(client@)));
            lemma_with_clients_shape(t, at as int, t[at as int].clients.remove(client@));
        }
    }

    /// Whether node `j` lies in the subtree of node `a`.
    pub fn descends_from(&self, j: usize, a: usize) -> (below: bool)
        requires
            self.wf(),
            j < self@.len(),
        ensures
            below == in_subtree(self@, j as int, a as int),
    {
        let mut k = j;
        while k > a
            invariant
                self.wf(),
                k <= j < self@.len(),
                in_subtree(self@, j as int, a as int) == in_subtree(self@, k as int, a as int),
            decreases k,
        {
            proof {
                lemma_subtree_step(self@, k as int, a as int);
            }
            match self.nodes[k].parent {
                Some(p) => {
                    k = p;
                },
                None => {
                    return false;
                },
            }
        }
        proof {
            if k < a && in_subtree(self@, k as int, a as int) {
                lemma_subtree_after_top(self@, k as int, a as int);
            }
        }
        k == a
    }

    /// Unsubscribes `client` at node `at` and at every node below it.
    pub fn remove_client_recursive(&mut self, at: usize, client: &String)
        requires
            old(self).wf(),
            at < old(self)@.len(),
        ensures
            final(self).wf(),
            final(self)@ == without_client_below(old(self)@, at as int, client@),
            same_shape(old(self)@, final(self)@),
            forall|x: int| 0 <= x < old(self)@.len() ==> #[trigger] final(self)@[x].clients == (if in_subtree(
                old(self)@,
                x,
                at as int,
            ) {
                old(self)@[x].clients.remove(client@)
            } else {
                old(self)@[x].clients
            }),
    {
        let ghost t = self@;
        let len = self.nodes.len();
        let mut j = at;
        while j < len
            invariant
                tree_wf(self@),
                same_shape(t, self@),
                len == self@.len(),
                at <= j <= len,
                forall|x: int| 0 <= x < len ==> #[trigger] self@[x].clients == (if at <= x < j && in_subtree(
                    t,
                    x,
                    at as int,
                ) {
                    t[x].clients.remove(client@)
                } else {
                    t[x].clients
                }),
            decreases len - j,
        {
            let below = self.descends_from(j, at);
            proof {
                lemma_same_shape_subtree(t, self@, j as int, at as int);
            }
            if below {
                let ghost u = self@;
                let ghost before = self.nodes@;
                let node = &mut self.nodes[j];
                member_remove(&mut node.clients, client);
                proof {
                    assert(forall|x: int| 0 <= x < before.len() && x != j ==> self.nodes@[x] == before[x]);
                    assert(self@ =~= with_clients(u, j as int, u[j as int].clients.remove(client@)));
                    lemma_with_clients_shape(u, j as int, u[j as int].clients.remove(client@));
                }
            }
            j = j + 1;
        }
        proof {
            assert forall|x: int| 0 <= x < at implies !in_subtree(t, x, at as int) by {
                if in_subtree(t, x, at as int) {
                    lemma_subtree_after_top(t, x, at as int);
                }
            }
            let w = without_client_below(t, at as int, client@);
            assert forall|x: int| 0 <= x < len implies self@[x] == w[x] by {
                assert(self@[x].clients == w[x].clients);
            }
            assert(self@ =~= w);
        }
    }

    /// The node reached from node `at` along the segments of `keypath`. With
    /// `create`, missing nodes are added on the way and a node is always reached;
    /// without it, the tree is left as it was and no node is reached where one is missing.
    pub fn get_subscription(&mut self, at: usize, keypath: &str, create: bool) -> (found: Option<usize>)
        requires
            old(self).wf(),
            at < old(self)@.len(),
        ensures
            final(self).wf(),
            (final(self)@, position_int(found)) == walk(old(self)@, at as int, segments(keypath@), create),
            create ==> found is Some,
            found matches Some(n) ==> n < final(self)@.len(),
    {
        let ghost t = self@;
        let segs = keypath_segments(keypath);
        let ghost s = segments(keypath@);
        let mut cur = at;
        let mut k: usize = 0;
        assert(s.skip(0) =~= s);
        while k < segs.len()
            invariant
                t == old(self)@,
                s == segments(keypath@),
                tree_wf(self@),
                cur < self@.len(),
                k <= segs@.len(),
                segs@.len() == s.len(),
                forall|x: int| 0 <= x < s.len() ==> #[trigger] segs@[x]@ == s[x],
                walk(t, at as int, s, create) == walk(self@, cur as int, s.skip(k as int), create),
            decreases segs.len() - k,
        {
            let ghost rest = s.skip(k as int);
            assert(rest[0] == s[k as int]);
            assert(rest.drop_first() =~= s.skip(k + 1));
            let child = child_get(&self.nodes[cur].nodes, &segs[k]);
            match child {
                Some(c) => {
                    proof {
                        assert(child_links(self@, cur as int, s[k as int]));
                    }
                    cur = c;
                },
                None => {
                    if create {
                        let ghost u = self@;
                        let n = self.nodes.len();
                        let node = SubscriptionNode::fresh(Some(cur), segs[k].clone());
                        self.nodes.push(node);
                        proof {
                            assert(self.nodes@.len() == spec_vec_len(&self.nodes));
                        }
                        let ghost pushed = self.nodes@;
                        let parent = &mut self.nodes[cur];
                        child_insert(&mut parent.nodes, segs[k].clone(), n);
                        proof {
                            assert(forall|x: int| 0 <= x < pushed.len() && x != cur ==> self.nodes@[x] == pushed[x]);
                            assert(self@ =~= add_child(u, cur as int, s[k as int]));
                            lemma_add_child_wf(u, cur as int, s[k as int]);
                        }
                        cur = n;
                    } else {
                        proof {
                            assert(!self@[cur as int].children.contains_key(rest[0]));
                            assert(walk(self@, cur as int, rest, create) == (self@, None::<int>));
                        }
                        return None;
                    }
                },
            }
            k = k + 1;
        }
        proof {
            assert(s.skip(k as int).len() == 0);
        }
        Some(cur)
    }
}

} // verus!
