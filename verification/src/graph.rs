//! Directed and undirected graphs over hashed node keys.
//!
//! A `GraphMap` keeps its nodes and its edges in insertion-ordered hash sets,
//! with the adjacency lists and the edge weights in vectors beside them, so
//! that an edge is found in constant time on average and the whole graph
//! takes space linear in the number of nodes and edges.

use crate::graph::edge::{Directed, Direction, Edge, EdgeIndex, EdgeType, Undirected};
use crate::graph::node::{Node, NodeIndex};
use crate::ordered_set::{
    edge_set_get_index, edge_set_get_index_of, edge_set_insert_full, edge_set_items, edge_set_len,
    edge_set_with_capacity, pair_set_get_index, pair_set_get_index_of, pair_set_insert_full,
    pair_set_items, pair_set_len, pair_set_with_capacity, PREALLOCATION_LIMIT,
};
use crate::sequences::{
    lemma_push_contains, lemma_push_index_of, lemma_with_item_contains, with_item,
};
use indexmap::IndexSet;
use std::marker::PhantomData;
use vstd::prelude::*;

pub mod edge;
pub mod node;

verus! {

/// A node of a `GraphMap`: a pair of indices, that of a venue and that of
/// an asset.
pub type NodeKey = (u32, u32);

/// The key of an edge of a `GraphMap`: the node it leaves and the node it
/// reaches.
pub type EdgeKey = ((u32, u32), (u32, u32));

/// Trait for the unsigned integer type used for node and edge indices.
///
/// An implementation must faithfully preserve and convert index values.
pub trait IndexType: Copy {
    /// The number that the index stands for.
    spec fn value(&self) -> nat;

    /// The largest number that an index of this type can stand for.
    spec fn limit() -> nat;

    /// The index for `x`, which is cut down to the type's size where it is
    /// too large for it.
    fn new(x: usize) -> (r: Self)
        ensures
            r.value() == x as nat % (Self::limit() + 1),
    ;

    fn index(&self) -> (r: usize)
        ensures
            r == self.value(),
    ;

    fn max() -> (r: Self)
        ensures
            r.value() == Self::limit(),
    ;
}

impl IndexType for usize {
    open spec fn value(&self) -> nat {
        *self as nat
    }

    open spec fn limit() -> nat {
        usize::MAX as nat
    }

    fn new(x: usize) -> (r: Self) {
        assert(x as nat % (usize::MAX as nat + 1) == x as nat) by (nonlinear_arith)
            requires
                x <= usize::MAX,
        ;
        x
    }

    fn index(&self) -> (r: usize) {
        *self
    }

    fn max() -> (r: Self) {
        usize::MAX
    }
}

impl IndexType for u32 {
    open spec fn value(&self) -> nat {
        *self as nat
    }

    open spec fn limit() -> nat {
        u32::MAX as nat
    }

    fn new(x: usize) -> (r: Self) {
        let wide: u64 = x as u64;
        (wide % 0x1_0000_0000u64) as u32
    }

    fn index(&self) -> (r: usize) {
        *self as usize
    }

    fn max() -> (r: Self) {
        u32::MAX
    }
}

impl IndexType for u16 {
    open spec fn value(&self) -> nat {
        *self as nat
    }

    open spec fn limit() -> nat {
        u16::MAX as nat
    }

    fn new(x: usize) -> (r: Self) {
        let wide: u64 = x as u64;
        (wide % 0x1_0000u64) as u16
    }

    fn index(&self) -> (r: usize) {
        *self as usize
    }

    fn max() -> (r: Self) {
        u16::MAX
    }
}

impl IndexType for u8 {
    open spec fn value(&self) -> nat {
        *self as nat
    }

    open spec fn limit() -> nat {
        u8::MAX as nat
    }

    fn new(x: usize) -> (r: Self) {
        let wide: u64 = x as u64;
        (wide % 0x100u64) as u8
    }

    fn index(&self) -> (r: usize) {
        *self as usize
    }

    fn max() -> (r: Self) {
        u8::MAX
    }
}

/// Short version of `NodeIndex::new`
pub fn node_index<Ix: IndexType>(index: usize) -> (r: NodeIndex<Ix>)
    ensures
        r.value() == index as nat % (Ix::limit() + 1),
{
    NodeIndex::new(index)
}

/// Short version of `EdgeIndex::new`
pub fn edge_index<Ix: IndexType>(index: usize) -> (r: EdgeIndex<Ix>)
    ensures
        r.value() == index as nat % (Ix::limit() + 1),
{
    EdgeIndex::new(index)
}

/// `Graph<N, E, Ix>` is a graph datastructure using an adjacency list representation.
///
/// `Graph` is parameterized over:
///
/// - Associated names `N` for nodes.
/// - Associated data `E` for edges, called *weights*.
/// - Index type `Ix`, which determines the maximum size of the graph.
///
/// The graph maintains indices for nodes and edges: for *n* nodes the
/// indices are 0 to *n* - 1 inclusive.
pub struct Graph<N, E, Ix: IndexType> {
    nodes: Vec<Node<N, Ix>>,
    edges: Vec<Edge<E, Ix>>,
}

impl<N, E, Ix: IndexType> Graph<N, E, Ix> {
    /// The names of the nodes, in the order of their indices.
    pub closed spec fn names(&self) -> Seq<N> {
        Seq::new(self.nodes@.len(), |i: int| self.nodes@[i].name)
    }

    /// The number of edges.
    pub closed spec fn edges_len(&self) -> nat {
        self.edges@.len()
    }

    /// Create a new `Graph`.
    pub fn new() -> (g: Self)
        ensures
            g.names() == Seq::<N>::empty(),
            g.edges_len() == 0,
    {
        let g = Graph { nodes: Vec::new(), edges: Vec::new() };
        assert(g.names() =~= Seq::<N>::empty());
        g
    }

    /// Create a new `Graph` with estimated capacity.
    pub fn with_capacity(nodes: usize, edges: usize) -> (g: Self)
        ensures
            g.names() == Seq::<N>::empty(),
            g.edges_len() == 0,
    {
        let g = Graph { nodes: Vec::with_capacity(nodes), edges: Vec::with_capacity(edges) };
        assert(g.names() =~= Seq::<N>::empty());
        g
    }

    /// Return the number of nodes (vertices) in the graph.
    ///
    /// Computes in **O(1)** time.
    pub fn node_count(&self) -> (n: usize)
        ensures
            n == self.names().len(),
    {
        self.nodes.len()
    }

    /// Return the number of edges in the graph.
    ///
    /// Computes in **O(1)** time.
    pub fn edge_count(&self) -> (n: usize)
        ensures
            n == self.edges_len(),
    {
        self.edges.len()
    }

    /// Add a node (also called vertex) with associated data `name` to the graph.
    ///
    /// Computes in **O(1)** time.
    ///
    /// Return the index of the new node.
    ///
    /// The graph must not be at the maximum number of nodes for its index
    /// type: the new node's index must not be the one that stands for no
    /// node, unless the index type is as wide as `usize`.
    pub fn add_node(&mut self, name: N) -> (r: NodeIndex<Ix>)
        requires
            Ix::limit() == usize::MAX || old(self).names().len() % (Ix::limit() + 1)
                != Ix::limit(),
        ensures
            final(self).names() == old(self).names().push(name),
            final(self).edges_len() == old(self).edges_len(),
            r.value() == old(self).names().len() % (Ix::limit() + 1),
    {
        let node = Node::new(name);
        let node_idx = NodeIndex::new(self.nodes.len());
        self.nodes.push(node);
        assert(self.names() =~= old(self).names().push(name));
        node_idx
    }
}

/// A `GraphMap` with undirected edges.
///
/// For example, an edge between *1* and *2* is equivalent to an edge between
/// *2* and *1*.
pub type UnGraphMap<E> = GraphMap<E, Undirected>;

/// A `GraphMap` with directed edges.
///
/// For example, an edge from *1* to *2* is distinct from an edge from *2* to
/// *1*.
pub type DiGraphMap<E> = GraphMap<E, Directed>;

/// The natural order of node keys: by venue, then by asset.
pub open spec fn key_le(a: NodeKey, b: NodeKey) -> bool {
    a.0 < b.0 || (a.0 == b.0 && a.1 <= b.1)
}

/// The key under which the edge between `a` and `b` is stored: the pair
/// itself where edges are directed, the pair in its natural order where they
/// are not.
pub open spec fn edge_key_of(directed: bool, a: NodeKey, b: NodeKey) -> EdgeKey {
    if directed || key_le(a, b) {
        (a, b)
    } else {
        (b, a)
    }
}

/// The adjacency list of `n` after an edge from `a` to `b` was inserted:
/// unchanged where the edge was there before; otherwise `a` gains `b` as an
/// outgoing neighbour and, unless the edge is a self loop, `b` gains `a` as
/// an incoming one.
pub open spec fn adjacency_after(
    list: Seq<(NodeKey, Direction)>,
    n: NodeKey,
    a: NodeKey,
    b: NodeKey,
    fresh: bool,
) -> Seq<(NodeKey, Direction)> {
    if !fresh {
        list
    } else if n == a && n == b {
        list.push((b, Direction::Outgoing))
    } else if n == a {
        list.push((b, Direction::Outgoing))
    } else if n == b {
        list.push((a, Direction::Incoming))
    } else {
        list
    }
}

/// The adjacency list that `lists` holds for `n`, where `nodes` gives each
/// node its place.
pub open spec fn listing(
    nodes: Seq<NodeKey>,
    lists: Seq<Vec<(NodeKey, Direction)>>,
    n: NodeKey,
) -> Seq<(NodeKey, Direction)> {
    if nodes.contains(n) {
        lists[nodes.index_of(n)]@
    } else {
        Seq::empty()
    }
}

/// Registering a node leaves every list that was there as it was, and gives
/// a new node an empty list.
proof fn lemma_listing_after_register(
    nodes: Seq<NodeKey>,
    lists: Seq<Vec<(NodeKey, Direction)>>,
    lists_after: Seq<Vec<(NodeKey, Direction)>>,
    n: NodeKey,
    m: NodeKey,
)
    requires
        nodes.no_duplicates(),
        lists.len() == nodes.len(),
        nodes.contains(n) ==> lists_after == lists,
        !nodes.contains(n) ==> lists_after.len() == lists.len() + 1 && lists_after[lists.len() as int]@
            == Seq::<(NodeKey, Direction)>::empty() && forall|i: int|
            0 <= i < lists.len() ==> lists_after[i] == lists[i],
    ensures
        listing(with_item(nodes, n), lists_after, m) == listing(nodes, lists, m),
        with_item(nodes, n).no_duplicates(),
        with_item(nodes, n).contains(n),
        nodes.contains(m) ==> with_item(nodes, n).contains(m),
{
    if !nodes.contains(n) {
        lemma_push_contains(nodes, n, m);
        lemma_push_index_of(nodes, n, n);
        if nodes.push(n).contains(m) {
            lemma_push_index_of(nodes, n, m);
        }
    }
}

/// Give `n` a place among the nodes, with an empty adjacency list, unless it
/// has one; return its place.
fn register_node(
    nodes: &mut IndexSet<(u32, u32)>,
    adjacency: &mut Vec<Vec<(NodeKey, Direction)>>,
    n: NodeKey,
) -> (p: usize)
    requires
        pair_set_items(*old(nodes)).no_duplicates(),
        old(adjacency)@.len() == pair_set_items(*old(nodes)).len(),
    ensures
        pair_set_items(*final(nodes)) == with_item(pair_set_items(*old(nodes)), n),
        pair_set_items(*final(nodes)).no_duplicates(),
        final(adjacency)@.len() == pair_set_items(*final(nodes)).len(),
        p < pair_set_items(*final(nodes)).len(),
        pair_set_items(*final(nodes))[p as int] == n,
        pair_set_items(*final(nodes)).index_of(n) == p,
        pair_set_items(*old(nodes)).contains(n) ==> final(adjacency)@ == old(adjacency)@,
        !pair_set_items(*old(nodes)).contains(n) ==> final(adjacency)@.len() == old(
            adjacency,
        )@.len() + 1 && final(adjacency)@[old(adjacency)@.len() as int]@ == Seq::<
            (NodeKey, Direction),
        >::empty() && forall|i: int|
            0 <= i < old(adjacency)@.len() ==> final(adjacency)@[i] == old(adjacency)@[i],
{
    let ghost before = pair_set_items(*nodes);
    let (p, fresh) = pair_set_insert_full(nodes, n);
    if fresh {
        adjacency.push(Vec::new());
        proof {
            lemma_push_index_of(before, n, n);
        }
    }
    p
}

/// Append `entry` to the list at place `p`.
fn push_entry(
    adjacency: &mut Vec<Vec<(NodeKey, Direction)>>,
    p: usize,
    entry: (NodeKey, Direction),
)
    requires
        p < old(adjacency)@.len(),
    ensures
        final(adjacency)@.len() == old(adjacency)@.len(),
        final(adjacency)@[p as int]@ == old(adjacency)@[p as int]@.push(entry),
        forall|i: int|
            0 <= i < old(adjacency)@.len() && i != p ==> final(adjacency)@[i] == old(
                adjacency,
            )@[i],
{
    adjacency.push(Vec::new());
    let mut list = adjacency.swap_remove(p);
    list.push(entry);
    adjacency.push(list);
    let _ = adjacency.swap_remove(p);
}


/// Whether the entry of the adjacency list of `n` speaks of an edge: an
/// outgoing entry of the edge from `n` to the neighbour, an incoming entry
/// of the edge from the neighbour, which is another node, to `n`.
pub open spec fn entry_has_edge(
    directed: bool,
    keys: Seq<EdgeKey>,
    n: NodeKey,
    entry: (NodeKey, Direction),
) -> bool {
    match entry.1 {
        Direction::Outgoing => keys.contains(edge_key_of(directed, n, entry.0)),
        Direction::Incoming => keys.contains(edge_key_of(directed, entry.0, n)) && entry.0 != n,
    }
}

/// Whether the edge from `a` to `b` is listed: `a` has `b` as an outgoing
/// neighbour, and `b`, unless it is `a` itself, has `a` as an incoming one.
pub open spec fn listed(
    nodes: Seq<NodeKey>,
    lists: Seq<Vec<(NodeKey, Direction)>>,
    a: NodeKey,
    b: NodeKey,
) -> bool {
    &&& listing(nodes, lists, a).contains((b, Direction::Outgoing))
    &&& a != b ==> listing(nodes, lists, b).contains((a, Direction::Incoming))
}

/// Whether the edge with the key `key` is listed, in the direction of the
/// key or, where edges have no direction, possibly in the other.
pub open spec fn edge_has_entries(
    directed: bool,
    nodes: Seq<NodeKey>,
    lists: Seq<Vec<(NodeKey, Direction)>>,
    key: EdgeKey,
) -> bool {
    listed(nodes, lists, key.0, key.1) || (!directed && listed(nodes, lists, key.1, key.0))
}

/// The adjacency lists say what the edges say: every entry speaks of an
/// edge, and every edge is listed.
pub open spec fn adjacency_matches(
    directed: bool,
    keys: Seq<EdgeKey>,
    nodes: Seq<NodeKey>,
    lists: Seq<Vec<(NodeKey, Direction)>>,
) -> bool {
    &&& forall|n: NodeKey, x: int|
        0 <= x < listing(nodes, lists, n).len() ==> #[trigger] entry_has_edge(
            directed,
            keys,
            n,
            listing(nodes, lists, n)[x],
        )
    &&& forall|key: EdgeKey|
        keys.contains(key) ==> #[trigger] edge_has_entries(directed, nodes, lists, key)
}

/// Inserting an edge keeps the adjacency lists and the edges in step.
proof fn lemma_adjacency_after(
    directed: bool,
    keys: Seq<EdgeKey>,
    nodes: Seq<NodeKey>,
    lists: Seq<Vec<(NodeKey, Direction)>>,
    nodes_after: Seq<NodeKey>,
    lists_after: Seq<Vec<(NodeKey, Direction)>>,
    a: NodeKey,
    b: NodeKey,
)
    requires
        adjacency_matches(directed, keys, nodes, lists),
        forall|n: NodeKey| #[trigger]
            listing(nodes_after, lists_after, n) == adjacency_after(
                listing(nodes, lists, n),
                n,
                a,
                b,
                !keys.contains(edge_key_of(directed, a, b)),
            ),
    ensures
        adjacency_matches(
            directed,
            with_item(keys, edge_key_of(directed, a, b)),
            nodes_after,
            lists_after,
        ),
{
    let key = edge_key_of(directed, a, b);
    let fresh = !keys.contains(key);
    let keys_after = with_item(keys, key);
    assert forall|k: EdgeKey| keys.contains(k) implies keys_after.contains(k) by {
        lemma_with_item_contains(keys, key, k);
    }
    lemma_with_item_contains(keys, key, key);
    assert forall|n: NodeKey, x: int|
        0 <= x < listing(nodes_after, lists_after, n).len() implies #[trigger] entry_has_edge(
        directed,
        keys_after,
        n,
        listing(nodes_after, lists_after, n)[x],
    ) by {
        let old_list = listing(nodes, lists, n);
        let new_list = listing(nodes_after, lists_after, n);
        assert(new_list == adjacency_after(old_list, n, a, b, fresh));
        if x < old_list.len() {
            assert(new_list[x] == old_list[x]);
            assert(entry_has_edge(directed, keys, n, old_list[x]));
            let entry = old_list[x];
            match entry.1 {
                Direction::Outgoing => {
                    assert(keys.contains(edge_key_of(directed, n, entry.0)));
                },
                Direction::Incoming => {
                    assert(keys.contains(edge_key_of(directed, entry.0, n)));
                },
            }
        } else {
            assert(fresh);
        }
    }
    assert forall|k: EdgeKey| keys_after.contains(k) implies #[trigger] edge_has_entries(
        directed,
        nodes_after,
        lists_after,
        k,
    ) by {
        lemma_with_item_contains(keys, key, k);
        if keys.contains(k) {
            assert(edge_has_entries(directed, nodes, lists, k));
            lemma_listed_after(nodes, lists, nodes_after, lists_after, a, b, fresh, k.0, k.1);
            lemma_listed_after(nodes, lists, nodes_after, lists_after, a, b, fresh, k.1, k.0);
        } else {
            assert(k == key && fresh);
            let list_a = listing(nodes_after, lists_after, a);
            let list_b = listing(nodes_after, lists_after, b);
            assert(list_a == adjacency_after(listing(nodes, lists, a), a, a, b, true));
            assert(list_b == adjacency_after(listing(nodes, lists, b), b, a, b, true));
            assert(list_a[list_a.len() - 1] == (b, Direction::Outgoing));
            if a != b {
                assert(list_b[list_b.len() - 1] == (a, Direction::Incoming));
            }
            assert(listed(nodes_after, lists_after, a, b));
        }
    }
}

/// The adjacency list of `n` in a directed graph that was given the edges
/// with the keys `keys`, in this order: each edge in turn has its entry in
/// the list of the node it leaves and in that of the node it reaches.
pub open spec fn adjacency_of(keys: Seq<EdgeKey>, n: NodeKey) -> Seq<(NodeKey, Direction)>
    decreases keys.len(),
{
    if keys.len() == 0 {
        Seq::empty()
    } else {
        adjacency_after(adjacency_of(keys.drop_last(), n), n, keys.last().0, keys.last().1, true)
    }
}

/// Adjacency lists that stay as they are stay in step with the edges.
proof fn lemma_adjacency_same(
    directed: bool,
    keys: Seq<EdgeKey>,
    nodes: Seq<NodeKey>,
    lists: Seq<Vec<(NodeKey, Direction)>>,
    nodes_after: Seq<NodeKey>,
    lists_after: Seq<Vec<(NodeKey, Direction)>>,
)
    requires
        adjacency_matches(directed, keys, nodes, lists),
        forall|n: NodeKey| #[trigger]
            listing(nodes_after, lists_after, n) == listing(nodes, lists, n),
    ensures
        adjacency_matches(directed, keys, nodes_after, lists_after),
{
    assert forall|n: NodeKey, x: int|
        0 <= x < listing(nodes_after, lists_after, n).len() implies #[trigger] entry_has_edge(
        directed,
        keys,
        n,
        listing(nodes_after, lists_after, n)[x],
    ) by {
        assert(listing(nodes_after, lists_after, n) == listing(nodes, lists, n));
        assert(entry_has_edge(directed, keys, n, listing(nodes, lists, n)[x]));
    }
    assert forall|k: EdgeKey| keys.contains(k) implies #[trigger] edge_has_entries(
        directed,
        nodes_after,
        lists_after,
        k,
    ) by {
        assert(edge_has_entries(directed, nodes, lists, k));
        assert(listing(nodes_after, lists_after, k.0) == listing(nodes, lists, k.0));
        assert(listing(nodes_after, lists_after, k.1) == listing(nodes, lists, k.1));
    }
}

/// An edge that was listed stays listed when another is inserted.
proof fn lemma_listed_after(
    nodes: Seq<NodeKey>,
    lists: Seq<Vec<(NodeKey, Direction)>>,
    nodes_after: Seq<NodeKey>,
    lists_after: Seq<Vec<(NodeKey, Direction)>>,
    a: NodeKey,
    b: NodeKey,
    fresh: bool,
    from: NodeKey,
    to: NodeKey,
)
    requires
        forall|n: NodeKey| #[trigger]
            listing(nodes_after, lists_after, n) == adjacency_after(
                listing(nodes, lists, n),
                n,
                a,
                b,
                fresh,
            ),
    ensures
        listed(nodes, lists, from, to) ==> listed(nodes_after, lists_after, from, to),
{
    if listed(nodes, lists, from, to) {
        let list = listing(nodes, lists, from);
        let after = listing(nodes_after, lists_after, from);
        assert(after == adjacency_after(list, from, a, b, fresh));
        let x = choose|x: int| 0 <= x < list.len() && list[x] == (to, Direction::Outgoing);
        assert(after[x] == (to, Direction::Outgoing));
        if from != to {
            let list = listing(nodes, lists, to);
            let after = listing(nodes_after, lists_after, to);
            assert(after == adjacency_after(list, to, a, b, fresh));
            let y = choose|y: int| 0 <= y < list.len() && list[y] == (from, Direction::Incoming);
            assert(after[y] == (from, Direction::Incoming));
        }
    }
}

/// The neighbours that an adjacency list names in the direction `dir`, in
/// the order of the list; where edges have no direction, all of them.
pub open spec fn chosen(list: Seq<(NodeKey, Direction)>, directed: bool, dir: Direction) -> Seq<
    NodeKey,
>
    decreases list.len(),
{
    if list.len() == 0 {
        Seq::empty()
    } else if !directed || list.last().1 == dir {
        chosen(list.drop_last(), directed, dir).push(list.last().0)
    } else {
        chosen(list.drop_last(), directed, dir)
    }
}

/// A node is among the chosen neighbours where an entry of the list names
/// it in the direction asked for, and only there.
pub proof fn lemma_chosen_contains(
    list: Seq<(NodeKey, Direction)>,
    directed: bool,
    dir: Direction,
    b: NodeKey,
)
    ensures
        chosen(list, directed, dir).contains(b) == exists|x: int|
            0 <= x < list.len() && (#[trigger] list[x]).0 == b && (!directed || list[x].1 == dir),
    decreases list.len(),
{
    if list.len() > 0 {
        let front = list.drop_last();
        lemma_chosen_contains(front, directed, dir, b);
        let rest = chosen(front, directed, dir);
        let taken = !directed || list.last().1 == dir;
        if taken {
            lemma_push_contains(rest, list.last().0, b);
        }
        if chosen(list, directed, dir).contains(b) {
            if rest.contains(b) {
                let x = choose|x: int|
                    0 <= x < front.len() && (#[trigger] front[x]).0 == b && (!directed || front[x].1
                        == dir);
                assert(list[x] == front[x]);
            } else {
                assert(list[list.len() - 1].0 == b);
            }
        }
        if exists|x: int|
            0 <= x < list.len() && (#[trigger] list[x]).0 == b && (!directed || list[x].1 == dir) {
            let x = choose|x: int|
                0 <= x < list.len() && (#[trigger] list[x]).0 == b && (!directed || list[x].1 == dir);
            if x < front.len() {
                assert(front[x] == list[x]);
            }
        }
    }
}

/// Create a new empty `GraphMap`.
impl<E, Ty: EdgeType> Default for GraphMap<E, Ty> {
    fn default() -> (g: Self)
        ensures
            g.wf(),
            g.nodes_view() == Seq::<NodeKey>::empty(),
            g.edge_keys() == Seq::<EdgeKey>::empty(),
            g.edges_view() == Map::<EdgeKey, E>::empty(),
    {
        GraphMap::with_capacity(0, 0)
    }
}

/// Pick the neighbours that the list names in the direction `dir`; all of
/// them where edges have no direction.
fn choose_entries(list: &Vec<(NodeKey, Direction)>, directed: bool, dir: Direction) -> (r: Vec<
    NodeKey,
>)
    ensures
        r@ == chosen(list@, directed, dir),
{
    let mut out: Vec<NodeKey> = Vec::new();
    let mut i: usize = 0;
    while i < list.len()
        invariant
            i <= list@.len(),
            out@ == chosen(list@.take(i as int), directed, dir),
        decreases list.len() - i,
    {
        let entry = list[i];
        proof {
            assert(list@.take(i + 1).drop_last() == list@.take(i as int));
            assert(list@.take(i + 1).last() == entry);
        }
        let same = match (entry.1, dir) {
            (Direction::Outgoing, Direction::Outgoing) => true,
            (Direction::Incoming, Direction::Incoming) => true,
            _ => false,
        };
        if !directed || same {
            out.push(entry.0);
        }
        i = i + 1;
    }
    assert(list@.take(list@.len() as int) == list@);
    out
}

/// The neighbours of a node, one after the other.
pub struct Neighbors<Ty> {
    entries: Vec<NodeKey>,
    position: usize,
    ty: PhantomData<Ty>,
}

impl<Ty: EdgeType> Neighbors<Ty> {
    /// The neighbours that are still to come.
    pub closed spec fn remaining(&self) -> Seq<NodeKey> {
        if self.position <= self.entries@.len() {
            self.entries@.skip(self.position as int)
        } else {
            Seq::empty()
        }
    }

    /// The next neighbour, if one is left.
    pub fn next(&mut self) -> (r: Option<NodeKey>)
        ensures
            match r {
                Some(n) => old(self).remaining().len() > 0 && n == old(self).remaining()[0]
                    && final(self).remaining() == old(self).remaining().drop_first(),
                None => old(self).remaining().len() == 0 && final(self).remaining() == old(
                    self,
                ).remaining(),
            },
    {
        if self.position < self.entries.len() {
            let n = self.entries[self.position];
            self.position = self.position + 1;
            assert(self.remaining() =~= old(self).remaining().drop_first());
            Some(n)
        } else {
            None
        }
    }
}

/// The neighbours of a node in one direction, one after the other.
pub struct NeighborsDirected<Ty> {
    entries: Vec<NodeKey>,
    position: usize,
    dir: Direction,
    ty: PhantomData<Ty>,
}

impl<Ty: EdgeType> NeighborsDirected<Ty> {
    /// The neighbours that are still to come.
    pub closed spec fn remaining(&self) -> Seq<NodeKey> {
        if self.position <= self.entries@.len() {
            self.entries@.skip(self.position as int)
        } else {
            Seq::empty()
        }
    }

    /// The direction that was asked for.
    pub closed spec fn direction(&self) -> Direction {
        self.dir
    }

    /// The next neighbour, if one is left.
    pub fn next(&mut self) -> (r: Option<NodeKey>)
        ensures
            final(self).direction() == old(self).direction(),
            match r {
                Some(n) => old(self).remaining().len() > 0 && n == old(self).remaining()[0]
                    && final(self).remaining() == old(self).remaining().drop_first(),
                None => old(self).remaining().len() == 0 && final(self).remaining() == old(
                    self,
                ).remaining(),
            },
    {
        if self.position < self.entries.len() {
            let n = self.entries[self.position];
            self.position = self.position + 1;
            assert(self.remaining() =~= old(self).remaining().drop_first());
            Some(n)
        } else {
            None
        }
    }
}

/// `GraphMap<E, Ty>` is a graph datastructure over node keys, with edge
/// weights of type `E`.
///
/// It uses a combined adjacency list and sparse adjacency matrix
/// representation, using **O(|V| + |E|)** space, and allows testing for edge
/// existence in constant time.
///
/// `GraphMap` does not allow parallel edges, but self loops are allowed.
pub struct GraphMap<E, Ty> {
    nodes: IndexSet<(u32, u32)>,
    adjacency: Vec<Vec<(NodeKey, Direction)>>,
    edges: IndexSet<((u32, u32), (u32, u32))>,
    weights: Vec<E>,
    ty: PhantomData<Ty>,
}

impl<E, Ty: EdgeType> GraphMap<E, Ty> {
    /// The nodes, in the order in which they were first seen.
    pub closed spec fn nodes_view(&self) -> Seq<NodeKey> {
        pair_set_items(self.nodes)
    }

    /// The edge keys, in the order in which they were first inserted.
    pub closed spec fn edge_keys(&self) -> Seq<EdgeKey> {
        edge_set_items(self.edges)
    }

    /// The weight of each edge, by its key.
    pub closed spec fn edges_view(&self) -> Map<EdgeKey, E> {
        Map::new(
            |k: EdgeKey| edge_set_items(self.edges).contains(k),
            |k: EdgeKey| self.weights@[edge_set_items(self.edges).index_of(k)],
        )
    }

    /// The adjacency list of `n`: its neighbours with the direction of the
    /// edge, in the order in which the edges were inserted.
    pub closed spec fn adjacency_view(&self, n: NodeKey) -> Seq<(NodeKey, Direction)> {
        listing(pair_set_items(self.nodes), self.adjacency@, n)
    }

    /// The representation invariant: no node and no edge key is held twice,
    /// every edge has its weight and every node its adjacency list, both
    /// ends of every edge are nodes, and the adjacency lists say what the
    /// edges say.
    pub closed spec fn wf(&self) -> bool {
        &&& pair_set_items(self.nodes).no_duplicates()
        &&& self.adjacency@.len() == pair_set_items(self.nodes).len()
        &&& edge_set_items(self.edges).no_duplicates()
        &&& self.weights@.len() == edge_set_items(self.edges).len()
        &&& forall|k: EdgeKey| #[trigger]
            edge_set_items(self.edges).contains(k) ==> pair_set_items(self.nodes).contains(k.0)
                && pair_set_items(self.nodes).contains(k.1)
        &&& adjacency_matches(
            Ty::directed(),
            edge_set_items(self.edges),
            pair_set_items(self.nodes),
            self.adjacency@,
        )
        &&& Ty::directed() ==> forall|n: NodeKey| #[trigger]
            listing(pair_set_items(self.nodes), self.adjacency@, n) == adjacency_of(
                edge_set_items(self.edges),
                n,
            )
    }

    /// In a directed graph the adjacency lists are what the order of the
    /// edges makes them.
    pub proof fn lemma_adjacency(&self, n: NodeKey)
        requires
            self.wf(),
            Ty::directed(),
        ensures
            self.adjacency_view(n) == adjacency_of(self.edge_keys(), n),
    {
    }

    /// What `wf` says, over the public views.
    pub proof fn lemma_wf(&self)
        requires
            self.wf(),
        ensures
            self.nodes_view().no_duplicates(),
            self.edge_keys().no_duplicates(),
            self.edges_view().dom() =~= self.edge_keys().to_set(),
            self.edges_view().dom().finite(),
            self.edges_view().dom().len() == self.edge_keys().len(),
            forall|k: EdgeKey| #[trigger]
                self.edges_view().contains_key(k) ==> self.nodes_view().contains(k.0)
                    && self.nodes_view().contains(k.1),
    {
        self.edge_keys().unique_seq_to_set();
        assert(self.edges_view().dom() =~= self.edge_keys().to_set());
    }

    /// What `add_edge` does: `after` is this graph once the edge between
    /// `a` and `b` was given the weight `weight`, and `returned` is the
    /// weight that the edge had before, if it was there.
    pub open spec fn edge_added(
        &self,
        after: &Self,
        a: NodeKey,
        b: NodeKey,
        weight: E,
        returned: Option<E>,
    ) -> bool {
        let key = edge_key_of(Ty::directed(), a, b);
        &&& after.wf()
        &&& returned == self.edges_view().get(key)
        &&& after.edges_view() == self.edges_view().insert(key, weight)
        &&& after.edge_keys() == with_item(self.edge_keys(), key)
        &&& after.nodes_view() == with_item(with_item(self.nodes_view(), a), b)
    }

    /// Edge overwrite. Of two insertions of one edge, the second leaves
    /// the second weight on the edge and the number of edges and the nodes
    /// as the first left them, and returns the first weight.
    pub proof fn lemma_edge_overwrite(
        &self,
        once: &Self,
        twice: &Self,
        a: NodeKey,
        b: NodeKey,
        first: E,
        second: E,
        returned_first: Option<E>,
        returned_second: Option<E>,
    )
        requires
            self.wf(),
            self.edge_added(once, a, b, first, returned_first),
            once.edge_added(twice, a, b, second, returned_second),
        ensures
            twice.edges_view().contains_key(edge_key_of(Ty::directed(), a, b)),
            twice.edges_view()[edge_key_of(Ty::directed(), a, b)] == second,
            twice.edge_keys().len() == once.edge_keys().len(),
            twice.edge_keys() == once.edge_keys(),
            twice.nodes_view() == once.nodes_view(),
            returned_second == Some(first),
            twice.edges_view() == self.edges_view().insert(
                edge_key_of(Ty::directed(), a, b),
                second,
            ),
    {
        let key = edge_key_of(Ty::directed(), a, b);
        lemma_with_item_contains(self.edge_keys(), key, key);
        lemma_with_item_contains(self.nodes_view(), a, a);
        lemma_with_item_contains(with_item(self.nodes_view(), a), b, a);
        lemma_with_item_contains(with_item(self.nodes_view(), a), b, b);
        assert(twice.edges_view() =~= self.edges_view().insert(key, second));
    }

    /// Create a new `GraphMap`.
    pub fn new() -> (g: Self)
        ensures
            g.wf(),
            g.nodes_view() == Seq::<NodeKey>::empty(),
            g.edge_keys() == Seq::<EdgeKey>::empty(),
            g.edges_view() == Map::<EdgeKey, E>::empty(),
            forall|n: NodeKey| #[trigger] g.adjacency_view(n) == Seq::<(NodeKey, Direction)>::empty(),
    {
        Self::with_capacity(0, 0)
    }

    /// Create a new `GraphMap` with estimated capacity.
    pub fn with_capacity(nodes: usize, edges: usize) -> (g: Self)
        ensures
            g.wf(),
            g.nodes_view() == Seq::<NodeKey>::empty(),
            g.edge_keys() == Seq::<EdgeKey>::empty(),
            g.edges_view() == Map::<EdgeKey, E>::empty(),
            forall|n: NodeKey| #[trigger] g.adjacency_view(n) == Seq::<(NodeKey, Direction)>::empty(),
    {
        let node_hint: usize = if nodes <= PREALLOCATION_LIMIT {
            nodes
        } else {
            PREALLOCATION_LIMIT
        };
        let edge_hint: usize = if edges <= PREALLOCATION_LIMIT {
            edges
        } else {
            PREALLOCATION_LIMIT
        };
        let g = GraphMap {
            nodes: pair_set_with_capacity(node_hint),
            adjacency: Vec::new(),
            edges: edge_set_with_capacity(edge_hint),
            weights: Vec::new(),
            ty: PhantomData,
        };
        assert(g.edges_view() =~= Map::<EdgeKey, E>::empty());
        g
    }

    /// Whether the graph has directed edges.
    pub fn is_directed(&self) -> (r: bool)
        ensures
            r == Ty::directed(),
    {
        Ty::is_directed()
    }

    /// Use their natural order to map the node pair (a, b) to a canonical edge id.
    pub fn edge_key(a: NodeKey, b: NodeKey) -> (k: EdgeKey)
        ensures
            k == edge_key_of(Ty::directed(), a, b),
    {
        if Ty::is_directed() {
            (a, b)
        } else {
            if a.0 < b.0 || (a.0 == b.0 && a.1 <= b.1) {
                (a, b)
            } else {
                (b, a)
            }
        }
    }

    /// Return the number of nodes in the graph.
    pub fn node_count(&self) -> (n: usize)
        ensures
            n == self.nodes_view().len(),
    {
        pair_set_len(&self.nodes)
    }

    /// Return the number of edges in the graph.
    pub fn edge_count(&self) -> (n: usize)
        ensures
            n == self.edge_keys().len(),
    {
        edge_set_len(&self.edges)
    }

    /// Return `true` if the node is contained in the graph.
    pub fn contains_node(&self, n: NodeKey) -> (r: bool)
        ensures
            r == self.nodes_view().contains(n),
    {
        pair_set_get_index_of(&self.nodes, n).is_some()
    }

    /// Return `true` if the edge connecting `a` with `b` is contained in the graph.
    pub fn contains_edge(&self, a: NodeKey, b: NodeKey) -> (r: bool)
        ensures
            r == self.edges_view().contains_key(edge_key_of(Ty::directed(), a, b)),
    {
        edge_set_get_index_of(&self.edges, Self::edge_key(a, b)).is_some()
    }

    /// Add node `n` to the graph.
    pub fn add_node(&mut self, n: NodeKey) -> (r: NodeKey)
        requires
            old(self).wf(),
        ensures
            final(self).wf(),
            r == n,
            final(self).nodes_view() == with_item(old(self).nodes_view(), n),
            final(self).edge_keys() == old(self).edge_keys(),
            final(self).edges_view() == old(self).edges_view(),
            forall|m: NodeKey| #[trigger]
                final(self).adjacency_view(m) == old(self).adjacency_view(m),
    {
        let ghost before = *self;
        let _ = register_node(&mut self.nodes, &mut self.adjacency, n);
        proof {
            assert(self.edges_view() =~= before.edges_view());
            assert forall|k: EdgeKey| #[trigger]
                edge_set_items(self.edges).contains(k) implies pair_set_items(
                self.nodes,
            ).contains(k.0) && pair_set_items(self.nodes).contains(k.1) by {
                lemma_listing_after_register(
                    pair_set_items(before.nodes),
                    before.adjacency@,
                    self.adjacency@,
                    n,
                    k.0,
                );
                lemma_listing_after_register(
                    pair_set_items(before.nodes),
                    before.adjacency@,
                    self.adjacency@,
                    n,
                    k.1,
                );
            }
            assert forall|m: NodeKey| #[trigger]
                self.adjacency_view(m) == before.adjacency_view(m) by {
                lemma_listing_after_register(
                    pair_set_items(before.nodes),
                    before.adjacency@,
                    self.adjacency@,
                    n,
                    m,
                );
            }
            assert forall|m: NodeKey| #[trigger]
                listing(pair_set_items(self.nodes), self.adjacency@, m) == listing(
                    pair_set_items(before.nodes),
                    before.adjacency@,
                    m,
                ) by {
                assert(self.adjacency_view(m) == before.adjacency_view(m));
            }
            lemma_adjacency_same(
                Ty::directed(),
                edge_set_items(self.edges),
                pair_set_items(before.nodes),
                before.adjacency@,
                pair_set_items(self.nodes),
                self.adjacency@,
            );
            if Ty::directed() {
                assert forall|m: NodeKey| #[trigger]
                    listing(pair_set_items(self.nodes), self.adjacency@, m) == adjacency_of(
                        edge_set_items(self.edges),
                        m,
                    ) by {
                    assert(listing(pair_set_items(before.nodes), before.adjacency@, m)
                        == adjacency_of(edge_set_items(before.edges), m));
                }
            }
        }
        n
    }

    /// Add an edge connecting `a` and `b` to the graph, with associated
    /// data `weight`. For a directed graph, the edge is directed from `a`
    /// to `b`.
    ///
    /// Inserts nodes `a` and/or `b` if they aren't already part of the graph.
    ///
    /// Return `None` if the edge did not previously exist, otherwise,
    /// the associated data is updated and the old value is returned
    /// as `Some(old_weight)`.
    pub fn add_edge(&mut self, a: NodeKey, b: NodeKey, weight: E) -> (r: Option<E>)
        requires
            old(self).wf(),
        ensures
            old(self).edge_added(final(self), a, b, weight, r),
            final(self).wf(),
            r == old(self).edges_view().get(edge_key_of(Ty::directed(), a, b)),
            final(self).edges_view() == old(self).edges_view().insert(
                edge_key_of(Ty::directed(), a, b),
                weight,
            ),
            final(self).edge_keys() == with_item(
                old(self).edge_keys(),
                edge_key_of(Ty::directed(), a, b),
            ),
            final(self).edge_keys().len() == old(self).edge_keys().len() + (if old(
                self,
            ).edges_view().contains_key(edge_key_of(Ty::directed(), a, b)) {
                0nat
            } else {
                1nat
            }),
            final(self).nodes_view() == with_item(with_item(old(self).nodes_view(), a), b),
            forall|n: NodeKey| #[trigger]
                final(self).adjacency_view(n) == adjacency_after(
                    old(self).adjacency_view(n),
                    n,
                    a,
                    b,
                    !old(self).edges_view().contains_key(edge_key_of(Ty::directed(), a, b)),
                ),
    {
        let ghost before = *self;
        let ghost key = edge_key_of(Ty::directed(), a, b);
        let (i, fresh) = edge_set_insert_full(&mut self.edges, Self::edge_key(a, b));
        self.weights.push(weight);
        if fresh {
            let pa = register_node(&mut self.nodes, &mut self.adjacency, a);
            let ghost nodes_a = pair_set_items(self.nodes);
            let ghost lists_a = self.adjacency@;
            push_entry(&mut self.adjacency, pa, (b, Direction::Outgoing));
            let ghost lists_b = self.adjacency@;
            if a.0 != b.0 || a.1 != b.1 {
                let pb = register_node(&mut self.nodes, &mut self.adjacency, b);
                let ghost lists_c = self.adjacency@;
                push_entry(&mut self.adjacency, pb, (a, Direction::Incoming));
                proof {
                    assert forall|n: NodeKey| #[trigger]
                        self.adjacency_view(n) == adjacency_after(
                            before.adjacency_view(n),
                            n,
                            a,
                            b,
                            true,
                        ) by {
                        lemma_listing_after_register(
                            pair_set_items(before.nodes),
                            before.adjacency@,
                            lists_a,
                            a,
                            n,
                        );
                        lemma_listing_after_register(nodes_a, lists_b, lists_c, b, n);
                    }
                }
            } else {
                proof {
                    assert(a == b);
                    assert forall|n: NodeKey| #[trigger]
                        self.adjacency_view(n) == adjacency_after(
                            before.adjacency_view(n),
                            n,
                            a,
                            b,
                            true,
                        ) by {
                        lemma_listing_after_register(
                            pair_set_items(before.nodes),
                            before.adjacency@,
                            lists_a,
                            a,
                            n,
                        );
                    }
                }
            }
            proof {
                let keys = edge_set_items(before.edges);
                assert(before.edges_view().get(key) == None::<E>);
                assert forall|k: EdgeKey| #[trigger]
                    edge_set_items(self.edges).contains(k) implies pair_set_items(
                    self.nodes,
                ).contains(k.0) && pair_set_items(self.nodes).contains(k.1) by {
                    let nodes0 = pair_set_items(before.nodes);
                    lemma_push_contains(keys, key, k);
                    lemma_with_item_contains(nodes0, a, k.0);
                    lemma_with_item_contains(nodes0, a, k.1);
                    lemma_with_item_contains(with_item(nodes0, a), b, k.0);
                    lemma_with_item_contains(with_item(nodes0, a), b, k.1);
                    lemma_with_item_contains(nodes0, a, a);
                    lemma_with_item_contains(with_item(nodes0, a), b, a);
                    lemma_with_item_contains(with_item(nodes0, a), b, b);
                }
                assert forall|k: EdgeKey|
                    self.edges_view().contains_key(k) == before.edges_view().insert(
                        key,
                        weight,
                    ).contains_key(k) by {
                    lemma_push_contains(keys, key, k);
                }
                assert forall|k: EdgeKey| #[trigger]
                    self.edges_view().contains_key(k) implies self.edges_view()[k]
                    == before.edges_view().insert(key, weight)[k] by {
                    lemma_push_index_of(keys, key, k);
                }
                assert(self.edges_view() =~= before.edges_view().insert(key, weight));
                assert forall|n: NodeKey| #[trigger]
                    listing(pair_set_items(self.nodes), self.adjacency@, n) == adjacency_after(
                        listing(pair_set_items(before.nodes), before.adjacency@, n),
                        n,
                        a,
                        b,
                        !keys.contains(edge_key_of(Ty::directed(), a, b)),
                    ) by {
                    assert(self.adjacency_view(n) == adjacency_after(
                        before.adjacency_view(n),
                        n,
                        a,
                        b,
                        true,
                    ));
                }
                lemma_adjacency_after(
                    Ty::directed(),
                    keys,
                    pair_set_items(before.nodes),
                    before.adjacency@,
                    pair_set_items(self.nodes),
                    self.adjacency@,
                    a,
                    b,
                );
                if Ty::directed() {
                    assert(keys.push(key).drop_last() == keys);
                    assert forall|n: NodeKey| #[trigger]
                        listing(pair_set_items(self.nodes), self.adjacency@, n) == adjacency_of(
                            edge_set_items(self.edges),
                            n,
                        ) by {
                        assert(listing(pair_set_items(before.nodes), before.adjacency@, n)
                            == adjacency_of(keys, n));
                    }
                }
            }
            None
        } else {
            let previous = self.weights.swap_remove(i);
            proof {
                let keys = edge_set_items(before.edges);
                assert(keys.contains(key));
                assert(keys.index_of(key) == i as int);
                assert(before.nodes_view().contains(key.0));
                assert(before.nodes_view().contains(key.1));
                assert(before.nodes_view().contains(a));
                assert(before.nodes_view().contains(b));
                assert forall|k: EdgeKey| #[trigger]
                    self.edges_view().contains_key(k) implies self.edges_view()[k]
                    == before.edges_view().insert(key, weight)[k] by {
                    if k != key {
                        assert(keys.index_of(k) != i as int);
                    }
                }
                assert(self.edges_view() =~= before.edges_view().insert(key, weight));
                lemma_adjacency_same(
                    Ty::directed(),
                    keys,
                    pair_set_items(before.nodes),
                    before.adjacency@,
                    pair_set_items(self.nodes),
                    self.adjacency@,
                );
                if Ty::directed() {
                    assert forall|n: NodeKey| #[trigger]
                        listing(pair_set_items(self.nodes), self.adjacency@, n) == adjacency_of(
                            edge_set_items(self.edges),
                            n,
                        ) by {
                        assert(listing(pair_set_items(before.nodes), before.adjacency@, n)
                            == adjacency_of(keys, n));
                    }
                }
            }
            Some(previous)
        }
    }

    /// Remove all nodes and edges.
    pub fn clear(&mut self)
        ensures
            final(self).wf(),
            final(self).nodes_view() == Seq::<NodeKey>::empty(),
            final(self).edge_keys() == Seq::<EdgeKey>::empty(),
            final(self).edges_view() == Map::<EdgeKey, E>::empty(),
            forall|n: NodeKey| #[trigger]
                final(self).adjacency_view(n) == Seq::<(NodeKey, Direction)>::empty(),
    {
        *self = Self::with_capacity(0, 0);
    }

    /// Return the nodes of the graph, in the order in which they were
    /// first seen.
    pub fn nodes(&self) -> (r: Vec<NodeKey>)
        ensures
            r@ == self.nodes_view(),
    {
        let n = pair_set_len(&self.nodes);
        let mut out: Vec<NodeKey> = Vec::with_capacity(n);
        let mut i: usize = 0;
        while i < n
            invariant
                n == pair_set_items(self.nodes).len(),
                i <= n,
                out@ == pair_set_items(self.nodes).take(i as int),
            decreases n - i,
        {
            match pair_set_get_index(&self.nodes, i) {
                Some(node) => {
                    out.push(node);
                    assert(pair_set_items(self.nodes).take(i + 1) == pair_set_items(
                        self.nodes,
                    ).take(i as int).push(node));
                },
                // Not reached: the place is in range.
                None => {},
            }
            i = i + 1;
        }
        assert(pair_set_items(self.nodes).take(n as int) == pair_set_items(self.nodes));
        out
    }

    /// The neighbours of `a` in the direction `dir`, as the adjacency list
    /// of `a` names them; all its neighbours where edges have no direction.
    pub open spec fn neighbors_view(&self, a: NodeKey, dir: Direction) -> Seq<NodeKey> {
        chosen(self.adjacency_view(a), Ty::directed(), dir)
    }

    /// The neighbours are the other ends of the edges. A node has `b` as
    /// an outgoing neighbour just where it has an edge to `b`, and, in a
    /// directed graph, as an incoming neighbour just where another node `b`
    /// has an edge to it.
    pub proof fn lemma_neighbors(&self, a: NodeKey, b: NodeKey)
        requires
            self.wf(),
        ensures
            self.neighbors_view(a, Direction::Outgoing).contains(b)
                == self.edges_view().contains_key(edge_key_of(Ty::directed(), a, b)),
            Ty::directed() ==> self.neighbors_view(a, Direction::Incoming).contains(b) == (
            self.edges_view().contains_key((b, a)) && a != b),
    {
        let directed = Ty::directed();
        let keys = edge_set_items(self.edges);
        let nodes = pair_set_items(self.nodes);
        let lists = self.adjacency@;
        let list = listing(nodes, lists, a);
        lemma_chosen_contains(list, directed, Direction::Outgoing, b);
        lemma_chosen_contains(list, directed, Direction::Incoming, b);
        // Every entry speaks of an edge.
        if self.neighbors_view(a, Direction::Outgoing).contains(b) {
            let x = choose|x: int|
                0 <= x < list.len() && (#[trigger] list[x]).0 == b && (!directed || list[x].1
                    == Direction::Outgoing);
            assert(entry_has_edge(directed, keys, a, list[x]));
        }
        if directed && self.neighbors_view(a, Direction::Incoming).contains(b) {
            let x = choose|x: int|
                0 <= x < list.len() && (#[trigger] list[x]).0 == b && (!directed || list[x].1
                    == Direction::Incoming);
            assert(entry_has_edge(directed, keys, a, list[x]));
        }
        // Every edge is listed.
        let key = edge_key_of(directed, a, b);
        if keys.contains(key) {
            assert(edge_has_entries(directed, nodes, lists, key));
            if listing(nodes, lists, a).contains((b, Direction::Outgoing)) {
                let x = choose|x: int|
                    0 <= x < list.len() && list[x] == (b, Direction::Outgoing);
                assert(list[x].0 == b);
            }
            if a != b && listing(nodes, lists, a).contains((b, Direction::Incoming)) {
                let x = choose|x: int|
                    0 <= x < list.len() && list[x] == (b, Direction::Incoming);
                assert(list[x].0 == b);
            }
        }
        if directed && keys.contains((b, a)) && a != b {
            assert(edge_has_entries(directed, nodes, lists, (b, a)));
            let x = choose|x: int| 0 <= x < list.len() && list[x] == (b, Direction::Incoming);
            assert(list[x].0 == b);
        }
    }

    /// The neighbours that the adjacency list of `a` names in the direction
    /// `dir`; all of them where edges have no direction.
    fn neighbor_list(&self, a: NodeKey, dir: Direction) -> (r: Vec<NodeKey>)
        requires
            self.wf(),
        ensures
            r@ == self.neighbors_view(a, dir),
    {
        match pair_set_get_index_of(&self.nodes, a) {
            Some(place) => {
                proof {
                    assert(pair_set_items(self.nodes).contains(a));
                    assert(pair_set_items(self.nodes).index_of(a) == place as int);
                }
                choose_entries(&self.adjacency[place], Ty::is_directed(), dir)
            },
            None => Vec::new(),
        }
    }

    /// Return all nodes with an edge starting from `a`, one after the
    /// other.
    ///
    /// - `Directed`: Outgoing edges from `a`.
    /// - `Undirected`: All edges from or to `a`.
    ///
    /// There are none where the node doesn't exist.
    pub fn neighbors(&self, a: NodeKey) -> (r: Neighbors<Ty>)
        requires
            self.wf(),
        ensures
            r.remaining() == self.neighbors_view(a, Direction::Outgoing),
    {
        let entries = self.neighbor_list(a, Direction::Outgoing);
        let r = Neighbors { entries, position: 0, ty: PhantomData };
        assert(r.remaining() =~= entries@);
        r
    }

    /// Return all neighbors that have an edge between them and `a`, in the
    /// specified direction, one after the other.
    /// If the graph's edges are undirected, this is equivalent to *.neighbors(a)*.
    ///
    /// - `Directed`, `Outgoing`: All edges from `a`.
    /// - `Directed`, `Incoming`: All edges to `a`.
    /// - `Undirected`: All edges from or to `a`.
    ///
    /// There are none where the node doesn't exist.
    pub fn neighbors_directed(&self, a: NodeKey, dir: Direction) -> (r: NeighborsDirected<Ty>)
        requires
            self.wf(),
        ensures
            r.remaining() == self.neighbors_view(a, dir),
            r.direction() == dir,
    {
        let entries = self.neighbor_list(a, dir);
        let r = NeighborsDirected { entries, position: 0, dir, ty: PhantomData };
        assert(r.remaining() =~= entries@);
        r
    }

    /// Return a reference to the edge weight connecting `a` with `b`, or
    /// `None` if the edge does not exist in the graph.
    pub fn edge_weight(&self, a: NodeKey, b: NodeKey) -> (r: Option<&E>)
        requires
            self.wf(),
        ensures
            match r {
                Some(w) => self.edges_view().contains_key(edge_key_of(Ty::directed(), a, b))
                    && *w == self.edges_view()[edge_key_of(Ty::directed(), a, b)],
                None => !self.edges_view().contains_key(edge_key_of(Ty::directed(), a, b)),
            },
    {
        match edge_set_get_index_of(&self.edges, Self::edge_key(a, b)) {
            Some(i) => {
                proof {
                    let keys = edge_set_items(self.edges);
                    let k = edge_key_of(Ty::directed(), a, b);
                    assert(keys.contains(k));
                    assert(keys.index_of(k) == i as int);
                }
                Some(&self.weights[i])
            },
            None => None,
        }
    }
}

impl<E: Copy, Ty: EdgeType> GraphMap<E, Ty> {
    /// The edges from `from` with their weights, as `edges` returns them.
    pub open spec fn edges_from_view(&self, from: NodeKey) -> Seq<(NodeKey, NodeKey, E)> {
        Seq::new(
            self.neighbors_view(from, Direction::Outgoing).len(),
            |i: int|
                (
                    from,
                    self.neighbors_view(from, Direction::Outgoing)[i],
                    self.edges_view()[edge_key_of(
                        Ty::directed(),
                        from,
                        self.neighbors_view(from, Direction::Outgoing)[i],
                    )],
                ),
        )
    }

    /// Return the target nodes with an edge starting from `from`, each
    /// with `from` before it and the weight of the edge after it.
    ///
    /// - `Directed`: Outgoing edges from `from`.
    /// - `Undirected`: All edges from or to `from`.
    ///
    /// There are none where the node doesn't exist.
    pub fn edges(&self, from: NodeKey) -> (r: Vec<(NodeKey, NodeKey, E)>)
        requires
            self.wf(),
        ensures
            r@ == self.edges_from_view(from),
    {
        let targets = self.neighbor_list(from, Direction::Outgoing);
        let mut out: Vec<(NodeKey, NodeKey, E)> = Vec::with_capacity(targets.len());
        let mut i: usize = 0;
        while i < targets.len()
            invariant
                self.wf(),
                i <= targets@.len(),
                targets@ == self.neighbors_view(from, Direction::Outgoing),
                out@ == self.edges_from_view(from).take(i as int),
            decreases targets.len() - i,
        {
            let to = targets[i];
            proof {
                assert(targets@.contains(to));
                self.lemma_neighbors(from, to);
            }
            match self.edge_weight(from, to) {
                Some(weight) => {
                    out.push((from, to, *weight));
                    assert(self.edges_from_view(from).take(i + 1) == self.edges_from_view(from).take(
                        i as int,
                    ).push((from, to, *weight)));
                },
                // Not reached: every neighbour is the end of an edge.
                None => {},
            }
            i = i + 1;
        }
        assert(self.edges_from_view(from).take(targets@.len() as int) == self.edges_from_view(from));
        out
    }

    /// Return a mutable reference to the edge weight connecting `a` with `b`, or
    /// `None` if the edge does not exist in the graph. Whatever is written
    /// through the reference becomes the weight of the edge; nothing else
    /// changes.
    pub fn edge_weight_mut(&mut self, a: NodeKey, b: NodeKey) -> (r: Option<&mut E>)
        requires
            old(self).wf(),
        ensures
            final(self).wf(),
            final(self).nodes_view() == old(self).nodes_view(),
            final(self).edge_keys() == old(self).edge_keys(),
            forall|n: NodeKey| #[trigger]
                final(self).adjacency_view(n) == old(self).adjacency_view(n),
            match r {
                Some(w) => {
                    &&& old(self).edges_view().contains_key(edge_key_of(Ty::directed(), a, b))
                    &&& *w == old(self).edges_view()[edge_key_of(Ty::directed(), a, b)]
                    &&& final(self).edges_view() == old(self).edges_view().insert(
                        edge_key_of(Ty::directed(), a, b),
                        *final(w),
                    )
                },
                None => {
                    &&& !old(self).edges_view().contains_key(edge_key_of(Ty::directed(), a, b))
                    &&& final(self).edges_view() == old(self).edges_view()
                },
            },
    {
        match edge_set_get_index_of(&self.edges, Self::edge_key(a, b)) {
            Some(i) => {
                proof {
                    let keys = edge_set_items(self.edges);
                    let k = edge_key_of(Ty::directed(), a, b);
                    assert(keys.contains(k));
                    assert(keys.index_of(k) == i as int);
                }
                Some(&mut self.weights[i])
            },
            None => None,
        }
    }

    /// Every edge as its two ends and its weight, in the order in which the
    /// edges were first inserted.
    pub closed spec fn all_edges_view(&self) -> Seq<(NodeKey, NodeKey, E)> {
        Seq::new(
            edge_set_items(self.edges).len(),
            |i: int| (edge_set_items(self.edges)[i].0, edge_set_items(self.edges)[i].1, self.weights@[i]),
        )
    }

    /// Each entry of `all_edges_view` is an edge of the graph with its
    /// weight, and every edge has its entry, at the place of its key.
    pub proof fn lemma_all_edges(&self)
        requires
            self.wf(),
        ensures
            self.all_edges_view().len() == self.edge_keys().len(),
            forall|i: int|
                0 <= i < self.edge_keys().len() ==> {
                    let e = #[trigger] self.all_edges_view()[i];
                    &&& (e.0, e.1) == self.edge_keys()[i]
                    &&& self.edges_view().contains_key((e.0, e.1))
                    &&& self.edges_view()[(e.0, e.1)] == e.2
                },
    {
        assert forall|i: int| 0 <= i < self.edge_keys().len() implies {
            let e = #[trigger] self.all_edges_view()[i];
            &&& (e.0, e.1) == self.edge_keys()[i]
            &&& self.edges_view().contains_key((e.0, e.1))
            &&& self.edges_view()[(e.0, e.1)] == e.2
        } by {
            let keys = edge_set_items(self.edges);
            assert(keys.contains(keys[i]));
            assert(keys.index_of(keys[i]) == i);
        }
    }

    /// Return all edges of the graph with their weight, in the order in
    /// which they were first inserted.
    pub fn all_edges(&self) -> (r: Vec<(NodeKey, NodeKey, E)>)
        requires
            self.wf(),
        ensures
            r@ == self.all_edges_view(),
    {
        let n = edge_set_len(&self.edges);
        let mut out: Vec<(NodeKey, NodeKey, E)> = Vec::with_capacity(n);
        let mut i: usize = 0;
        while i < n
            invariant
                self.wf(),
                n == edge_set_items(self.edges).len(),
                i <= n,
                out@ == self.all_edges_view().take(i as int),
            decreases n - i,
        {
            match edge_set_get_index(&self.edges, i) {
                Some(key) => {
                    out.push((key.0, key.1, self.weights[i]));
                    assert(self.all_edges_view().take(i + 1) == self.all_edges_view().take(
                        i as int,
                    ).push((key.0, key.1, self.weights@[i as int])));
                },
                // Not reached: the place is in range.
                None => {},
            }
            i = i + 1;
        }
        assert(self.all_edges_view().take(n as int) == self.all_edges_view());
        out
    }

    /// Create a new `GraphMap` from a list of edges.
    ///
    /// Nodes are inserted automatically to match the edges.
    pub fn from_edges(list: &Vec<(NodeKey, NodeKey, E)>) -> (g: Self)
        ensures
            g.wf(),
            g.edges_view() == edges_from(Ty::directed(), list@),
            g.nodes_view() == nodes_from(list@),
            g.edge_keys() == keys_extended(Ty::directed(), Seq::empty(), list@),
    {
        let mut g = Self::with_capacity(0, list.len());
        g.extend(list);
        g
    }

    /// Extend the graph from a list of edges.
    ///
    /// Nodes are inserted automatically to match the edges.
    pub fn extend(&mut self, list: &Vec<(NodeKey, NodeKey, E)>)
        requires
            old(self).wf(),
        ensures
            final(self).wf(),
            final(self).edges_view() == edges_extended(
                Ty::directed(),
                old(self).edges_view(),
                list@,
            ),
            final(self).nodes_view() == nodes_extended(old(self).nodes_view(), list@),
            final(self).edge_keys() == keys_extended(Ty::directed(), old(self).edge_keys(), list@),
    {
        let ghost before = *self;
        let mut i: usize = 0;
        while i < list.len()
            invariant
                self.wf(),
                i <= list.len(),
                self.edges_view() == edges_extended(
                    Ty::directed(),
                    before.edges_view(),
                    list@.take(i as int),
                ),
                self.nodes_view() == nodes_extended(before.nodes_view(), list@.take(i as int)),
                self.edge_keys() == keys_extended(
                    Ty::directed(),
                    before.edge_keys(),
                    list@.take(i as int),
                ),
            decreases list.len() - i,
        {
            let (a, b, w) = list[i];
            let _ = self.add_edge(a, b, w);
            proof {
                assert(list@.take(i + 1).drop_last() == list@.take(i as int));
            }
            i = i + 1;
        }
        assert(list@.take(list.len() as int) == list@);
    }
}

/// The ends of the edges with the keys `keys`, each once, in the order in
/// which the keys bring them up: the nodes of a graph that was given these
/// edges and no nodes beside.
pub open spec fn endpoints(keys: Seq<EdgeKey>) -> Seq<NodeKey>
    decreases keys.len(),
{
    if keys.len() == 0 {
        Seq::empty()
    } else {
        with_item(with_item(endpoints(keys.drop_last()), keys.last().0), keys.last().1)
    }
}

/// The edge keys that result from inserting the edges of `list`, in turn,
/// into a graph with the edge keys `keys`.
pub open spec fn keys_extended<E>(directed: bool, keys: Seq<EdgeKey>, list: Seq<(NodeKey, NodeKey, E)>) -> Seq<
    EdgeKey,
>
    decreases list.len(),
{
    if list.len() == 0 {
        keys
    } else {
        with_item(
            keys_extended(directed, keys, list.drop_last()),
            edge_key_of(directed, list.last().0, list.last().1),
        )
    }
}

/// The edge map that results from inserting the edges of `list`, in turn,
/// into `edges`.
pub open spec fn edges_extended<E>(
    directed: bool,
    edges: Map<EdgeKey, E>,
    list: Seq<(NodeKey, NodeKey, E)>,
) -> Map<EdgeKey, E>
    decreases list.len(),
{
    if list.len() == 0 {
        edges
    } else {
        edges_extended(directed, edges, list.drop_last()).insert(
            edge_key_of(directed, list.last().0, list.last().1),
            list.last().2,
        )
    }
}

/// The nodes that result from inserting the edges of `list`, in turn, into
/// a graph with the nodes `nodes`.
pub open spec fn nodes_extended<E>(nodes: Seq<NodeKey>, list: Seq<(NodeKey, NodeKey, E)>) -> Seq<
    NodeKey,
>
    decreases list.len(),
{
    if list.len() == 0 {
        nodes
    } else {
        with_item(with_item(nodes_extended(nodes, list.drop_last()), list.last().0), list.last().1)
    }
}

/// The edge map of the graph made of the edges of `list` alone.
pub open spec fn edges_from<E>(directed: bool, list: Seq<(NodeKey, NodeKey, E)>) -> Map<
    EdgeKey,
    E,
> {
    edges_extended(directed, Map::empty(), list)
}

/// The nodes of the graph made of the edges of `list` alone.
pub open spec fn nodes_from<E>(list: Seq<(NodeKey, NodeKey, E)>) -> Seq<NodeKey> {
    nodes_extended(Seq::empty(), list)
}

} // verus!
