//! Edge kinds and edge directions.

use crate::graph::node::NodeIndex;
use crate::graph::IndexType;
use vstd::prelude::*;

verus! {

/// Edge identifier.
#[derive(Clone, Copy, Debug, Default, PartialEq, Eq, PartialOrd, Ord, Hash)]
pub struct EdgeIndex<Ix>(pub Ix);

impl<Ix: IndexType> EdgeIndex<Ix> {
    /// The number that the identifier stands for.
    pub open spec fn value(&self) -> nat {
        self.0.value()
    }

    pub fn new(x: usize) -> (r: Self)
        ensures
            r.value() == x as nat % (Ix::limit() + 1),
    {
        EdgeIndex(Ix::new(x))
    }

    pub fn index(self) -> (r: usize)
        ensures
            r == self.value(),
    {
        self.0.index()
    }

    /// The identifier that stands for no edge: the end of a list.
    pub fn end() -> (r: Self)
        ensures
            r.value() == Ix::limit(),
    {
        EdgeIndex(Ix::max())
    }
}

/// Short version of `EdgeIndex::new`
pub fn edge_index<Ix: IndexType>(index: usize) -> (r: EdgeIndex<Ix>)
    ensures
        r.value() == index as nat % (Ix::limit() + 1),
{
    EdgeIndex::new(index)
}

/// The graph's edge type.
#[derive(Debug)]
pub struct Edge<E, Ix: IndexType> {
    /// Associated edge data.
    pub weight: E,
    /// Next edge in outgoing and incoming edge lists.
    pub next: [EdgeIndex<Ix>; 2],
    /// Start and End node index
    pub node: [NodeIndex<Ix>; 2],
}

impl<E, Ix: IndexType> Edge<E, Ix> {
    /// An edge from `a` to `b` that is in no list yet.
    pub fn new(a: NodeIndex<Ix>, b: NodeIndex<Ix>, weight: E) -> (r: Self)
        ensures
            r.weight == weight,
            r.node[0] == a,
            r.node[1] == b,
            r.next[0].value() == Ix::limit(),
            r.next[1].value() == Ix::limit(),
    {
        Self { weight, node: [a, b], next: [EdgeIndex::end(), EdgeIndex::end()] }
    }

    /// Accessor for data structure internals: the next edge for the given direction.
    pub fn next_edge(&self, dir: Direction) -> (r: EdgeIndex<Ix>)
        ensures
            r == match dir {
                Direction::Outgoing => self.next[0],
                Direction::Incoming => self.next[1],
            },
    {
        self.next[dir.index()]
    }

    /// Return the source node index.
    pub fn source(&self) -> (r: NodeIndex<Ix>)
        ensures
            r == self.node[0],
    {
        self.node[0]
    }

    /// Return the target node index.
    pub fn target(&self) -> (r: NodeIndex<Ix>)
        ensures
            r == self.node[1],
    {
        self.node[1]
    }
}

/// Convert an element like `(i, j)` or `(i, j, w)` into
/// a triple of source, target, edge weight.
pub trait IntoWeightedEdge<E>: Sized {
    type NodeId;

    /// The triple that the element stands for.
    spec fn weighted_edge(self) -> (Self::NodeId, Self::NodeId, E);

    fn into_weighted_edge(self) -> (r: (Self::NodeId, Self::NodeId, E))
        ensures
            r == self.weighted_edge(),
    ;
}

impl<Ix, E> IntoWeightedEdge<E> for (Ix, Ix, E) {
    type NodeId = Ix;

    open spec fn weighted_edge(self) -> (Ix, Ix, E) {
        self
    }

    fn into_weighted_edge(self) -> (r: (Ix, Ix, E)) {
        self
    }
}

impl<'a, Ix, E: Copy> IntoWeightedEdge<E> for (Ix, Ix, &'a E) {
    type NodeId = Ix;

    open spec fn weighted_edge(self) -> (Ix, Ix, E) {
        (self.0, self.1, *self.2)
    }

    fn into_weighted_edge(self) -> (r: (Ix, Ix, E)) {
        let (a, b, c) = self;
        (a, b, *c)
    }
}

impl<'a, Ix: Copy, E: Copy> IntoWeightedEdge<E> for &'a (Ix, Ix, E) {
    type NodeId = Ix;

    open spec fn weighted_edge(self) -> (Ix, Ix, E) {
        *self
    }

    fn into_weighted_edge(self) -> (r: (Ix, Ix, E)) {
        *self
    }
}

/// Edge direction.
#[derive(Clone, Copy, Debug, PartialEq, Eq, Structural)]
pub enum Direction {
    /// An `Outgoing` edge is an outward edge *from* the current node.
    Outgoing,
    /// An `Incoming` edge is an inbound edge *to* the current node.
    Incoming,
}

impl Direction {
    /// Return the opposite `Direction`.
    pub fn opposite(&self) -> (r: Direction)
        ensures
            r != *self,
            r == match *self {
                Direction::Outgoing => Direction::Incoming,
                Direction::Incoming => Direction::Outgoing,
            },
    {
        match *self {
            Direction::Outgoing => Direction::Incoming,
            Direction::Incoming => Direction::Outgoing,
        }
    }

    /// Return `0` for `Outgoing` and `1` for `Incoming`.
    pub fn index(&self) -> (r: usize)
        ensures
            r == match *self {
                Direction::Outgoing => 0usize,
                Direction::Incoming => 1usize,
            },
    {
        match *self {
            Direction::Outgoing => 0,
            Direction::Incoming => 1,
        }
    }
}

/// A graph's edge type determines whether it has directed edges or not.
pub trait EdgeType {
    /// Whether edges of this kind have a direction.
    spec fn directed() -> bool;

    fn is_directed() -> (r: bool)
        ensures
            r == Self::directed(),
    ;
}

/// Marker type for a directed graph. Its one value is never needed: the
/// type alone says what kind of graph it is.
#[derive(Clone, Copy, Debug)]
pub enum Directed {
    Directed,
}

/// Marker type for an undirected graph. Its one value is never needed: the
/// type alone says what kind of graph it is.
#[derive(Clone, Copy, Debug)]
pub enum Undirected {
    Undirected,
}

impl EdgeType for Directed {
    open spec fn directed() -> bool {
        true
    }

    fn is_directed() -> (r: bool) {
        true
    }
}

impl EdgeType for Undirected {
    open spec fn directed() -> bool {
        false
    }

    fn is_directed() -> (r: bool) {
        false
    }
}

} // verus!
