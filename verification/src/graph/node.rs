//! Graph Node representation.

use crate::graph::edge::{Direction, EdgeIndex};
use crate::graph::IndexType;
use std::marker::PhantomData;
use std::ops::Range;
use vstd::prelude::*;

verus! {

/// Node identifier.
#[derive(Clone, Copy, Debug, Default, PartialEq, Eq, PartialOrd, Ord, Hash)]
pub struct NodeIndex<Ix>(pub Ix);

impl<Ix: IndexType> NodeIndex<Ix> {
    /// The number that the identifier stands for.
    pub open spec fn value(&self) -> nat {
        self.0.value()
    }

    pub fn new(x: usize) -> (r: Self)
        ensures
            r.value() == x as nat % (Ix::limit() + 1),
    {
        NodeIndex(Ix::new(x))
    }

    pub fn index(self) -> (r: usize)
        ensures
            r == self.value(),
    {
        self.0.index()
    }

    /// The identifier that stands for no node.
    pub fn end() -> (r: Self)
        ensures
            r.value() == Ix::limit(),
    {
        NodeIndex(Ix::max())
    }
}

/// Short version of `NodeIndex::new`
pub fn node_index<Ix: IndexType>(index: usize) -> (r: NodeIndex<Ix>)
    ensures
        r.value() == index as nat % (Ix::limit() + 1),
{
    NodeIndex::new(index)
}

/// The graph's node type.
#[derive(Debug)]
pub struct Node<N, Ix> {
    /// Associated node name.
    pub name: N,
    /// Next edge in outgoing and incoming edge lists.
    pub next: [EdgeIndex<Ix>; 2],
}

impl<N, Ix: IndexType> Node<N, Ix> {
    /// Accessor for data structure internals: the first edge in the given direction.
    pub fn next_edge(&self, dir: Direction) -> (r: EdgeIndex<Ix>)
        ensures
            r == match dir {
                Direction::Outgoing => self.next[0],
                Direction::Incoming => self.next[1],
            },
    {
        self.next[dir.index()]
    }

    /// A node without edges.
    pub fn new(name: N) -> (r: Self)
        ensures
            r.name == name,
            r.next[0].value() == Ix::limit(),
            r.next[1].value() == Ix::limit(),
    {
        Self { name, next: [EdgeIndex::end(), EdgeIndex::end()] }
    }
}

/// The node indices of a graph, from a first one up to a last one.
#[derive(Debug)]
pub struct NodeIndices<Ix> {
    r: Range<usize>,
    ty: PhantomData<Ix>,
}

impl<Ix: IndexType> NodeIndices<Ix> {
    /// The numbers whose indices are still to come: from the first, up to
    /// the last but not including it.
    pub closed spec fn remaining(&self) -> Range<usize> {
        self.r
    }

    pub fn new(range: Range<usize>) -> (r: Self)
        ensures
            r.remaining() == range,
    {
        Self { r: range, ty: PhantomData }
    }

    /// The next index, if one is left.
    pub fn next(&mut self) -> (r: Option<NodeIndex<Ix>>)
        ensures
            match r {
                Some(index) => {
                    &&& old(self).remaining().start < old(self).remaining().end
                    &&& index.value() == old(self).remaining().start as nat % (Ix::limit() + 1)
                    &&& final(self).remaining().start == old(self).remaining().start + 1
                    &&& final(self).remaining().end == old(self).remaining().end
                },
                None => {
                    &&& old(self).remaining().start >= old(self).remaining().end
                    &&& final(self).remaining() == old(self).remaining()
                },
            },
    {
        if self.r.start < self.r.end {
            let at = self.r.start;
            self.r.start = at + 1;
            Some(node_index(at))
        } else {
            None
        }
    }
}

} // verus!
