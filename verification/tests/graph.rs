use exchange_rate_path::graph::edge::{Direction, Edge, EdgeIndex, IntoWeightedEdge};
use exchange_rate_path::graph::node::{Node, NodeIndex, NodeIndices};
use exchange_rate_path::graph::{edge_index, node_index, DiGraphMap, Graph, UnGraphMap};

const A: (u32, u32) = (1, 1);
const B: (u32, u32) = (1, 2);
const C: (u32, u32) = (1, 3);
const D: (u32, u32) = (1, 4);

#[test]
fn check() {
    let mut graph: DiGraphMap<f32> = DiGraphMap::with_capacity(4, 6);
    graph.add_edge(A, B, 2.0);

    assert_eq!(graph.node_count(), 2);
    assert_eq!(graph.edge_count(), 1);
    assert!(graph.contains_edge(A, B));
    assert!(!graph.contains_edge(B, A));

    graph.add_edge(A, C, 1.2);
    graph.add_edge(A, D, 4.2);
    graph.add_edge(B, C, 0.2);
    graph.add_edge(B, D, 3.3);
    graph.add_edge(C, B, 12.2);

    // Check numbers of nodes and edges.
    assert_eq!(graph.node_count(), 4);
    assert_eq!(graph.edge_count(), 6);

    // Check edges weight.
    assert_eq!(graph.edge_weight(A, B), Some(&2.0));
    assert_eq!(graph.edge_weight(A, C), Some(&1.2));

    // Update and check edge weight.
    graph.add_edge(A, B, 4.4);

    assert_eq!(graph.edge_weight(A, B), Some(&4.4));

    // Try to get edge weight for non-existing edge.
    let weight = graph.edge_weight(C, D);

    assert_eq!(weight, None);
}

#[test]
fn add_edge_twice_overwrites() {
    let mut graph: DiGraphMap<f32> = DiGraphMap::new();

    assert_eq!(graph.add_edge(A, B, 1.5), None);
    let count = graph.edge_count();
    assert_eq!(graph.add_edge(A, B, 2.5), Some(1.5));

    assert_eq!(graph.edge_weight(A, B), Some(&2.5));
    assert_eq!(graph.edge_count(), count);
    assert_eq!(graph.node_count(), 2);
}

#[test]
fn self_loop_is_one_node_and_one_edge() {
    let mut graph: DiGraphMap<f32> = DiGraphMap::new();
    graph.add_edge(A, A, 1.0);

    assert_eq!(graph.node_count(), 1);
    assert_eq!(graph.edge_count(), 1);
    assert!(graph.contains_edge(A, A));
    assert!(graph.contains_node(A));
    assert!(!graph.contains_node(B));
}

#[test]
fn nodes_and_edges_come_in_the_order_of_insertion() {
    let mut graph: DiGraphMap<f32> = DiGraphMap::new();
    graph.add_edge(C, A, 1.0);
    graph.add_edge(A, B, 2.0);
    graph.add_edge(C, A, 3.0);
    graph.add_node(D);
    graph.add_node(A);

    assert_eq!(graph.nodes(), vec![C, A, B, D]);
    assert_eq!(graph.all_edges(), vec![(C, A, 3.0), (A, B, 2.0)]);
    assert!(graph.is_directed());
}

#[test]
fn undirected_edge_is_the_same_both_ways() {
    let mut graph: UnGraphMap<f32> = UnGraphMap::new();

    assert_eq!(graph.add_edge(B, A, 1.0), None);
    assert_eq!(graph.add_edge(A, B, 2.0), Some(1.0));

    assert!(!graph.is_directed());
    assert_eq!(graph.edge_count(), 1);
    assert_eq!(graph.edge_weight(A, B), Some(&2.0));
    assert_eq!(graph.edge_weight(B, A), Some(&2.0));
    assert_eq!(UnGraphMap::<f32>::edge_key(B, A), (A, B));
    assert_eq!(UnGraphMap::<f32>::edge_key((2, 1), (1, 9)), ((1, 9), (2, 1)));
    assert_eq!(DiGraphMap::<f32>::edge_key(B, A), (B, A));
    assert_eq!(graph.nodes(), vec![B, A]);
}

#[test]
fn clear_and_extend() {
    let mut graph = DiGraphMap::<f32>::from_edges(&vec![(A, B, 1.0), (B, C, 2.0)]);
    graph.extend(&vec![(A, B, 5.0), (C, D, 3.0)]);

    assert_eq!(graph.edge_count(), 3);
    assert_eq!(graph.node_count(), 4);
    assert_eq!(graph.edge_weight(A, B), Some(&5.0));

    graph.clear();

    assert_eq!(graph.edge_count(), 0);
    assert_eq!(graph.node_count(), 0);
    assert!(!graph.contains_edge(A, B));
}

#[test]
fn capacity_hints_change_nothing() {
    let mut small: DiGraphMap<f32> = DiGraphMap::with_capacity(0, 0);
    let mut large: DiGraphMap<f32> = DiGraphMap::with_capacity(usize::MAX, usize::MAX);
    small.add_edge(A, B, 1.0);
    large.add_edge(A, B, 1.0);

    assert_eq!(small.nodes(), large.nodes());
    assert_eq!(small.all_edges(), large.all_edges());
}

#[test]
fn direction_opposite_and_index() {
    assert_eq!(Direction::Outgoing.opposite(), Direction::Incoming);
    assert_eq!(Direction::Incoming.opposite(), Direction::Outgoing);
    assert_eq!(Direction::Outgoing.index(), 0);
    assert_eq!(Direction::Incoming.index(), 1);
}

#[test]
fn indices_wrap_to_their_type() {
    assert_eq!(NodeIndex::<u8>::new(5).index(), 5);
    assert_eq!(NodeIndex::<u8>::new(261).index(), 5);
    assert_eq!(NodeIndex::<u16>::new(65536 + 7).index(), 7);
    assert_eq!(NodeIndex::<u32>::new(9).index(), 9);
    assert_eq!(NodeIndex::<usize>::new(usize::MAX).index(), usize::MAX);
    assert_eq!(NodeIndex::<u8>::end().index(), 255);
    assert_eq!(EdgeIndex::<u16>::end().index(), 65535);
    assert_eq!(EdgeIndex::<u32>::new(12).index(), 12);
    assert_eq!(node_index::<u32>(3), NodeIndex::<u32>::new(3));
    assert_eq!(edge_index::<u32>(3), EdgeIndex::<u32>::new(3));
    assert_eq!(exchange_rate_path::graph::node::node_index::<u8>(256).index(), 0);
    assert_eq!(exchange_rate_path::graph::edge::edge_index::<u8>(257).index(), 1);
}

#[test]
fn adjacency_list_graph_numbers_its_nodes() {
    let mut graph: Graph<u64, f32, u8> = Graph::with_capacity(2, 2);

    assert_eq!(graph.add_node(70).index(), 0);
    assert_eq!(graph.add_node(80).index(), 1);
    assert_eq!(graph.node_count(), 2);
    assert_eq!(graph.edge_count(), 0);
    assert_eq!(Graph::<u64, f32, u32>::new().node_count(), 0);
}

#[test]
fn node_and_edge_start_outside_every_list() {
    let node: Node<u64, u8> = Node::new(7);
    assert_eq!(node.name, 7);
    assert_eq!(node.next_edge(Direction::Outgoing), EdgeIndex::end());
    assert_eq!(node.next_edge(Direction::Incoming), EdgeIndex::end());

    let edge: Edge<f32, u8> = Edge::new(NodeIndex::new(1), NodeIndex::new(2), 0.5);
    assert_eq!(edge.source(), NodeIndex::new(1));
    assert_eq!(edge.target(), NodeIndex::new(2));
    assert_eq!(edge.next_edge(Direction::Outgoing), EdgeIndex::end());
    assert_eq!(edge.next_edge(Direction::Incoming), EdgeIndex::end());
}

#[test]
fn node_indices_run_over_their_range() {
    let mut indices: NodeIndices<u8> = NodeIndices::new(254..257);

    assert_eq!(indices.next().map(|i| i.index()), Some(254));
    assert_eq!(indices.next().map(|i| i.index()), Some(255));
    assert_eq!(indices.next().map(|i| i.index()), Some(0));
    assert_eq!(indices.next().map(|i| i.index()), None);
    assert_eq!(indices.next().map(|i| i.index()), None);
}

#[test]
fn weighted_edge_of_a_triple_is_the_triple() {
    assert_eq!((A, B, 0.5).into_weighted_edge(), (A, B, 0.5));
    assert_eq!((A, B, &0.5).into_weighted_edge(), (A, B, 0.5));
    assert_eq!((&(A, B, 0.5)).into_weighted_edge(), (A, B, 0.5));
}

fn all<Ty: exchange_rate_path::graph::edge::EdgeType>(
    mut neighbors: exchange_rate_path::graph::Neighbors<Ty>,
) -> Vec<(u32, u32)> {
    let mut out = Vec::new();
    while let Some(n) = neighbors.next() {
        out.push(n);
    }
    out
}

fn all_directed<Ty: exchange_rate_path::graph::edge::EdgeType>(
    mut neighbors: exchange_rate_path::graph::NeighborsDirected<Ty>,
) -> Vec<(u32, u32)> {
    let mut out = Vec::new();
    while let Some(n) = neighbors.next() {
        out.push(n);
    }
    out
}

#[test]
fn neighbors_follow_the_edges() {
    let mut graph: DiGraphMap<f32> = DiGraphMap::new();
    graph.add_edge(A, B, 1.0);
    graph.add_edge(C, A, 2.0);
    graph.add_edge(A, D, 3.0);
    graph.add_edge(A, A, 4.0);
    graph.add_edge(A, B, 5.0);

    assert_eq!(all(graph.neighbors(A)), vec![B, D, A]);
    assert_eq!(all(graph.neighbors(B)), Vec::<(u32, u32)>::new());
    assert_eq!(all(graph.neighbors((9, 9))), Vec::<(u32, u32)>::new());
    assert_eq!(all_directed(graph.neighbors_directed(A, Direction::Outgoing)), vec![B, D, A]);
    assert_eq!(all_directed(graph.neighbors_directed(A, Direction::Incoming)), vec![C]);
    assert_eq!(all_directed(graph.neighbors_directed(B, Direction::Incoming)), vec![A]);
    assert_eq!(graph.edges(A), vec![(A, B, 5.0), (A, D, 3.0), (A, A, 4.0)]);
    assert_eq!(graph.edges(B), Vec::<((u32, u32), (u32, u32), f32)>::new());
}

#[test]
fn undirected_neighbors_are_both_ends() {
    let mut graph: UnGraphMap<f32> = UnGraphMap::new();
    graph.add_edge(B, A, 1.0);
    graph.add_edge(A, C, 2.0);

    assert_eq!(all(graph.neighbors(A)), vec![B, C]);
    assert_eq!(all(graph.neighbors(B)), vec![A]);
    assert_eq!(all_directed(graph.neighbors_directed(A, Direction::Incoming)), vec![B, C]);
    assert_eq!(graph.edges(A), vec![(A, B, 1.0), (A, C, 2.0)]);
}

#[test]
fn edge_weight_mut_writes_the_weight() {
    let mut graph: DiGraphMap<f32> = DiGraphMap::default();
    graph.add_edge(A, B, 1.0);

    if let Some(weight) = graph.edge_weight_mut(A, B) {
        *weight = 7.5;
    }

    assert_eq!(graph.edge_weight(A, B), Some(&7.5));
    assert_eq!(graph.edge_weight_mut(B, A), None);
    assert_eq!(graph.edge_count(), 1);
    assert_eq!(graph.nodes(), vec![A, B]);
}
