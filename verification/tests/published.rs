use exchange_rate_path::floyd_warshall::FloydWarshall;
use exchange_rate_path::graph::DiGraphMap;
use std::cmp::Ordering::{Greater, Less};

/// A small generator of numbers that look random and are the same in every run.
struct Numbers(u64);

impl Numbers {
    fn next(&mut self, below: u64) -> u64 {
        self.0 = self.0.wrapping_mul(6364136223846793005).wrapping_add(1442695040888963407);
        (self.0 >> 33) % below
    }
}

fn edge_lists() -> Vec<Vec<((u32, u32), (u32, u32), f32)>> {
    let mut numbers = Numbers(7);
    let mut lists = Vec::new();
    for size in 2..8u64 {
        for _ in 0..6 {
            let mut edges = Vec::new();
            for _ in 0..(size * 2) {
                let a = (1, numbers.next(size) as u32);
                let b = (1 + numbers.next(2) as u32, numbers.next(size) as u32);
                // Rates below one: no way round gains.
                let weight = (1 + numbers.next(9)) as f32 / 10.0;
                edges.push((a, b, weight));
            }
            lists.push(edges);
        }
    }
    lists
}

#[test]
fn graph_agrees_with_the_published_graph() {
    for edges in edge_lists() {
        let mut ours: DiGraphMap<f32> = DiGraphMap::new();
        let mut theirs: safe_graph::Graph<(u32, u32), f32> = safe_graph::Graph::new();
        for &(a, b, weight) in edges.iter() {
            assert_eq!(ours.add_edge(a, b, weight), theirs.add_edge(a, b, weight));
        }

        assert_eq!(ours.node_count(), theirs.node_count());
        assert_eq!(ours.edge_count(), theirs.edge_count());
        assert_eq!(ours.nodes(), theirs.nodes().collect::<Vec<_>>());
        assert_eq!(
            ours.all_edges(),
            theirs.all_edges().map(|(a, b, w)| (a, b, *w)).collect::<Vec<_>>()
        );
        for a in ours.nodes() {
            let mut neighbors = ours.neighbors(a);
            let mut listed = Vec::new();
            while let Some(n) = neighbors.next() {
                listed.push(n);
            }
            assert_eq!(listed, theirs.neighbors(a).collect::<Vec<_>>());
        }
    }
}

#[test]
fn engine_agrees_with_the_published_engine() {
    for edges in edge_lists() {
        let mut ours: DiGraphMap<f32> = DiGraphMap::new();
        let mut theirs: safe_graph::Graph<(u32, u32), f32> = safe_graph::Graph::new();
        for &(a, b, weight) in edges.iter() {
            ours.add_edge(a, b, weight);
            theirs.add_edge(a, b, weight);
        }

        let our_engine = FloydWarshall::new_customized(|x: f32, y: f32| x * y, |x: f32, y: f32| x > y);
        let their_engine = floyd_warshall_alg::FloydWarshall::new_customized(
            Box::new(|x: f32, y: f32| x * y),
            Box::new(|x: f32, y: f32| x.partial_cmp(&y).unwrap_or(Less) == Greater),
        );
        let our_result = our_engine.find_paths(&ours);
        let their_result = their_engine.find_paths(&theirs);

        assert_eq!(
            our_result.path.all_edges(),
            their_result.path.all_edges().map(|(a, b, w)| (a, b, *w)).collect::<Vec<_>>()
        );
        assert_eq!(
            our_result.next.all_edges(),
            their_result.next.all_edges().map(|(a, b, w)| (a, b, *w)).collect::<Vec<_>>()
        );
        assert_eq!(our_result.path.nodes(), their_result.path.nodes().collect::<Vec<_>>());
        assert_eq!(our_result.next.nodes(), their_result.next.nodes().collect::<Vec<_>>());
        for a in ours.nodes() {
            for b in ours.nodes() {
                assert_eq!(our_result.get_path_rate(a, b), their_result.get_path_rate(a, b));
                assert_eq!(
                    our_result.collect_path_nodes(a, b),
                    their_result.collect_path_nodes(a, b)
                );
            }
        }
    }
}
