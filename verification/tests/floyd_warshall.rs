use exchange_rate_path::floyd_warshall::result::FloydWarshallResult;
use exchange_rate_path::floyd_warshall::FloydWarshall;
use exchange_rate_path::graph::DiGraphMap;
use std::cmp::Ordering::{Greater, Less};

// The nodes of these tests, by their letters.
const A: (u32, u32) = (1, 1);
const B: (u32, u32) = (1, 2);
const C: (u32, u32) = (1, 3);
const D: (u32, u32) = (1, 4);
const E: (u32, u32) = (1, 5);
const F: (u32, u32) = (1, 6);
const G: (u32, u32) = (1, 7);
const H: (u32, u32) = (1, 8);

#[test]
fn floyd_warshall_new() {
    let _alg = FloydWarshall::<f32, (), ()>::new();
}

#[test]
fn new_customized() {
    let mul = Box::new(|x: f32, y: f32| x + y);
    let sharp_greater = Box::new(|x: f32, y: f32| x.partial_cmp(&y).unwrap_or(Less) == Greater);

    let _alg: FloydWarshall<f32, _, _> = FloydWarshall::new_customized(mul, sharp_greater);
}

#[test]
fn new_fully_customized() {
    let mul = Box::new(|x: f32, y: f32| x + y);
    let sharp_less = Box::new(|x: f32, y: f32| x.partial_cmp(&y).unwrap_or(Greater) == Less);
    let discard_loops = false;

    let _alg: FloydWarshall<f32, _, _> =
        FloydWarshall::new_fully_customized(mul, sharp_less, discard_loops);
}

#[test]
fn find_paths() {
    let alg = FloydWarshall::<f32, (), ()>::new();

    let w_a_b = 0.12;
    let w_a_c = 1.99;
    let w_b_c = 3.0;
    let w_a_d = 2.1;
    let w_a_e = 0.9;
    let w_a_f = 4.44;
    let w_a_g = 0.8;
    let w_g_f = 0.6;
    let w_a_h = 0.8;
    let w_f_h = 1.0;

    let graph = DiGraphMap::<f32>::from_edges(&vec![
        (A, B, w_a_b),
        (A, C, w_a_c),
        (B, C, w_b_c),
        (A, D, w_a_d),
        (A, E, w_a_e),
        (A, F, w_a_f),
        (A, G, w_a_g),
        (G, F, w_g_f),
        (A, H, w_a_h),
        (F, H, w_f_h),
    ]);

    let result = alg.find_paths(&graph);

    let path = result.path;
    let next = result.next;

    // Test that the initial `(a, b)` edge is still the shortest path.
    assert_eq!(path.edge_weight(A, B), Some(&w_a_b));
    assert_eq!(next.edge_weight(A, B), Some(&B));

    // Test that the initial `(a, c)` edge is still the shortest path.
    assert_eq!(path.edge_weight(A, C), Some(&w_a_c));
    assert_eq!(next.edge_weight(A, C), Some(&C));

    // Test that a shorter path was found for the `(a, f)` and it is through `g`.
    assert_eq!(path.edge_weight(A, F), Some(&(w_a_g + w_g_f)));
}

#[test]
fn result_new() {
    let path: DiGraphMap<f32> = DiGraphMap::new();
    let rate: DiGraphMap<(u32, u32)> = DiGraphMap::new();

    let _result: FloydWarshallResult<f32> = FloydWarshallResult::new(path, rate);
}

#[test]
fn get_path_rate() {
    let mut path: DiGraphMap<f32> = DiGraphMap::new();
    let rate: DiGraphMap<(u32, u32)> = DiGraphMap::new();

    let a = A;
    let b = B;
    let weight = 12.4;

    path.add_edge(a, b, weight);

    let result: FloydWarshallResult<f32> = FloydWarshallResult::new(path, rate);

    assert_eq!(result.get_path_rate(a, b), Some(&weight));
}

#[test]
fn collect_path_nodes() {
    let mut path: DiGraphMap<f32> = DiGraphMap::new();
    let mut rate: DiGraphMap<(u32, u32)> = DiGraphMap::new();

    let w_a_b = 1.2;
    let w_a_c = 4.2;
    let w_b_d = 0.2;
    let w_c_d = 3.3;

    path.add_edge(A, B, w_a_b);
    path.add_edge(A, C, w_a_c);
    path.add_edge(B, D, w_b_d);
    path.add_edge(C, D, w_c_d);
    path.add_edge(A, D, w_a_b + w_b_d);

    rate.add_edge(A, B, B);
    rate.add_edge(A, C, C);
    rate.add_edge(B, D, D);
    rate.add_edge(C, D, D);
    rate.add_edge(A, D, D);

    rate.add_edge(A, D, B);
    rate.add_edge(B, D, D);

    let result: FloydWarshallResult<f32> = FloydWarshallResult::new(path, rate);

    // Test that path rate and nodes are returned right for the path `(a, b)`.
    assert_eq!(result.get_path_rate(A, B), Some(&w_a_b));
    assert_eq!(result.collect_path_nodes(A, B), vec![A, B]);

    // Test that path rate and nodes are returned right for the path `(a, d)`.
    assert_eq!(result.get_path_rate(A, D), Some(&(w_a_b + w_b_d)));
    assert_eq!(result.collect_path_nodes(A, D), vec![A, B, D]);
}

#[test]
fn collect_path_nodes_without_first_hop_is_empty() {
    let path: DiGraphMap<f32> = DiGraphMap::new();
    let mut next: DiGraphMap<(u32, u32)> = DiGraphMap::new();
    next.add_edge(A, B, B);
    let result = FloydWarshallResult::new(path, next);

    assert_eq!(result.collect_path_nodes(A, C), Vec::<(u32, u32)>::new());
}

#[test]
fn collect_path_nodes_of_a_self_loop() {
    let path: DiGraphMap<f32> = DiGraphMap::new();
    let mut next: DiGraphMap<(u32, u32)> = DiGraphMap::new();
    next.add_edge(A, A, A);
    let result = FloydWarshallResult::new(path, next);

    assert_eq!(result.collect_path_nodes(A, A), vec![A, A]);
}

#[test]
fn collect_path_nodes_stops_on_a_circle() {
    let path: DiGraphMap<f32> = DiGraphMap::new();
    let mut next: DiGraphMap<(u32, u32)> = DiGraphMap::new();
    // From `a` toward `d` the first hops lead from `b` to `c` and back.
    next.add_edge(A, D, B);
    next.add_edge(B, D, C);
    next.add_edge(C, D, B);
    let result = FloydWarshallResult::new(path, next);

    assert_eq!(result.collect_path_nodes(A, D), Vec::<(u32, u32)>::new());
}

#[test]
fn collect_path_nodes_ends_at_a_missing_hop() {
    let path: DiGraphMap<f32> = DiGraphMap::new();
    let mut next: DiGraphMap<(u32, u32)> = DiGraphMap::new();
    // `b` has no first hop toward `d`: the walk ends there.
    next.add_edge(A, D, B);
    let result = FloydWarshallResult::new(path, next);

    assert_eq!(result.collect_path_nodes(A, D), vec![A, B, D]);
}

#[test]
fn collect_path_nodes_takes_the_longest_walk_without_a_circle() {
    let path: DiGraphMap<f32> = DiGraphMap::new();
    let mut next: DiGraphMap<(u32, u32)> = DiGraphMap::new();
    // Every entry of the table lies on the walk from `a` to `e`.
    next.add_edge(A, E, B);
    next.add_edge(B, E, C);
    next.add_edge(C, E, D);
    next.add_edge(D, E, E);
    let result = FloydWarshallResult::new(path, next);

    assert_eq!(result.collect_path_nodes(A, E), vec![A, B, C, D, E]);
}

fn best_rate_engine() -> FloydWarshall<f32, impl Fn(f32, f32) -> f32, impl Fn(f32, f32) -> bool> {
    FloydWarshall::new_customized(|x: f32, y: f32| x * y, |x: f32, y: f32| x > y)
}

#[test]
fn find_paths_leaves_the_graph_as_it_is() {
    let graph = DiGraphMap::<f32>::from_edges(&vec![(A, B, 2.0), (B, C, 3.0), (A, C, 5.0)]);
    let result = best_rate_engine().find_paths(&graph);

    assert_eq!(graph.edge_weight(A, C), Some(&5.0));
    assert_eq!(graph.edge_count(), 3);
    assert_eq!(result.get_path_rate(A, C), Some(&6.0));
    assert_eq!(result.collect_path_nodes(A, C), vec![A, B, C]);
}

#[test]
fn find_paths_takes_the_first_hop_toward_the_node_between() {
    // The best way from `a` to `d` leads over `b` and `c`; the first hop is `b`, not `c`.
    let graph = DiGraphMap::<f32>::from_edges(&vec![(A, B, 2.0), (B, C, 2.0), (C, D, 2.0)]);
    let result = best_rate_engine().find_paths(&graph);

    assert_eq!(result.get_path_rate(A, D), Some(&8.0));
    assert_eq!(result.next.edge_weight(A, D), Some(&B));
    assert_eq!(result.collect_path_nodes(A, D), vec![A, B, C, D]);
}

#[test]
fn find_paths_keeps_the_old_weight_on_a_tie() {
    // The way over `b` is as good as the edge itself: better_than is strict.
    let graph = DiGraphMap::<f32>::from_edges(&vec![(A, C, 4.0), (A, B, 2.0), (B, C, 2.0)]);
    let result = best_rate_engine().find_paths(&graph);

    assert_eq!(result.get_path_rate(A, C), Some(&4.0));
    assert_eq!(result.collect_path_nodes(A, C), vec![A, C]);
}

#[test]
fn find_paths_is_never_worse_than_two_hops() {
    let graph = DiGraphMap::<f32>::from_edges(&vec![
        (A, B, 1.5),
        (B, C, 2.0),
        (A, C, 2.5),
        (C, D, 0.5),
        (B, D, 3.0),
        (D, A, 0.1),
    ]);
    let result = best_rate_engine().find_paths(&graph);
    let nodes = graph.nodes();

    for &i in nodes.iter() {
        for &j in nodes.iter() {
            for &k in nodes.iter() {
                if i == j || i == k || j == k {
                    continue;
                }
                if let (Some(&left), Some(&right)) = (graph.edge_weight(i, k), graph.edge_weight(k, j)) {
                    let best = *result.get_path_rate(i, j).unwrap();
                    assert!(!(left * right > best));
                }
            }
        }
    }
}

#[test]
fn find_paths_discards_triples_with_two_equal_nodes() {
    // A self loop at `a` that would double every rate out of `a`.
    let graph = DiGraphMap::<f32>::from_edges(&vec![(A, A, 2.0), (A, B, 3.0), (B, B, 5.0)]);
    let result = best_rate_engine().find_paths(&graph);

    // Neither `(k, i, j) = (a, a, b)` nor `(b, a, b)` was relaxed.
    assert_eq!(result.get_path_rate(A, B), Some(&3.0));
    // The self loops themselves stay as they were.
    assert_eq!(result.get_path_rate(A, A), Some(&2.0));
    assert_eq!(result.get_path_rate(B, B), Some(&5.0));
}

#[test]
fn find_paths_discards_triples_with_equal_ends() {
    // There and back again is no path from `a` to `a`.
    let graph = DiGraphMap::<f32>::from_edges(&vec![(A, B, 3.0), (B, A, 4.0)]);
    let result = best_rate_engine().find_paths(&graph);

    assert_eq!(result.get_path_rate(A, A), None);
    assert_eq!(result.get_path_rate(B, B), None);
}

#[test]
fn find_paths_relaxes_loops_when_asked_to() {
    let graph = DiGraphMap::<f32>::from_edges(&vec![(A, B, 3.0), (B, A, 4.0)]);
    let alg = FloydWarshall::new_fully_customized(|x: f32, y: f32| x * y, |x: f32, y: f32| x > y, false);
    let result = alg.find_paths(&graph);

    // Through `a`: `(b, a)` and `(a, b)` give `(b, b)` = 12. Through `b`: `(a, a)` = 12, then
    // each pair once more round the loop at `b`.
    assert_eq!(result.get_path_rate(A, A), Some(&12.0));
    assert_eq!(result.get_path_rate(A, B), Some(&36.0));
    assert_eq!(result.get_path_rate(B, A), Some(&48.0));
    assert_eq!(result.get_path_rate(B, B), Some(&144.0));
}

#[test]
fn find_paths_with_a_gainful_circle_has_a_broken_path() {
    // Going round between `a` and `b` gains; the first hops toward `c` run in a circle.
    let graph = DiGraphMap::<f32>::from_edges(&vec![
        (A, B, 2.0),
        (B, A, 2.0),
        (A, C, 1.0),
        (B, C, 1.0),
    ]);
    let result = best_rate_engine().find_paths(&graph);

    assert_eq!(result.next.edge_weight(A, C), Some(&B));
    assert_eq!(result.next.edge_weight(B, C), Some(&A));
    assert_eq!(result.collect_path_nodes(A, C), Vec::<(u32, u32)>::new());
}

#[test]
fn find_paths_lists_new_pairs_in_the_order_of_their_first_weights() {
    let graph = DiGraphMap::<f32>::from_edges(&vec![(C, A, 0.5), (A, B, 0.5), (B, C, 0.5)]);
    let result = best_rate_engine().find_paths(&graph);

    // Through `c`: from `b` to `a`. Through `a`: from `c` to `b`. Through `b`: from `a` to `c`.
    assert_eq!(result.path.nodes(), vec![C, A, B]);
    assert_eq!(
        result.path.all_edges(),
        vec![(C, A, 0.5), (A, B, 0.5), (B, C, 0.5), (B, A, 0.25), (C, B, 0.25), (A, C, 0.25)]
    );
    assert_eq!(
        result.next.all_edges(),
        vec![(C, A, A), (A, B, B), (B, C, C), (B, A, C), (C, B, A), (A, C, B)]
    );
}
