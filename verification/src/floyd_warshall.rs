//! Floyd-Warshall algorithm.
//!
//! The engine is generic in how two weights are folded into one and in when a
//! new weight replaces an old one, so that it serves shortest paths (add,
//! smaller) as well as best compounded rates (multiply, greater).

use crate::floyd_warshall::result::{FloydWarshallResult, Tables};
use crate::graph::{endpoints, DiGraphMap, EdgeKey, NodeKey};
use std::cmp::Ordering;
use std::marker::PhantomData;
use vstd::prelude::*;
use vstd::std_specs::cmp::PartialOrdSpec;
use vstd::std_specs::ops::AddSpec;

pub mod laws;
pub mod result;

verus! {

/// `op` and `better` may be called on every pair of weights.
pub open spec fn callable<E, Op: Fn(E, E) -> E, Better: Fn(E, E) -> bool>(
    op: Op,
    better: Better,
) -> bool {
    &&& forall|x: E, y: E| call_requires(op, (x, y))
    &&& forall|x: E, y: E| call_requires(better, (x, y))
}

/// `combine` and `replaces` say what `op` and `better` return: whatever a
/// call returns is what the function gives for the same two weights.
pub open spec fn models<E, Op: Fn(E, E) -> E, Better: Fn(E, E) -> bool>(
    op: Op,
    better: Better,
    combine: spec_fn(E, E) -> E,
    replaces: spec_fn(E, E) -> bool,
) -> bool {
    &&& forall|x: E, y: E, z: E| call_ensures(op, (x, y), z) ==> z == combine(x, y)
    &&& forall|x: E, y: E, b: bool| call_ensures(better, (x, y), b) ==> b == replaces(x, y)
}

/// The tables before any relaxation: each edge with its own weight, and its
/// target as the first hop.
pub open spec fn initial_tables<E>(edges: Map<EdgeKey, E>) -> Tables<E> {
    Tables { path: edges, next: Map::new(|e: EdgeKey| edges.contains_key(e), |e: EdgeKey| e.1) }
}

/// Whether the triple is left out: loops are discarded and two of the three
/// nodes coincide.
pub open spec fn discarded(discard_loops: bool, k: NodeKey, i: NodeKey, j: NodeKey) -> bool {
    discard_loops && (k == i || k == j || i == j)
}

/// One relaxation: the path from `i` to `j` through `k`. Where both parts
/// have a weight, and the pair has none yet or the combined weight replaces
/// it, the pair takes the combined weight, and as first hop the first hop
/// from `i` toward `k`.
pub open spec fn relax<E>(
    op: spec_fn(E, E) -> E,
    better: spec_fn(E, E) -> bool,
    discard_loops: bool,
    t: Tables<E>,
    k: NodeKey,
    i: NodeKey,
    j: NodeKey,
) -> Tables<E> {
    if discarded(discard_loops, k, i, j) {
        t
    } else if !t.path.contains_key((i, k)) || !t.path.contains_key((k, j)) {
        t
    } else {
        let candidate = op(t.path[(i, k)], t.path[(k, j)]);
        if !t.path.contains_key((i, j)) || better(candidate, t.path[(i, j)]) {
            Tables {
                path: t.path.insert((i, j), candidate),
                next: t.next.insert((i, j), t.next[(i, k)]),
            }
        } else {
            t
        }
    }
}

/// The relaxations through `k` from `i` toward the first `count` nodes.
pub open spec fn relax_targets<E>(
    op: spec_fn(E, E) -> E,
    better: spec_fn(E, E) -> bool,
    discard_loops: bool,
    t: Tables<E>,
    nodes: Seq<NodeKey>,
    k: NodeKey,
    i: NodeKey,
    count: nat,
) -> Tables<E>
    decreases count,
{
    if count == 0 {
        t
    } else {
        relax(
            op,
            better,
            discard_loops,
            relax_targets(op, better, discard_loops, t, nodes, k, i, (count - 1) as nat),
            k,
            i,
            nodes[count - 1],
        )
    }
}

/// The relaxations through `k` from the first `count` nodes toward every
/// node.
pub open spec fn relax_sources<E>(
    op: spec_fn(E, E) -> E,
    better: spec_fn(E, E) -> bool,
    discard_loops: bool,
    t: Tables<E>,
    nodes: Seq<NodeKey>,
    k: NodeKey,
    count: nat,
) -> Tables<E>
    decreases count,
{
    if count == 0 {
        t
    } else {
        relax_targets(
            op,
            better,
            discard_loops,
            relax_sources(op, better, discard_loops, t, nodes, k, (count - 1) as nat),
            nodes,
            k,
            nodes[count - 1],
            nodes.len(),
        )
    }
}

/// The relaxations through the first `count` nodes, from every node toward
/// every node.
pub open spec fn relax_through<E>(
    op: spec_fn(E, E) -> E,
    better: spec_fn(E, E) -> bool,
    discard_loops: bool,
    t: Tables<E>,
    nodes: Seq<NodeKey>,
    count: nat,
) -> Tables<E>
    decreases count,
{
    if count == 0 {
        t
    } else {
        relax_sources(
            op,
            better,
            discard_loops,
            relax_through(op, better, discard_loops, t, nodes, (count - 1) as nat),
            nodes,
            nodes[count - 1],
            nodes.len(),
        )
    }
}

/// The tables of the whole run: every node in turn as the node in between,
/// for every source and every target, in the order of `nodes`.
pub open spec fn best_tables<E>(
    op: spec_fn(E, E) -> E,
    better: spec_fn(E, E) -> bool,
    discard_loops: bool,
    nodes: Seq<NodeKey>,
    edges: Map<EdgeKey, E>,
) -> Tables<E> {
    relax_through(op, better, discard_loops, initial_tables(edges), nodes, nodes.len())
}

/// Every pair with a weight has a first hop, and the other way round.
pub open spec fn aligned<E>(t: Tables<E>) -> bool {
    forall|e: EdgeKey| #[trigger] t.path.contains_key(e) == t.next.contains_key(e)
}

/// One relaxation keeps the two tables aligned.
pub proof fn lemma_relax_aligned<E>(
    op: spec_fn(E, E) -> E,
    better: spec_fn(E, E) -> bool,
    discard_loops: bool,
    t: Tables<E>,
    k: NodeKey,
    i: NodeKey,
    j: NodeKey,
)
    requires
        aligned(t),
    ensures
        aligned(relax(op, better, discard_loops, t, k, i, j)),
{
}

/// The two tables hold the same entry, or none, for the pair from `a` to
/// `b`.
pub open spec fn same_entry<E>(s: Tables<E>, t: Tables<E>, a: NodeKey, b: NodeKey) -> bool {
    &&& s.path.contains_key((a, b)) == t.path.contains_key((a, b))
    &&& s.path.contains_key((a, b)) ==> s.path[(a, b)] == t.path[(a, b)]
    &&& s.next.contains_key((a, b)) == t.next.contains_key((a, b))
    &&& s.next.contains_key((a, b)) ==> s.next[(a, b)] == t.next[(a, b)]
}

/// The two tables hold the same entries for every pair of two different
/// nodes.
pub open spec fn same_off_loops<E>(s: Tables<E>, t: Tables<E>) -> bool {
    forall|a: NodeKey, b: NodeKey| a != b ==> #[trigger] same_entry(s, t, a, b)
}

/// The two tables hold the same entries for every pair of a node with
/// itself.
pub open spec fn same_on_loops<E>(s: Tables<E>, t: Tables<E>) -> bool {
    forall|a: NodeKey| #[trigger] same_entry(s, t, a, a)
}

/// Where loops are discarded, a triple with a repeated node changes nothing:
/// neither a self loop's weight nor any other takes part in a relaxation
/// through its own end.
pub proof fn lemma_degenerate_triple_skipped<E>(
    op: spec_fn(E, E) -> E,
    better: spec_fn(E, E) -> bool,
    t: Tables<E>,
    k: NodeKey,
    i: NodeKey,
    j: NodeKey,
)
    requires
        k == i || k == j || i == j,
    ensures
        relax(op, better, true, t, k, i, j) == t,
{
}

/// Where loops are discarded, one relaxation reads and writes only entries
/// of pairs of two different nodes: tables that agree on those still do
/// afterwards, and the entries of self loops stay as they were.
pub proof fn lemma_relax_ignores_loops<E>(
    op: spec_fn(E, E) -> E,
    better: spec_fn(E, E) -> bool,
    s: Tables<E>,
    t: Tables<E>,
    k: NodeKey,
    i: NodeKey,
    j: NodeKey,
)
    requires
        aligned(s),
        aligned(t),
        same_off_loops(s, t),
    ensures
        same_off_loops(relax(op, better, true, s, k, i, j), relax(op, better, true, t, k, i, j)),
        same_on_loops(relax(op, better, true, s, k, i, j), s),
{
    let s1 = relax(op, better, true, s, k, i, j);
    let t1 = relax(op, better, true, t, k, i, j);
    if !discarded(true, k, i, j) {
        assert(s.path.contains_key((i, k)) == s.next.contains_key((i, k)));
        assert(t.path.contains_key((i, k)) == t.next.contains_key((i, k)));
        assert(same_entry(s, t, i, k));
        assert(same_entry(s, t, k, j));
        assert(same_entry(s, t, i, j));
    }
    assert forall|a: NodeKey, b: NodeKey| a != b implies #[trigger] same_entry(s1, t1, a, b) by {
        assert(same_entry(s, t, a, b));
    }
    assert forall|a: NodeKey| #[trigger] same_entry(s1, s, a, a) by {}
}

/// The edge keys after one relaxation: the pair from `i` to `j` is new at
/// the end where it gets its first weight, and nothing changes otherwise.
pub open spec fn relax_keys(
    discard_loops: bool,
    keys: Seq<EdgeKey>,
    k: NodeKey,
    i: NodeKey,
    j: NodeKey,
) -> Seq<EdgeKey> {
    if !discarded(discard_loops, k, i, j) && keys.contains((i, k)) && keys.contains((k, j))
        && !keys.contains((i, j)) {
        keys.push((i, j))
    } else {
        keys
    }
}

/// The edge keys after the relaxations through `k` from `i` toward the
/// first `count` nodes.
pub open spec fn keys_targets(
    discard_loops: bool,
    keys: Seq<EdgeKey>,
    nodes: Seq<NodeKey>,
    k: NodeKey,
    i: NodeKey,
    count: nat,
) -> Seq<EdgeKey>
    decreases count,
{
    if count == 0 {
        keys
    } else {
        relax_keys(
            discard_loops,
            keys_targets(discard_loops, keys, nodes, k, i, (count - 1) as nat),
            k,
            i,
            nodes[count - 1],
        )
    }
}

/// The edge keys after the relaxations through `k` from the first `count`
/// nodes toward every node.
pub open spec fn keys_sources(
    discard_loops: bool,
    keys: Seq<EdgeKey>,
    nodes: Seq<NodeKey>,
    k: NodeKey,
    count: nat,
) -> Seq<EdgeKey>
    decreases count,
{
    if count == 0 {
        keys
    } else {
        keys_targets(
            discard_loops,
            keys_sources(discard_loops, keys, nodes, k, (count - 1) as nat),
            nodes,
            k,
            nodes[count - 1],
            nodes.len(),
        )
    }
}

/// The edge keys after the relaxations through the first `count` nodes.
pub open spec fn keys_through(
    discard_loops: bool,
    keys: Seq<EdgeKey>,
    nodes: Seq<NodeKey>,
    count: nat,
) -> Seq<EdgeKey>
    decreases count,
{
    if count == 0 {
        keys
    } else {
        keys_sources(
            discard_loops,
            keys_through(discard_loops, keys, nodes, (count - 1) as nat),
            nodes,
            nodes[count - 1],
            nodes.len(),
        )
    }
}

/// The edge keys of both tables after a whole run, in their order: those of
/// the graph, and then each pair that got a weight, in the order in which
/// the pairs got their first weights.
pub open spec fn best_keys(discard_loops: bool, nodes: Seq<NodeKey>, keys: Seq<EdgeKey>) -> Seq<
    EdgeKey,
> {
    keys_through(discard_loops, keys, nodes, nodes.len())
}

/// Floyd-Warshall algorithm structure.
pub struct FloydWarshall<E, Op, Better> {
    /// Operator to be used for weighted edges.
    op: Op,
    /// Comparison to be used for weighted paths.
    better: Better,
    /// Discard loops (e.g. edges starting and ending in the same node) from calculation.
    discard_loops: bool,
    weight: PhantomData<E>,
}

/// The sum of two weights.
pub open spec fn sum<E: core::ops::Add<Output = E>>() -> spec_fn(E, E) -> E {
    |x: E, y: E| x.add_spec(y)
}

/// Whether the first weight is less than the second.
pub open spec fn less<E: PartialOrd>() -> spec_fn(E, E) -> bool {
    |x: E, y: E| x.partial_cmp_spec(&y) == Some(Ordering::Less)
}

impl<E: Copy + core::ops::Add<Output = E> + PartialOrd> FloydWarshall<E, (), ()> {
    /// Create a new instance of FloydWarshall structure with default
    /// settings, those of shortest paths: weights add up, the smaller sum
    /// is the better one, and loops are discarded.
    pub fn new() -> (r: FloydWarshall<E, impl Fn(E, E) -> E, impl Fn(E, E) -> bool>)
        ensures
            r.discards_loops(),
            (forall|x: E, y: E| #[trigger] x.add_req(y)) ==> callable(
                r.operator(),
                r.comparison(),
            ),
            E::obeys_add_spec() && E::obeys_partial_cmp_spec() ==> models(
                r.operator(),
                r.comparison(),
                sum::<E>(),
                less::<E>(),
            ),
    {
        // Initialize defaults.
        let add = |x: E, y: E| -> (z: E)
            requires
                x.add_req(y),
            ensures
                E::obeys_add_spec() ==> z == x.add_spec(y),
            { x + y };
        let sharp_less = |x: E, y: E| -> (b: bool)
            ensures
                E::obeys_partial_cmp_spec() ==> b == (x.partial_cmp_spec(&y) == Some(
                    Ordering::Less,
                )),
            { x < y };
        FloydWarshall::new_fully_customized(add, sharp_less, true)
    }
}

impl<E: Copy, Op: Fn(E, E) -> E, Better: Fn(E, E) -> bool> FloydWarshall<E, Op, Better> {
    /// The operator that folds two weights into one.
    pub closed spec fn operator(&self) -> Op {
        self.op
    }

    /// The comparison that says when a new weight replaces an old one.
    pub closed spec fn comparison(&self) -> Better {
        self.better
    }

    /// Whether triples with a repeated node are left out.
    pub closed spec fn discards_loops(&self) -> bool {
        self.discard_loops
    }

    /// Create a new instance of FloydWarshall structure with customized settings.
    ///
    /// You can set:
    /// - the `op` (operator) to be used for weighted edges
    /// - the `better` (comparison) to be used for weighted paths
    pub fn new_customized(op: Op, better: Better) -> (r: Self)
        ensures
            r.operator() == op,
            r.comparison() == better,
            r.discards_loops(),
    {
        Self::new_fully_customized(op, better, true)
    }

    /// Create a new instance of FloydWarshall structure with customized settings.
    ///
    /// You can set:
    /// - the `op` (operator) to be used for weighted edges
    /// - the `better` (comparison) to be used for weighted paths
    /// - the `discard_loops` to discard loops (e.g. edges starting and ending in the same node)
    ///   from calculation.
    pub fn new_fully_customized(op: Op, better: Better, discard_loops: bool) -> (r: Self)
        ensures
            r.operator() == op,
            r.comparison() == better,
            r.discards_loops() == discard_loops,
    {
        Self { op, better, discard_loops, weight: PhantomData }
    }

    /// Are the three nodes pairwise distinct (no duplicates present).
    fn unique(k: NodeKey, i: NodeKey, j: NodeKey) -> (r: bool)
        ensures
            r == (k != i && k != j && i != j),
    {
        let k_is_i = k.0 == i.0 && k.1 == i.1;
        let k_is_j = k.0 == j.0 && k.1 == j.1;
        let i_is_j = i.0 == j.0 && i.1 == j.1;
        !k_is_i && !k_is_j && !i_is_j
    }

    /// The best weight and the first hop for every ordered pair of nodes
    /// that some path connects.
    ///
    /// The graph itself is left as it is: the weights are relaxed in a copy.
    pub fn find_paths(&self, graph: &DiGraphMap<E>) -> (r: FloydWarshallResult<E>)
        requires
            graph.wf(),
            callable(self.operator(), self.comparison()),
        ensures
            r.wf(),
            r.path.nodes_view() == graph.nodes_view(),
            r.next.nodes_view() == endpoints(graph.edge_keys()),
            r.path.edge_keys() == best_keys(
                self.discards_loops(),
                graph.nodes_view(),
                graph.edge_keys(),
            ),
            r.next.edge_keys() == r.path.edge_keys(),
            forall|combine: spec_fn(E, E) -> E, replaces: spec_fn(E, E) -> bool| #[trigger]
                models(self.operator(), self.comparison(), combine, replaces) ==> r.tables()
                    == best_tables(
                    combine,
                    replaces,
                    self.discards_loops(),
                    graph.nodes_view(),
                    graph.edges_view(),
                ),
    {
        let mut path: DiGraphMap<E> = copy_of(graph);
        let mut next: DiGraphMap<NodeKey> = first_hops(graph);
        let nodes = graph.nodes();
        let n = nodes.len();
        let ghost start = initial_tables(graph.edges_view());
        let ghost keys0 = graph.edge_keys();
        let ghost dl = self.discard_loops;
        assert(next.edges_view() =~= start.next);

        // `k` is the "intermediate" node which is currently considered.
        let mut kk: usize = 0;
        while kk < n
            invariant
                kk <= n,
                n == nodes@.len(),
                nodes@ == graph.nodes_view(),
                dl == self.discard_loops,
                callable(self.operator(), self.comparison()),
                path.wf(),
                next.wf(),
                path.nodes_view() == graph.nodes_view(),
                next.nodes_view() == endpoints(graph.edge_keys()),
                keys0 == graph.edge_keys(),
                path.edge_keys() == keys_through(dl, keys0, nodes@, kk as nat),
                next.edge_keys() == path.edge_keys(),
                path.edges_view().dom() =~= next.edges_view().dom(),
                forall|f: spec_fn(E, E) -> E, g: spec_fn(E, E) -> bool| #[trigger]
                    models(self.op, self.better, f, g) ==> (Tables {
                        path: path.edges_view(),
                        next: next.edges_view(),
                    }) == relax_through(f, g, dl, start, nodes@, kk as nat),
            decreases n - kk,
        {
            let k = nodes[kk];

            // `i` is a starting node of the path we try to optimize.
            let mut ii: usize = 0;
            while ii < n
                invariant
                    kk < n,
                    ii <= n,
                    n == nodes@.len(),
                    k == nodes@[kk as int],
                    nodes@ == graph.nodes_view(),
                    dl == self.discard_loops,
                    callable(self.operator(), self.comparison()),
                    path.wf(),
                    next.wf(),
                    path.nodes_view() == graph.nodes_view(),
                    next.nodes_view() == endpoints(graph.edge_keys()),
                    keys0 == graph.edge_keys(),
                    path.edge_keys() == keys_sources(
                        dl,
                        keys_through(dl, keys0, nodes@, kk as nat),
                        nodes@,
                        k,
                        ii as nat,
                    ),
                    next.edge_keys() == path.edge_keys(),
                    path.edges_view().dom() =~= next.edges_view().dom(),
                    forall|f: spec_fn(E, E) -> E, g: spec_fn(E, E) -> bool| #[trigger]
                        models(self.op, self.better, f, g) ==> (Tables {
                            path: path.edges_view(),
                            next: next.edges_view(),
                        }) == relax_sources(
                            f,
                            g,
                            dl,
                            relax_through(f, g, dl, start, nodes@, kk as nat),
                            nodes@,
                            k,
                            ii as nat,
                        ),
                decreases n - ii,
            {
                let i = nodes[ii];

                // `j` is an end node of the path we try to optimize.
                let mut jj: usize = 0;
                while jj < n
                    invariant
                        kk < n,
                        ii < n,
                        jj <= n,
                        n == nodes@.len(),
                        k == nodes@[kk as int],
                        i == nodes@[ii as int],
                        nodes@ == graph.nodes_view(),
                        dl == self.discard_loops,
                        callable(self.operator(), self.comparison()),
                        path.wf(),
                        next.wf(),
                        path.nodes_view() == graph.nodes_view(),
                        next.nodes_view() == endpoints(graph.edge_keys()),
                        keys0 == graph.edge_keys(),
                        path.edge_keys() == keys_targets(
                            dl,
                            keys_sources(
                                dl,
                                keys_through(dl, keys0, nodes@, kk as nat),
                                nodes@,
                                k,
                                ii as nat,
                            ),
                            nodes@,
                            k,
                            i,
                            jj as nat,
                        ),
                        next.edge_keys() == path.edge_keys(),
                        path.edges_view().dom() =~= next.edges_view().dom(),
                        forall|f: spec_fn(E, E) -> E, g: spec_fn(E, E) -> bool| #[trigger]
                            models(self.op, self.better, f, g) ==> (Tables {
                                path: path.edges_view(),
                                next: next.edges_view(),
                            }) == relax_targets(
                                f,
                                g,
                                dl,
                                relax_sources(
                                    f,
                                    g,
                                    dl,
                                    relax_through(f, g, dl, start, nodes@, kk as nat),
                                    nodes@,
                                    k,
                                    ii as nat,
                                ),
                                nodes@,
                                k,
                                i,
                                jj as nat,
                            ),
                    decreases n - jj,
                {
                    let j = nodes[jj];
                    self.relax_pair(&mut path, &mut next, k, i, j);
                    jj = jj + 1;
                }
                ii = ii + 1;
            }
            kk = kk + 1;
        }
        FloydWarshallResult::new(path, next)
    }

    /// Relax the path from `i` to `j` through `k` in the two tables.
    fn relax_pair(
        &self,
        path: &mut DiGraphMap<E>,
        next: &mut DiGraphMap<NodeKey>,
        k: NodeKey,
        i: NodeKey,
        j: NodeKey,
    )
        requires
            old(path).wf(),
            old(next).wf(),
            callable(self.operator(), self.comparison()),
            old(path).nodes_view().contains(i),
            old(path).nodes_view().contains(j),
            old(path).edges_view().dom() =~= old(next).edges_view().dom(),
            old(next).edge_keys() == old(path).edge_keys(),
        ensures
            final(path).wf(),
            final(next).wf(),
            final(path).edge_keys() == relax_keys(
                self.discards_loops(),
                old(path).edge_keys(),
                k,
                i,
                j,
            ),
            final(next).edge_keys() == final(path).edge_keys(),
            final(path).nodes_view() == old(path).nodes_view(),
            final(next).nodes_view() == old(next).nodes_view(),
            final(path).edges_view().dom() =~= final(next).edges_view().dom(),
            forall|f: spec_fn(E, E) -> E, g: spec_fn(E, E) -> bool| #[trigger]
                models(self.operator(), self.comparison(), f, g) ==> (Tables {
                    path: final(path).edges_view(),
                    next: final(next).edges_view(),
                }) == relax(
                    f,
                    g,
                    self.discards_loops(),
                    Tables { path: old(path).edges_view(), next: old(next).edges_view() },
                    k,
                    i,
                    j,
                ),
    {
        proof {
            path.lemma_wf();
            let keys = path.edge_keys();
            assert(keys.contains((i, k)) == path.edges_view().dom().contains((i, k)));
            assert(keys.contains((k, j)) == path.edges_view().dom().contains((k, j)));
            assert(keys.contains((i, j)) == path.edges_view().dom().contains((i, j)));
        }
        // Skip calculation for loops if requested.
        if self.discard_loops && !Self::unique(k, i, j) {
            return ;
        }
        // Calculation of a new weight of the path from `i` to `j` through `k`.
        // There's nothing to calculate if the left `(i, k)` or right `(k, j)` path misses.
        let left_operand: E = match path.edge_weight(i, k) {
            Some(w) => *w,
            None => {
                return ;
            },
        };
        let right_operand: E = match path.edge_weight(k, j) {
            Some(w) => *w,
            None => {
                return ;
            },
        };
        // Use the weight operator. It can be customized.
        let new_weight = (self.op)(left_operand, right_operand);
        let replace = match path.edge_weight(i, j) {
            // The `(i, j)` path already exists: use the comparison. It can be customized.
            Some(old_weight) => (self.better)(new_weight, *old_weight),
            // The path was missing so add a new one.
            None => true,
        };
        if replace {
            let direction: NodeKey = match next.edge_weight(i, k) {
                Some(d) => *d,
                // Not reached: every pair with a weight has a first hop.
                None => {
                    proof {
                        assert(old(path).edges_view().dom().contains((i, k)));
                        assert(old(next).edges_view().dom().contains((i, k)));
                    }
                    return ;
                },
            };
            let ghost nodes_before = path.nodes_view();
            proof {
                next.lemma_wf();
                assert(next.edges_view().contains_key((i, k)));
                assert(next.edges_view().dom().contains((k, j)));
                assert(next.edges_view().contains_key((k, j)));
                assert(next.nodes_view().contains(i));
                assert(next.nodes_view().contains(j));
            }
            let _ = path.add_edge(i, j, new_weight);
            let _ = next.add_edge(i, j, direction);
            proof {
                assert(path.nodes_view() == nodes_before);
                assert(path.edges_view().dom() =~= next.edges_view().dom());
            }
        }
    }
}

/// A graph with the nodes and the weighted edges of `graph`.
fn copy_of<E: Copy>(graph: &DiGraphMap<E>) -> (g: DiGraphMap<E>)
    requires
        graph.wf(),
    ensures
        g.wf(),
        g.nodes_view() == graph.nodes_view(),
        g.edge_keys() == graph.edge_keys(),
        g.edges_view() == graph.edges_view(),
{
    let nodes = graph.nodes();
    let edges = graph.all_edges();
    let mut g: DiGraphMap<E> = DiGraphMap::with_capacity(nodes.len(), edges.len());
    proof {
        graph.lemma_wf();
        graph.lemma_all_edges();
    }
    let mut i: usize = 0;
    while i < nodes.len()
        invariant
            i <= nodes@.len(),
            nodes@ == graph.nodes_view(),
            nodes@.no_duplicates(),
            g.wf(),
            g.nodes_view() == nodes@.take(i as int),
            g.edge_keys() == Seq::<EdgeKey>::empty(),
            g.edges_view() == Map::<EdgeKey, E>::empty(),
        decreases nodes.len() - i,
    {
        let _ = g.add_node(nodes[i]);
        proof {
            let seen = nodes@.take(i as int);
            if seen.contains(nodes@[i as int]) {
                let p = choose|p: int| 0 <= p < seen.len() && seen[p] == nodes@[i as int];
                assert(nodes@[p] == nodes@[i as int]);
            }
            assert(nodes@.take(i + 1) == seen.push(nodes@[i as int]));
        }
        i = i + 1;
    }
    assert(nodes@.take(nodes@.len() as int) == nodes@);
    assert(graph.edge_keys().take(0) =~= Seq::<EdgeKey>::empty());
    let mut e: usize = 0;
    while e < edges.len()
        invariant
            e <= edges@.len(),
            graph.wf(),
            edges@ == graph.all_edges_view(),
            edges@.len() == graph.edge_keys().len(),
            forall|x: int|
                0 <= x < graph.edge_keys().len() ==> {
                    let t = #[trigger] graph.all_edges_view()[x];
                    &&& (t.0, t.1) == graph.edge_keys()[x]
                    &&& graph.edges_view().contains_key((t.0, t.1))
                    &&& graph.edges_view()[(t.0, t.1)] == t.2
                },
            forall|k: EdgeKey| #[trigger]
                graph.edges_view().contains_key(k) ==> graph.nodes_view().contains(k.0)
                    && graph.nodes_view().contains(k.1),
            graph.edges_view().dom() =~= graph.edge_keys().to_set(),
            g.wf(),
            g.nodes_view() == graph.nodes_view(),
            g.edge_keys() == graph.edge_keys().take(e as int),
            graph.edge_keys().no_duplicates(),
            g.edges_view().dom() =~= graph.edge_keys().take(e as int).to_set(),
            forall|k: EdgeKey| #[trigger]
                g.edges_view().contains_key(k) ==> g.edges_view()[k] == graph.edges_view()[k],
        decreases edges.len() - e,
    {
        let (a, b, w) = edges[e];
        let ghost t = graph.all_edges_view()[e as int];
        let ghost seen = graph.edge_keys().take(e as int);
        let _ = g.add_edge(a, b, w);
        proof {
            assert(t == (a, b, w));
            assert(graph.edge_keys().take(e + 1) == seen.push((a, b)));
            assert(seen.push((a, b)).to_set() =~= seen.to_set().insert((a, b))) by {
                assert forall|k: EdgeKey|
                    seen.push((a, b)).to_set().contains(k) == seen.to_set().insert(
                        (a, b),
                    ).contains(k) by {
                    if seen.contains(k) {
                        let p = choose|p: int| 0 <= p < seen.len() && seen[p] == k;
                        assert(seen.push((a, b))[p] == k);
                    }
                    if k == (a, b) {
                        assert(seen.push((a, b))[seen.len() as int] == k);
                    }
                    if seen.push((a, b)).contains(k) && k != (a, b) {
                        let p = choose|p: int|
                            0 <= p < seen.push((a, b)).len() && seen.push((a, b))[p] == k;
                        assert(seen[p] == k);
                    }
                }
            }
        }
        e = e + 1;
    }
    proof {
        assert(graph.edge_keys().take(edges@.len() as int) == graph.edge_keys());
        assert(g.edges_view() =~= graph.edges_view());
    }
    g
}

/// The first-hop table before any relaxation: over the nodes of `graph`,
/// each edge of `graph` with its own target as the first hop.
fn first_hops<E: Copy>(graph: &DiGraphMap<E>) -> (g: DiGraphMap<NodeKey>)
    requires
        graph.wf(),
    ensures
        g.wf(),
        g.edges_view() == initial_tables(graph.edges_view()).next,
        g.nodes_view() == endpoints(graph.edge_keys()),
        g.edge_keys() == graph.edge_keys(),
{
    let edges = graph.all_edges();
    let mut g: DiGraphMap<NodeKey> = DiGraphMap::with_capacity(
        graph.node_count(),
        graph.edge_count(),
    );
    proof {
        graph.lemma_wf();
        graph.lemma_all_edges();
    }
    let mut e: usize = 0;
    while e < edges.len()
        invariant
            e <= edges@.len(),
            graph.wf(),
            edges@ == graph.all_edges_view(),
            edges@.len() == graph.edge_keys().len(),
            forall|x: int|
                0 <= x < graph.edge_keys().len() ==> {
                    let t = #[trigger] graph.all_edges_view()[x];
                    &&& (t.0, t.1) == graph.edge_keys()[x]
                },
            graph.edges_view().dom() =~= graph.edge_keys().to_set(),
            g.wf(),
            g.nodes_view() == endpoints(graph.edge_keys().take(e as int)),
            g.edge_keys() == graph.edge_keys().take(e as int),
            graph.edge_keys().no_duplicates(),
            g.edges_view().dom() =~= graph.edge_keys().take(e as int).to_set(),
            forall|k: EdgeKey| #[trigger] g.edges_view().contains_key(k) ==> g.edges_view()[k] == k.1,
        decreases edges.len() - e,
    {
        let (a, b, _w) = edges[e];
        let ghost t = graph.all_edges_view()[e as int];
        let ghost seen = graph.edge_keys().take(e as int);
        let _ = g.add_edge(a, b, b);
        proof {
            assert(t.0 == a && t.1 == b);
            assert(graph.edge_keys().take(e + 1) == seen.push((a, b)));
            assert(seen.push((a, b)).drop_last() == seen);
            assert(seen.push((a, b)).to_set() =~= seen.to_set().insert((a, b))) by {
                assert forall|k: EdgeKey|
                    seen.push((a, b)).to_set().contains(k) == seen.to_set().insert(
                        (a, b),
                    ).contains(k) by {
                    if seen.contains(k) {
                        let p = choose|p: int| 0 <= p < seen.len() && seen[p] == k;
                        assert(seen.push((a, b))[p] == k);
                    }
                    if k == (a, b) {
                        assert(seen.push((a, b))[seen.len() as int] == k);
                    }
                    if seen.push((a, b)).contains(k) && k != (a, b) {
                        let p = choose|p: int|
                            0 <= p < seen.push((a, b)).len() && seen.push((a, b))[p] == k;
                        assert(seen[p] == k);
                    }
                }
            }
        }
        e = e + 1;
    }
    proof {
        assert(graph.edge_keys().take(edges@.len() as int) == graph.edge_keys());
        assert(g.edges_view() =~= initial_tables(graph.edges_view()).next);
    }
    g
}

} // verus!
