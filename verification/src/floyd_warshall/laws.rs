//! What holds of the tables of a whole run.

use crate::floyd_warshall::result::{
    lemma_walk_limit_is_enough, path_middle, path_nodes, walk_limit_of, Tables,
};
use crate::floyd_warshall::{
    aligned, best_tables, discarded, initial_tables, lemma_relax_aligned,
    lemma_relax_ignores_loops, relax, relax_sources, relax_targets, relax_through, same_entry,
    same_off_loops, same_on_loops,
};
use crate::graph::{EdgeKey, NodeKey};
use vstd::prelude::*;

verus! {

/// Whether `inv` goes from one relaxation of a run over `nodes` to the
/// next. `inv(t, k, i, j)` speaks of the tables `t` before the relaxation at
/// the places `k`, `i` and `j` of the node in between, the source and the
/// target: each relaxation takes it to the next target, the last target to
/// the next source, and the last source to the next node in between.
pub open spec fn carries<E>(
    op: spec_fn(E, E) -> E,
    better: spec_fn(E, E) -> bool,
    discard_loops: bool,
    nodes: Seq<NodeKey>,
    inv: spec_fn(Tables<E>, int, int, int) -> bool,
) -> bool {
    &&& forall|t: Tables<E>, k: int, i: int, j: int|
        0 <= k < nodes.len() && 0 <= i < nodes.len() && 0 <= j < nodes.len() && #[trigger] inv(
            t,
            k,
            i,
            j,
        ) ==> inv(relax(op, better, discard_loops, t, nodes[k], nodes[i], nodes[j]), k, i, j + 1)
    &&& forall|t: Tables<E>, k: int, i: int|
        0 <= k < nodes.len() && 0 <= i < nodes.len() && #[trigger] inv(t, k, i, nodes.len() as int)
            ==> inv(t, k, i + 1, 0)
    &&& forall|t: Tables<E>, k: int|
        0 <= k < nodes.len() && #[trigger] inv(t, k, nodes.len() as int, 0) ==> inv(t, k + 1, 0, 0)
}

/// What goes from each relaxation to the next holds up to any target.
pub proof fn lemma_targets_carry<E>(
    op: spec_fn(E, E) -> E,
    better: spec_fn(E, E) -> bool,
    discard_loops: bool,
    nodes: Seq<NodeKey>,
    inv: spec_fn(Tables<E>, int, int, int) -> bool,
    t: Tables<E>,
    k: int,
    i: int,
    count: nat,
)
    requires
        carries(op, better, discard_loops, nodes, inv),
        0 <= k < nodes.len(),
        0 <= i < nodes.len(),
        count <= nodes.len(),
        inv(t, k, i, 0),
    ensures
        inv(
            relax_targets(op, better, discard_loops, t, nodes, nodes[k], nodes[i], count),
            k,
            i,
            count as int,
        ),
    decreases count,
{
    if count > 0 {
        lemma_targets_carry(op, better, discard_loops, nodes, inv, t, k, i, (count - 1) as nat);
    }
}

/// What goes from each relaxation to the next holds up to any source.
pub proof fn lemma_sources_carry<E>(
    op: spec_fn(E, E) -> E,
    better: spec_fn(E, E) -> bool,
    discard_loops: bool,
    nodes: Seq<NodeKey>,
    inv: spec_fn(Tables<E>, int, int, int) -> bool,
    t: Tables<E>,
    k: int,
    count: nat,
)
    requires
        carries(op, better, discard_loops, nodes, inv),
        0 <= k < nodes.len(),
        count <= nodes.len(),
        inv(t, k, 0, 0),
    ensures
        inv(
            relax_sources(op, better, discard_loops, t, nodes, nodes[k], count),
            k,
            count as int,
            0,
        ),
    decreases count,
{
    if count > 0 {
        lemma_sources_carry(op, better, discard_loops, nodes, inv, t, k, (count - 1) as nat);
        let before = relax_sources(
            op,
            better,
            discard_loops,
            t,
            nodes,
            nodes[k],
            (count - 1) as nat,
        );
        lemma_targets_carry(op, better, discard_loops, nodes, inv, before, k, count - 1, nodes.len());
    }
}

/// What goes from each relaxation to the next holds up to any node in
/// between, and so of the tables of the whole run.
pub proof fn lemma_run_carries<E>(
    op: spec_fn(E, E) -> E,
    better: spec_fn(E, E) -> bool,
    discard_loops: bool,
    nodes: Seq<NodeKey>,
    inv: spec_fn(Tables<E>, int, int, int) -> bool,
    t: Tables<E>,
    count: nat,
)
    requires
        carries(op, better, discard_loops, nodes, inv),
        count <= nodes.len(),
        inv(t, 0, 0, 0),
    ensures
        inv(relax_through(op, better, discard_loops, t, nodes, count), count as int, 0, 0),
    decreases count,
{
    if count > 0 {
        lemma_run_carries(op, better, discard_loops, nodes, inv, t, (count - 1) as nat);
        let before = relax_through(op, better, discard_loops, t, nodes, (count - 1) as nat);
        lemma_sources_carry(op, better, discard_loops, nodes, inv, before, count - 1, nodes.len());
    }
}

/// Both ends of every edge are among the nodes.
pub open spec fn grounded<E>(nodes: Seq<NodeKey>, edges: Map<EdgeKey, E>) -> bool {
    forall|e: EdgeKey| #[trigger] edges.contains_key(e) ==> nodes.contains(e.0) && nodes.contains(e.1)
}

/// What the tables of a run over the graph of `nodes` and `edges` keep at
/// every step: they are aligned; every edge has an entry; every entry joins
/// two nodes; and the first hop of every entry is the end of an edge from
/// the entry's source.
pub open spec fn shaped<E>(nodes: Seq<NodeKey>, edges: Map<EdgeKey, E>, t: Tables<E>) -> bool {
    &&& aligned(t)
    &&& forall|e: EdgeKey| #[trigger] edges.contains_key(e) ==> t.path.contains_key(e)
    &&& forall|e: EdgeKey| #[trigger]
        t.path.contains_key(e) ==> nodes.contains(e.0) && nodes.contains(e.1)
    &&& forall|e: EdgeKey| #[trigger] starts_on_edge(edges, t, e)
}

/// Whether the first hop of the entry `e`, if there is such an entry, is
/// the end of an edge from the entry's source.
pub open spec fn starts_on_edge<E>(edges: Map<EdgeKey, E>, t: Tables<E>, e: EdgeKey) -> bool {
    t.next.contains_key(e) ==> edges.contains_key((e.0, t.next[e]))
}

/// One relaxation between nodes keeps the tables in shape.
pub proof fn lemma_relax_shaped<E>(
    op: spec_fn(E, E) -> E,
    better: spec_fn(E, E) -> bool,
    discard_loops: bool,
    nodes: Seq<NodeKey>,
    edges: Map<EdgeKey, E>,
    t: Tables<E>,
    k: NodeKey,
    i: NodeKey,
    j: NodeKey,
)
    requires
        shaped(nodes, edges, t),
        nodes.contains(i),
        nodes.contains(j),
    ensures
        shaped(nodes, edges, relax(op, better, discard_loops, t, k, i, j)),
{
    let after = relax(op, better, discard_loops, t, k, i, j);
    if after != t {
        assert(t.path.contains_key((i, k)));
        assert(t.next.contains_key((i, k)));
        assert(starts_on_edge(edges, t, (i, k)));
        assert forall|e: EdgeKey| #[trigger] starts_on_edge(edges, after, e) by {
            assert(starts_on_edge(edges, t, e));
        }
        assert forall|e: EdgeKey| #[trigger] after.path.contains_key(e) implies nodes.contains(e.0)
            && nodes.contains(e.1) by {
            if e != (i, j) {
                assert(t.path.contains_key(e));
            }
        }
        assert forall|e: EdgeKey| #[trigger]
            after.path.contains_key(e) == after.next.contains_key(e) by {
            if e != (i, j) {
                assert(t.path.contains_key(e) == t.next.contains_key(e));
            }
        }
    }
}

/// The tables before any relaxation are in shape.
pub proof fn lemma_initial_shaped<E>(nodes: Seq<NodeKey>, edges: Map<EdgeKey, E>)
    requires
        grounded(nodes, edges),
    ensures
        shaped(nodes, edges, initial_tables(edges)),
{
    assert forall|e: EdgeKey| #[trigger] starts_on_edge(edges, initial_tables(edges), e) by {}
}

/// Whether the pair of places (`b`, `c`) of a source and a target comes
/// before the pair (`i`, `j`) in a run.
pub open spec fn earlier(b: int, c: int, i: int, j: int) -> bool {
    b < i || (b == i && c < j)
}

/// Whether the first hop `h` toward `j` still waits for its own entry
/// toward `j`: both parts of the way from `h` to `j` through the node in
/// between have entries, and the relaxation that joins them is yet to come.
pub open spec fn pending<E>(
    nodes: Seq<NodeKey>,
    t: Tables<E>,
    k: int,
    i: int,
    j: int,
    hop: NodeKey,
    target: NodeKey,
) -> bool {
    &&& 0 <= k < nodes.len()
    &&& t.next.contains_key((hop, nodes[k]))
    &&& t.next.contains_key((nodes[k], target))
    &&& hop != nodes[k]
    &&& nodes[k] != target
    &&& !earlier(nodes.index_of(hop), nodes.index_of(target), i, j)
}

/// Whether the entry `e` leads on: its first hop is its target, or has an
/// entry toward the target, or still waits for one.
pub open spec fn leads_on<E>(nodes: Seq<NodeKey>, t: Tables<E>, k: int, i: int, j: int, e: EdgeKey) -> bool {
    t.next.contains_key(e) && t.next[e] != e.1 ==> t.next.contains_key((t.next[e], e.1)) || pending(
        nodes,
        t,
        k,
        i,
        j,
        t.next[e],
        e.1,
    )
}

/// Whether the relaxation from the node at place `b` to the node at place
/// `c` through the node at place `k` has left its mark: where both parts
/// have entries and the three nodes differ, the pair has an entry.
pub open spec fn joined<E>(nodes: Seq<NodeKey>, t: Tables<E>, k: int, b: int, c: int) -> bool {
    t.next.contains_key((nodes[b], nodes[k])) && t.next.contains_key((nodes[k], nodes[c]))
        && nodes[b] != nodes[k] && nodes[k] != nodes[c] && nodes[b] != nodes[c]
        ==> t.next.contains_key((nodes[b], nodes[c]))
}

/// What holds of the first hops before the relaxation at the places `k`,
/// `i` and `j`: every entry leads on, and every relaxation through the node
/// at `k` that came before has left its mark.
pub open spec fn closing<E>(
    nodes: Seq<NodeKey>,
    edges: Map<EdgeKey, E>,
    t: Tables<E>,
    k: int,
    i: int,
    j: int,
) -> bool {
    &&& shaped(nodes, edges, t)
    &&& forall|e: EdgeKey| #[trigger] leads_on(nodes, t, k, i, j, e)
    &&& forall|b: int, c: int|
        0 <= k < nodes.len() && 0 <= b < nodes.len() && 0 <= c < nodes.len() && earlier(b, c, i, j)
            ==> #[trigger] joined(nodes, t, k, b, c)
}

/// Whether the first hop of the entry `e`, if there is such an entry, is
/// the target or has an entry toward the target.
pub open spec fn hop_leads_on<E>(t: Tables<E>, e: EdgeKey) -> bool {
    t.next.contains_key(e) && t.next[e] != e.1 ==> t.next.contains_key((t.next[e], e.1))
}

/// Every first hop that is not the target has an entry toward the target.
pub open spec fn closed<E>(t: Tables<E>) -> bool {
    forall|e: EdgeKey| #[trigger] hop_leads_on(t, e)
}

/// One relaxation takes `closing` to the next target.
pub proof fn lemma_relax_closing<E>(
    op: spec_fn(E, E) -> E,
    better: spec_fn(E, E) -> bool,
    discard_loops: bool,
    nodes: Seq<NodeKey>,
    edges: Map<EdgeKey, E>,
    t: Tables<E>,
    kk: int,
    ii: int,
    jj: int,
)
    requires
        nodes.no_duplicates(),
        grounded(nodes, edges),
        0 <= kk < nodes.len(),
        0 <= ii < nodes.len(),
        0 <= jj < nodes.len(),
        closing(nodes, edges, t, kk, ii, jj),
    ensures
        closing(
            nodes,
            edges,
            relax(op, better, discard_loops, t, nodes[kk], nodes[ii], nodes[jj]),
            kk,
            ii,
            jj + 1,
        ),
{
    let k = nodes[kk];
    let i = nodes[ii];
    let j = nodes[jj];
    let after = relax(op, better, discard_loops, t, k, i, j);
    lemma_relax_shaped(op, better, discard_loops, nodes, edges, t, k, i, j);
    assert(nodes.index_of(i) == ii);
    assert(nodes.index_of(j) == jj);
    assert(nodes.index_of(k) == kk);
    // The pair of this relaxation has its entry afterwards, where both parts have theirs and
    // the three nodes differ.
    assert(joined(nodes, after, kk, ii, jj)) by {
        assert(t.path.contains_key((i, k)) == t.next.contains_key((i, k)));
        assert(t.path.contains_key((k, j)) == t.next.contains_key((k, j)));
        assert(t.path.contains_key((i, j)) == t.next.contains_key((i, j)));
    }
    // No entry toward or from the node in between is new.
    assert forall|x: NodeKey| #[trigger]
        after.next.contains_key((x, k)) implies t.next.contains_key((x, k)) by {
        assert(t.path.contains_key((i, k)) == t.next.contains_key((i, k)));
    }
    assert forall|y: NodeKey| #[trigger]
        after.next.contains_key((k, y)) implies t.next.contains_key((k, y)) by {
        assert(t.path.contains_key((k, j)) == t.next.contains_key((k, j)));
    }
    assert forall|b: int, c: int|
        0 <= b < nodes.len() && 0 <= c < nodes.len() && earlier(
            b,
            c,
            ii,
            jj + 1,
        ) implies #[trigger] joined(nodes, after, kk, b, c) by {
        if earlier(b, c, ii, jj) {
            assert(joined(nodes, t, kk, b, c));
        } else {
            assert(b == ii && c == jj);
        }
    }
    assert forall|e: EdgeKey| #[trigger] leads_on(nodes, after, kk, ii, jj + 1, e) by {
        if after.next.contains_key(e) && after.next[e] != e.1 {
            let hop = after.next[e];
            let target = e.1;
            assert(starts_on_edge(edges, after, e));
            assert(edges.contains_key((e.0, hop)));
            assert(nodes.contains(hop));
            assert(after.path.contains_key(e));
            assert(nodes.contains(target));
            let b = nodes.index_of(hop);
            let c = nodes.index_of(target);
            if after != t && e == (i, j) {
                // The new entry: its first hop is that of the entry toward the node between.
                assert(t.path.contains_key((i, k)) == t.next.contains_key((i, k)));
                assert(t.path.contains_key((k, j)) == t.next.contains_key((k, j)));
                assert(hop == t.next[(i, k)]);
                assert(leads_on(nodes, t, kk, ii, jj, (i, k)));
                if hop == k {
                } else if k == j {
                } else {
                    assert(t.next.contains_key((hop, k)));
                    if earlier(b, c, ii, jj + 1) {
                        assert(joined(nodes, after, kk, b, c));
                    }
                }
            } else {
                assert(t.next.contains_key(e));
                assert(t.next[e] == hop);
                assert(leads_on(nodes, t, kk, ii, jj, e));
                if !t.next.contains_key((hop, target)) {
                    assert(pending(nodes, t, kk, ii, jj, hop, target));
                    if earlier(b, c, ii, jj + 1) {
                        assert(joined(nodes, after, kk, b, c));
                    }
                }
            }
        }
    }
}

/// `closing` as it goes through a run.
pub open spec fn closing_inv<E>(nodes: Seq<NodeKey>, edges: Map<EdgeKey, E>) -> spec_fn(
    Tables<E>,
    int,
    int,
    int,
) -> bool {
    |t: Tables<E>, k: int, i: int, j: int| closing(nodes, edges, t, k, i, j)
}

/// `closing` goes from each relaxation to the next.
pub proof fn lemma_closing_carries<E>(
    op: spec_fn(E, E) -> E,
    better: spec_fn(E, E) -> bool,
    discard_loops: bool,
    nodes: Seq<NodeKey>,
    edges: Map<EdgeKey, E>,
)
    requires
        nodes.no_duplicates(),
        grounded(nodes, edges),
    ensures
        carries(op, better, discard_loops, nodes, closing_inv(nodes, edges)),
{
    let inv = closing_inv(nodes, edges);
    let n = nodes.len() as int;
    assert forall|t: Tables<E>, k: int, i: int, j: int|
        0 <= k < nodes.len() && 0 <= i < nodes.len() && 0 <= j < nodes.len() && #[trigger] inv(
            t,
            k,
            i,
            j,
        ) implies inv(
        relax(op, better, discard_loops, t, nodes[k], nodes[i], nodes[j]),
        k,
        i,
        j + 1,
    ) by {
        lemma_relax_closing(op, better, discard_loops, nodes, edges, t, k, i, j);
    }
    assert forall|t: Tables<E>, k: int, i: int|
        0 <= k < nodes.len() && 0 <= i < nodes.len() && #[trigger] inv(t, k, i, n) implies inv(
        t,
        k,
        i + 1,
        0,
    ) by {
        assert forall|e: EdgeKey| #[trigger] leads_on(nodes, t, k, i + 1, 0, e) by {
            assert(leads_on(nodes, t, k, i, n, e));
            if t.next.contains_key(e) && t.next[e] != e.1 {
                lemma_places(nodes, edges, t, e);
            }
        }
        assert forall|b: int, c: int|
            0 <= b < nodes.len() && 0 <= c < nodes.len() && earlier(
                b,
                c,
                i + 1,
                0,
            ) implies #[trigger] joined(nodes, t, k, b, c) by {
            assert(earlier(b, c, i, n));
        }
    }
    assert forall|t: Tables<E>, k: int| 0 <= k < nodes.len() && #[trigger] inv(t, k, n, 0) implies inv(
        t,
        k + 1,
        0,
        0,
    ) by {
        assert forall|e: EdgeKey| #[trigger] leads_on(nodes, t, k + 1, 0, 0, e) by {
            assert(leads_on(nodes, t, k, n, 0, e));
            if t.next.contains_key(e) && t.next[e] != e.1 {
                lemma_places(nodes, edges, t, e);
            }
        }
    }
}

/// The first hop and the target of an entry have their places among the
/// nodes.
proof fn lemma_places<E>(nodes: Seq<NodeKey>, edges: Map<EdgeKey, E>, t: Tables<E>, e: EdgeKey)
    requires
        grounded(nodes, edges),
        shaped(nodes, edges, t),
        t.next.contains_key(e),
    ensures
        0 <= nodes.index_of(t.next[e]) < nodes.len(),
        0 <= nodes.index_of(e.1) < nodes.len(),
{
    assert(starts_on_edge(edges, t, e));
    assert(edges.contains_key((e.0, t.next[e])));
    assert(nodes.contains(t.next[e]));
    assert(t.path.contains_key(e));
    assert(nodes.contains(e.1));
}

/// The tables of a whole run are in shape, and every first hop that is not
/// the target has an entry toward the target: the first hops lead on until
/// they reach the target or run in a circle.
pub proof fn lemma_best_tables_closed<E>(
    op: spec_fn(E, E) -> E,
    better: spec_fn(E, E) -> bool,
    discard_loops: bool,
    nodes: Seq<NodeKey>,
    edges: Map<EdgeKey, E>,
)
    requires
        nodes.no_duplicates(),
        grounded(nodes, edges),
    ensures
        shaped(nodes, edges, best_tables(op, better, discard_loops, nodes, edges)),
        closed(best_tables(op, better, discard_loops, nodes, edges)),
{
    let inv = closing_inv(nodes, edges);
    let start = initial_tables(edges);
    let n = nodes.len() as int;
    lemma_closing_carries(op, better, discard_loops, nodes, edges);
    lemma_initial_shaped(nodes, edges);
    assert(inv(start, 0, 0, 0)) by {
        assert forall|e: EdgeKey| #[trigger] leads_on(nodes, start, 0, 0, 0, e) by {}
    }
    lemma_run_carries(op, better, discard_loops, nodes, inv, start, nodes.len());
    let end = best_tables(op, better, discard_loops, nodes, edges);
    assert(inv(end, n, 0, 0));
    assert forall|e: EdgeKey| #[trigger] hop_leads_on(end, e) by {
        assert(leads_on(nodes, end, n, 0, 0, e));
    }
}

/// The tables of a run over `nodes` from the tables `t`, before the
/// relaxation at the places `k`, `i` and `j`.
pub open spec fn tables_at<E>(
    op: spec_fn(E, E) -> E,
    better: spec_fn(E, E) -> bool,
    discard_loops: bool,
    nodes: Seq<NodeKey>,
    t: Tables<E>,
    k: int,
    i: int,
    j: int,
) -> Tables<E> {
    if 0 <= k < nodes.len() && 0 <= i < nodes.len() {
        relax_targets(
            op,
            better,
            discard_loops,
            relax_sources(
                op,
                better,
                discard_loops,
                relax_through(op, better, discard_loops, t, nodes, k as nat),
                nodes,
                nodes[k],
                i as nat,
            ),
            nodes,
            nodes[k],
            nodes[i],
            j as nat,
        )
    } else if 0 <= k < nodes.len() {
        relax_sources(
            op,
            better,
            discard_loops,
            relax_through(op, better, discard_loops, t, nodes, k as nat),
            nodes,
            nodes[k],
            i as nat,
        )
    } else {
        relax_through(op, better, discard_loops, t, nodes, k as nat)
    }
}

/// Self-loop exclusion. Where loops are discarded, the weight of a self
/// loop takes no part in any relaxation: two graphs over the same nodes
/// that differ in their self loops alone have the same best weights and
/// first hops for every pair of two different nodes, and each keeps its
/// self loops as they were.
pub proof fn lemma_self_loops_take_no_part<E>(
    op: spec_fn(E, E) -> E,
    better: spec_fn(E, E) -> bool,
    nodes: Seq<NodeKey>,
    edges: Map<EdgeKey, E>,
    others: Map<EdgeKey, E>,
)
    requires
        forall|a: NodeKey, b: NodeKey|
            a != b ==> #[trigger] edges.contains_key((a, b)) == others.contains_key((a, b)),
        forall|a: NodeKey, b: NodeKey|
            a != b && #[trigger] edges.contains_key((a, b)) ==> edges[(a, b)] == others[(a, b)],
    ensures
        same_off_loops(
            best_tables(op, better, true, nodes, edges),
            best_tables(op, better, true, nodes, others),
        ),
        same_on_loops(best_tables(op, better, true, nodes, edges), initial_tables(edges)),
{
    let start = initial_tables(edges);
    let other = initial_tables(others);
    let n = nodes.len() as int;
    let inv = |t: Tables<E>, k: int, i: int, j: int|
        {
            &&& aligned(t)
            &&& aligned(tables_at(op, better, true, nodes, other, k, i, j))
            &&& same_off_loops(t, tables_at(op, better, true, nodes, other, k, i, j))
            &&& same_on_loops(t, start)
        };
    assert(carries(op, better, true, nodes, inv)) by {
        assert forall|t: Tables<E>, k: int, i: int, j: int|
            0 <= k < nodes.len() && 0 <= i < nodes.len() && 0 <= j < nodes.len() && #[trigger] inv(
                t,
                k,
                i,
                j,
            ) implies inv(relax(op, better, true, t, nodes[k], nodes[i], nodes[j]), k, i, j + 1) by {
            let u = tables_at(op, better, true, nodes, other, k, i, j);
            let after = relax(op, better, true, t, nodes[k], nodes[i], nodes[j]);
            lemma_relax_aligned(op, better, true, t, nodes[k], nodes[i], nodes[j]);
            lemma_relax_aligned(op, better, true, u, nodes[k], nodes[i], nodes[j]);
            lemma_relax_ignores_loops(op, better, t, u, nodes[k], nodes[i], nodes[j]);
            assert forall|a: NodeKey| #[trigger] same_entry(after, start, a, a) by {
                assert(same_entry(after, t, a, a));
                assert(same_entry(t, start, a, a));
            }
        }
        assert forall|t: Tables<E>, k: int, i: int|
            0 <= k < nodes.len() && 0 <= i < nodes.len() && #[trigger] inv(t, k, i, n) implies inv(
            t,
            k,
            i + 1,
            0,
        ) by {
            assert(tables_at(op, better, true, nodes, other, k, i, n) == tables_at(
                op,
                better,
                true,
                nodes,
                other,
                k,
                i + 1,
                0,
            ));
        }
        assert forall|t: Tables<E>, k: int| 0 <= k < nodes.len() && #[trigger] inv(t, k, n, 0) implies inv(
            t,
            k + 1,
            0,
            0,
        ) by {
            assert(tables_at(op, better, true, nodes, other, k, n, 0) == tables_at(
                op,
                better,
                true,
                nodes,
                other,
                k + 1,
                0,
                0,
            ));
        }
    }
    assert(inv(start, 0, 0, 0)) by {
        assert forall|a: NodeKey, b: NodeKey| a != b implies #[trigger] same_entry(
            start,
            tables_at(op, better, true, nodes, other, 0, 0, 0),
            a,
            b,
        ) by {
            assert(edges.contains_key((a, b)) == others.contains_key((a, b)));
        }
        assert forall|a: NodeKey| #[trigger] same_entry(start, start, a, a) by {}
    }
    lemma_run_carries(op, better, true, nodes, inv, start, nodes.len());
    assert(inv(best_tables(op, better, true, nodes, edges), n, 0, 0));
}

/// Every two nodes of `path` that follow one another have a weight.
pub open spec fn linked<E>(path: Seq<NodeKey>, weights: Map<EdgeKey, E>) -> bool {
    forall|x: int| 0 <= x < path.len() - 1 ==> weights.contains_key((#[trigger] path[x], path[x + 1]))
}

/// In tables in shape whose first hops lead on, a walk that comes to its
/// end goes from edge to edge.
pub proof fn lemma_walk_linked<E>(
    nodes: Seq<NodeKey>,
    edges: Map<EdgeKey, E>,
    t: Tables<E>,
    current: NodeKey,
    end: NodeKey,
    fuel: nat,
)
    requires
        shaped(nodes, edges, t),
        closed(t),
        current == end || t.next.contains_key((current, end)),
        path_middle(t.next, current, end, fuel) is Some,
    ensures
        linked(path_middle(t.next, current, end, fuel).unwrap().push(end), edges),
        path_middle(t.next, current, end, fuel).unwrap().push(end)[0] == current,
    decreases fuel,
{
    if current != end {
        let hop = t.next[(current, end)];
        assert(hop_leads_on(t, (current, end)));
        assert(starts_on_edge(edges, t, (current, end)));
        let rest = path_middle(t.next, hop, end, (fuel - 1) as nat).unwrap();
        lemma_walk_linked(nodes, edges, t, hop, end, (fuel - 1) as nat);
        let walk = path_middle(t.next, current, end, fuel).unwrap().push(end);
        assert(walk =~= seq![current] + rest.push(end));
        assert(edges.contains_key((current, hop)));
        assert forall|x: int| 0 <= x < walk.len() - 1 implies edges.contains_key(
            (#[trigger] walk[x], walk[x + 1]),
        ) by {
            if x > 0 {
                assert(walk[x] == rest.push(end)[x - 1]);
                assert(walk[x + 1] == rest.push(end)[x]);
            }
        }
    }
}

/// The tables of a whole run over finitely many edges have finitely many
/// entries.
pub proof fn lemma_best_tables_finite<E>(
    op: spec_fn(E, E) -> E,
    better: spec_fn(E, E) -> bool,
    discard_loops: bool,
    nodes: Seq<NodeKey>,
    edges: Map<EdgeKey, E>,
)
    requires
        edges.dom().finite(),
    ensures
        best_tables(op, better, discard_loops, nodes, edges).next.dom().finite(),
        best_tables(op, better, discard_loops, nodes, edges).path.dom().finite(),
{
    let inv = |t: Tables<E>, k: int, i: int, j: int| t.next.dom().finite() && t.path.dom().finite();
    let start = initial_tables(edges);
    assert(start.next.dom() =~= edges.dom());
    assert(carries(op, better, discard_loops, nodes, inv));
    lemma_run_carries(op, better, discard_loops, nodes, inv, start, nodes.len());
}

/// Path endpoints. Where a pair of nodes has a best weight after a whole
/// run, and the first hops from the one toward the other come to an end at
/// all, the path that is read off the tables starts with the one, ends with
/// the other and goes from edge to edge of the graph: each two nodes that
/// follow one another are joined by an edge, and so have a weight in the
/// table of best weights.
///
/// The first hops come to no end where they run in a circle; then there is
/// no path to speak of.
pub proof fn lemma_path_endpoints<E>(
    op: spec_fn(E, E) -> E,
    better: spec_fn(E, E) -> bool,
    discard_loops: bool,
    nodes: Seq<NodeKey>,
    edges: Map<EdgeKey, E>,
    a: NodeKey,
    b: NodeKey,
    fuel: nat,
)
    requires
        nodes.no_duplicates(),
        grounded(nodes, edges),
        edges.dom().finite(),
        best_tables(op, better, discard_loops, nodes, edges).path.contains_key((a, b)),
        ({
            let t = best_tables(op, better, discard_loops, nodes, edges);
            path_middle(t.next, t.next[(a, b)], b, fuel) is Some
        }),
    ensures
        ({
            let t = best_tables(op, better, discard_loops, nodes, edges);
            let path = path_nodes(t.next, a, b, walk_limit_of(t.next));
            &&& path.len() >= 2
            &&& path.first() == a
            &&& path.last() == b
            &&& linked(path, edges)
            &&& linked(path, t.path)
        }),
{
    let t = best_tables(op, better, discard_loops, nodes, edges);
    let limit = walk_limit_of(t.next);
    lemma_best_tables_closed(op, better, discard_loops, nodes, edges);
    lemma_best_tables_finite(op, better, discard_loops, nodes, edges);
    assert(t.path.contains_key((a, b)) == t.next.contains_key((a, b)));
    lemma_walk_limit_is_enough(t.next, a, b, fuel);
    let hop = t.next[(a, b)];
    let middle = path_middle(t.next, hop, b, limit).unwrap();
    let path = path_nodes(t.next, a, b, limit);
    assert(path == (seq![a] + middle).push(b));
    assert(hop_leads_on(t, (a, b)));
    assert(starts_on_edge(edges, t, (a, b)));
    lemma_walk_linked(nodes, edges, t, hop, b, limit);
    let walk = middle.push(b);
    assert(path =~= seq![a] + walk);
    assert(edges.contains_key((a, hop)));
    assert forall|x: int| 0 <= x < path.len() - 1 implies edges.contains_key(
        (#[trigger] path[x], path[x + 1]),
    ) by {
        if x > 0 {
            assert(path[x] == walk[x - 1]);
            assert(path[x + 1] == walk[x]);
        }
    }
    assert forall|x: int| 0 <= x < path.len() - 1 implies t.path.contains_key(
        (#[trigger] path[x], path[x + 1]),
    ) by {
        assert(edges.contains_key((path[x], path[x + 1])));
    }
}

/// `better` is a strict weak order: nothing is better than itself; what is
/// better than something better is better; and what is no better than
/// something that is no better is no better.
pub open spec fn strict_weak_order<E>(better: spec_fn(E, E) -> bool) -> bool {
    &&& forall|x: E| !#[trigger] better(x, x)
    &&& forall|x: E, y: E, z: E| #[trigger] better(x, y) && #[trigger] better(y, z) ==> better(x, z)
    &&& forall|x: E, y: E, z: E|
        !#[trigger] better(x, y) && !#[trigger] better(y, z) ==> !better(x, z)
}

/// `op` keeps the order: of parts that are no better come wholes that are
/// no better.
pub open spec fn monotone<E>(op: spec_fn(E, E) -> E, better: spec_fn(E, E) -> bool) -> bool {
    forall|x: E, y: E, v: E, w: E|
        !better(x, v) && !better(y, w) ==> !better(#[trigger] op(x, y), #[trigger] op(v, w))
}

/// Whether the best weight of the edge `e` is no worse than the edge's own.
pub open spec fn kept<E>(better: spec_fn(E, E) -> bool, edges: Map<EdgeKey, E>, t: Tables<E>, e: EdgeKey) -> bool {
    edges.contains_key(e) ==> t.path.contains_key(e) && !better(edges[e], t.path[e])
}

/// Whether the way from `i` to `j` over the two edges through `k` has left
/// its mark: where both edges are there and the triple is not left out, the
/// pair has a best weight that is no worse than the two edges' weights
/// combined.
pub open spec fn settled<E>(
    op: spec_fn(E, E) -> E,
    better: spec_fn(E, E) -> bool,
    discard_loops: bool,
    edges: Map<EdgeKey, E>,
    t: Tables<E>,
    k: NodeKey,
    i: NodeKey,
    j: NodeKey,
) -> bool {
    edges.contains_key((i, k)) && edges.contains_key((k, j)) && !discarded(discard_loops, k, i, j)
        ==> t.path.contains_key((i, j)) && !better(op(edges[(i, k)], edges[(k, j)]), t.path[(i, j)])
}

/// Whether the triple of places (`a`, `b`, `c`) comes before the triple
/// (`k`, `i`, `j`) in a run.
pub open spec fn sooner(a: int, b: int, c: int, k: int, i: int, j: int) -> bool {
    a < k || (a == k && earlier(b, c, i, j))
}

/// What holds of the best weights before the relaxation at the places `k`,
/// `i` and `j`: every edge's best weight is no worse than its own, and
/// every way over two edges that came before has left its mark.
pub open spec fn improving<E>(
    op: spec_fn(E, E) -> E,
    better: spec_fn(E, E) -> bool,
    discard_loops: bool,
    nodes: Seq<NodeKey>,
    edges: Map<EdgeKey, E>,
    t: Tables<E>,
    k: int,
    i: int,
    j: int,
) -> bool {
    &&& shaped(nodes, edges, t)
    &&& forall|e: EdgeKey| #[trigger] kept(better, edges, t, e)
    &&& forall|a: int, b: int, c: int|
        0 <= a < nodes.len() && 0 <= b < nodes.len() && 0 <= c < nodes.len() && sooner(
            a,
            b,
            c,
            k,
            i,
            j,
        ) ==> #[trigger] settled(op, better, discard_loops, edges, t, nodes[a], nodes[b], nodes[c])
}

/// One relaxation takes `improving` to the next target.
pub proof fn lemma_relax_improving<E>(
    op: spec_fn(E, E) -> E,
    better: spec_fn(E, E) -> bool,
    discard_loops: bool,
    nodes: Seq<NodeKey>,
    edges: Map<EdgeKey, E>,
    t: Tables<E>,
    kk: int,
    ii: int,
    jj: int,
)
    requires
        strict_weak_order(better),
        monotone(op, better),
        0 <= kk < nodes.len(),
        0 <= ii < nodes.len(),
        0 <= jj < nodes.len(),
        improving(op, better, discard_loops, nodes, edges, t, kk, ii, jj),
    ensures
        improving(
            op,
            better,
            discard_loops,
            nodes,
            edges,
            relax(op, better, discard_loops, t, nodes[kk], nodes[ii], nodes[jj]),
            kk,
            ii,
            jj + 1,
        ),
{
    let k = nodes[kk];
    let i = nodes[ii];
    let j = nodes[jj];
    let after = relax(op, better, discard_loops, t, k, i, j);
    assert(nodes.contains(i));
    assert(nodes.contains(j));
    lemma_relax_shaped(op, better, discard_loops, nodes, edges, t, k, i, j);
    // A weight changes only for a better one.
    assert forall|e: EdgeKey| #[trigger] t.path.contains_key(e) implies after.path.contains_key(e)
        && (after.path[e] == t.path[e] || better(after.path[e], t.path[e])) by {}
    assert forall|e: EdgeKey| #[trigger] kept(better, edges, after, e) by {
        assert(kept(better, edges, t, e));
        if edges.contains_key(e) {
            assert(t.path.contains_key(e));
        }
    }
    assert forall|a: int, b: int, c: int|
        0 <= a < nodes.len() && 0 <= b < nodes.len() && 0 <= c < nodes.len() && sooner(
            a,
            b,
            c,
            kk,
            ii,
            jj + 1,
        ) implies #[trigger] settled(
        op,
        better,
        discard_loops,
        edges,
        after,
        nodes[a],
        nodes[b],
        nodes[c],
    ) by {
        if sooner(a, b, c, kk, ii, jj) {
            assert(settled(op, better, discard_loops, edges, t, nodes[a], nodes[b], nodes[c]));
            let e = (nodes[b], nodes[c]);
            if t.path.contains_key(e) {
                assert(after.path.contains_key(e));
            }
        } else {
            assert(a == kk && b == ii && c == jj);
            if edges.contains_key((i, k)) && edges.contains_key((k, j)) && !discarded(
                discard_loops,
                k,
                i,
                j,
            ) {
                assert(kept(better, edges, t, (i, k)));
                assert(kept(better, edges, t, (k, j)));
                let candidate = op(t.path[(i, k)], t.path[(k, j)]);
                let two_hops = op(edges[(i, k)], edges[(k, j)]);
                assert(!better(two_hops, candidate));
                assert(after.path.contains_key((i, j)));
                assert(!better(candidate, after.path[(i, j)]));
            }
        }
    }
}

/// `improving` as it goes through a run.
pub open spec fn improving_inv<E>(
    op: spec_fn(E, E) -> E,
    better: spec_fn(E, E) -> bool,
    discard_loops: bool,
    nodes: Seq<NodeKey>,
    edges: Map<EdgeKey, E>,
) -> spec_fn(Tables<E>, int, int, int) -> bool {
    |t: Tables<E>, k: int, i: int, j: int|
        improving(op, better, discard_loops, nodes, edges, t, k, i, j)
}

/// Best-weight monotonicity. After a whole run, the best weight from `i`
/// to `j` is never worse than the weights of two edges from `i` to `k` and
/// from `k` to `j` combined, where `better` is a strict weak order that
/// `op` keeps, and the triple is not one of those that the run leaves out.
///
/// A triple that is left out has no claim: with loops discarded, the edges
/// from `i` to `k` and back give `i` no weight to itself.
pub proof fn lemma_never_worse_than_two_hops<E>(
    op: spec_fn(E, E) -> E,
    better: spec_fn(E, E) -> bool,
    discard_loops: bool,
    nodes: Seq<NodeKey>,
    edges: Map<EdgeKey, E>,
    i: NodeKey,
    j: NodeKey,
    k: NodeKey,
)
    requires
        nodes.no_duplicates(),
        grounded(nodes, edges),
        strict_weak_order(better),
        monotone(op, better),
        edges.contains_key((i, k)),
        edges.contains_key((k, j)),
        !discarded(discard_loops, k, i, j),
    ensures
        best_tables(op, better, discard_loops, nodes, edges).path.contains_key((i, j)),
        !better(
            op(edges[(i, k)], edges[(k, j)]),
            best_tables(op, better, discard_loops, nodes, edges).path[(i, j)],
        ),
{
    let inv = improving_inv(op, better, discard_loops, nodes, edges);
    let start = initial_tables(edges);
    let n = nodes.len() as int;
    assert(carries(op, better, discard_loops, nodes, inv)) by {
        assert forall|t: Tables<E>, a: int, b: int, c: int|
            0 <= a < nodes.len() && 0 <= b < nodes.len() && 0 <= c < nodes.len() && #[trigger] inv(
                t,
                a,
                b,
                c,
            ) implies inv(
            relax(op, better, discard_loops, t, nodes[a], nodes[b], nodes[c]),
            a,
            b,
            c + 1,
        ) by {
            lemma_relax_improving(op, better, discard_loops, nodes, edges, t, a, b, c);
        }
        assert forall|t: Tables<E>, a: int, b: int|
            0 <= a < nodes.len() && 0 <= b < nodes.len() && #[trigger] inv(t, a, b, n) implies inv(
            t,
            a,
            b + 1,
            0,
        ) by {
            assert forall|x: int, y: int, z: int|
                0 <= x < nodes.len() && 0 <= y < nodes.len() && 0 <= z < nodes.len() && sooner(
                    x,
                    y,
                    z,
                    a,
                    b + 1,
                    0,
                ) implies #[trigger] settled(
                op,
                better,
                discard_loops,
                edges,
                t,
                nodes[x],
                nodes[y],
                nodes[z],
            ) by {
                assert(sooner(x, y, z, a, b, n));
            }
        }
        assert forall|t: Tables<E>, a: int| 0 <= a < nodes.len() && #[trigger] inv(t, a, n, 0) implies inv(
            t,
            a + 1,
            0,
            0,
        ) by {
            assert forall|x: int, y: int, z: int|
                0 <= x < nodes.len() && 0 <= y < nodes.len() && 0 <= z < nodes.len() && sooner(
                    x,
                    y,
                    z,
                    a + 1,
                    0,
                    0,
                ) implies #[trigger] settled(
                op,
                better,
                discard_loops,
                edges,
                t,
                nodes[x],
                nodes[y],
                nodes[z],
            ) by {
                assert(sooner(x, y, z, a, n, 0));
            }
        }
    }
    lemma_initial_shaped(nodes, edges);
    assert(inv(start, 0, 0, 0)) by {
        assert forall|e: EdgeKey| #[trigger] kept(better, edges, start, e) by {}
    }
    lemma_run_carries(op, better, discard_loops, nodes, inv, start, nodes.len());
    let end = best_tables(op, better, discard_loops, nodes, edges);
    assert(inv(end, n, 0, 0));
    assert(nodes.contains(i) && nodes.contains(j) && nodes.contains(k));
    let a = nodes.index_of(k);
    let b = nodes.index_of(i);
    let c = nodes.index_of(j);
    assert(sooner(a, b, c, n, 0, 0));
    assert(settled(op, better, discard_loops, edges, end, nodes[a], nodes[b], nodes[c]));
}

} // verus!
