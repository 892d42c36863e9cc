//! The tables that the all-pairs engine produces, and the walk that reads a
//! path off them.

use crate::graph::{DiGraphMap, EdgeKey, NodeKey};
use vstd::prelude::*;

verus! {

/// The best-weight table and the first-hop table, as maps.
pub ghost struct Tables<E> {
    /// The best known weight of each ordered pair of nodes.
    pub path: Map<EdgeKey, E>,
    /// For each ordered pair, the node to visit right after the first one
    /// on the way to the second.
    pub next: Map<EdgeKey, NodeKey>,
}

/// The nodes strictly between the start and `end` that a walk along the
/// first-hop table visits from `current` on, taking at most `fuel` steps:
/// `None` where the steps run out before `end` is reached. A node without a
/// first hop toward `end` ends the walk.
pub open spec fn path_middle(next: Map<EdgeKey, NodeKey>, current: NodeKey, end: NodeKey, fuel: nat)
    -> Option<Seq<NodeKey>>
    decreases fuel,
{
    if current == end {
        Some(Seq::empty())
    } else if fuel == 0 {
        None
    } else if !next.contains_key((current, end)) {
        Some(seq![current])
    } else {
        match path_middle(next, next[(current, end)], end, (fuel - 1) as nat) {
            Some(rest) => Some(seq![current] + rest),
            None => None,
        }
    }
}

/// The path from `a` to `b` that the first-hop table describes: empty where
/// the table has no entry for the pair or the walk does not reach `b` within
/// `fuel` steps; otherwise `a`, the nodes between, and `b`.
pub open spec fn path_nodes(next: Map<EdgeKey, NodeKey>, a: NodeKey, b: NodeKey, fuel: nat) -> Seq<
    NodeKey,
> {
    if !next.contains_key((a, b)) {
        Seq::empty()
    } else {
        match path_middle(next, next[(a, b)], b, fuel) {
            Some(middle) => (seq![a] + middle).push(b),
            None => Seq::empty(),
        }
    }
}

/// The number of steps after which a walk along the first-hop table `next`
/// is given up: the number of its entries. A walk that leads to its end
/// visits no node twice, and so takes fewer steps than that.
pub open spec fn walk_limit_of(next: Map<EdgeKey, NodeKey>) -> nat {
    next.dom().len()
}

/// A walk visits no more nodes than it has fuel.
pub proof fn lemma_walk_length(
    next: Map<EdgeKey, NodeKey>,
    current: NodeKey,
    end: NodeKey,
    fuel: nat,
)
    requires
        path_middle(next, current, end, fuel) is Some,
    ensures
        path_middle(next, current, end, fuel).unwrap().len() <= fuel,
    decreases fuel,
{
    if current != end && fuel > 0 && next.contains_key((current, end)) {
        let hop = next[(current, end)];
        let rest = path_middle(next, hop, end, (fuel - 1) as nat).unwrap();
        assert(path_middle(next, current, end, fuel).unwrap() =~= seq![current] + rest);
        lemma_walk_length(next, hop, end, (fuel - 1) as nat);
    }
}

/// A walk that comes to its end with some fuel comes to the same end with
/// any fuel that is no less than the number of nodes it visits.
pub proof fn lemma_walk_fuel(
    next: Map<EdgeKey, NodeKey>,
    current: NodeKey,
    end: NodeKey,
    fuel: nat,
    other: nat,
)
    requires
        path_middle(next, current, end, fuel) is Some,
        other >= path_middle(next, current, end, fuel).unwrap().len(),
    ensures
        path_middle(next, current, end, other) == path_middle(next, current, end, fuel),
    decreases fuel,
{
    if current != end && fuel > 0 && next.contains_key((current, end)) {
        let hop = next[(current, end)];
        let rest = path_middle(next, hop, end, (fuel - 1) as nat).unwrap();
        assert(path_middle(next, current, end, fuel).unwrap() =~= seq![current] + rest);
        lemma_walk_fuel(next, hop, end, (fuel - 1) as nat, (other - 1) as nat);
    }
}

/// The walk from a node that a walk visits is the rest of that walk.
pub proof fn lemma_walk_rest(
    next: Map<EdgeKey, NodeKey>,
    current: NodeKey,
    end: NodeKey,
    fuel: nat,
    x: int,
)
    requires
        path_middle(next, current, end, fuel) is Some,
        0 <= x < path_middle(next, current, end, fuel).unwrap().len(),
    ensures
        x <= fuel,
        path_middle(next, current, end, fuel).unwrap()[x] != end,
        path_middle(
            next,
            path_middle(next, current, end, fuel).unwrap()[x],
            end,
            (fuel - x) as nat,
        ) == Some(path_middle(next, current, end, fuel).unwrap().skip(x)),
        x + 1 < path_middle(next, current, end, fuel).unwrap().len() ==> next.contains_key(
            (path_middle(next, current, end, fuel).unwrap()[x], end),
        ) && path_middle(next, current, end, fuel).unwrap()[x + 1] == next[(
            path_middle(next, current, end, fuel).unwrap()[x],
            end,
        )],
    decreases fuel,
{
    let walk = path_middle(next, current, end, fuel).unwrap();
    if x == 0 {
        assert(walk.skip(0) =~= walk);
        if next.contains_key((current, end)) {
            let rest = path_middle(next, next[(current, end)], end, (fuel - 1) as nat).unwrap();
            assert(walk =~= seq![current] + rest);
            if rest.len() > 0 {
                lemma_walk_rest(next, next[(current, end)], end, (fuel - 1) as nat, 0);
            }
        }
    } else {
        let hop = next[(current, end)];
        let rest = path_middle(next, hop, end, (fuel - 1) as nat).unwrap();
        assert(walk =~= seq![current] + rest);
        lemma_walk_rest(next, hop, end, (fuel - 1) as nat, x - 1);
        assert(walk.skip(x) =~= rest.skip(x - 1));
    }
}

/// A walk that comes to its end visits no node twice.
pub proof fn lemma_walk_distinct(
    next: Map<EdgeKey, NodeKey>,
    current: NodeKey,
    end: NodeKey,
    fuel: nat,
)
    requires
        path_middle(next, current, end, fuel) is Some,
    ensures
        path_middle(next, current, end, fuel).unwrap().no_duplicates(),
{
    let walk = path_middle(next, current, end, fuel).unwrap();
    lemma_walk_length(next, current, end, fuel);
    assert forall|x: int, y: int| 0 <= x < walk.len() && 0 <= y < walk.len() && x != y implies walk[x]
        != walk[y] by {
        if walk[x] == walk[y] {
            lemma_walk_rest(next, current, end, fuel, x);
            lemma_walk_rest(next, current, end, fuel, y);
            let node = walk[x];
            lemma_walk_fuel(next, node, end, (fuel - x) as nat, fuel);
            lemma_walk_fuel(next, node, end, (fuel - y) as nat, fuel);
            assert(walk.skip(x).len() == walk.skip(y).len());
        }
    }
}

/// The entries that a walk from `a` toward `b` reads: the entry of the
/// pair itself, and the entry toward `b` of every node that the walk visits
/// but the last.
pub open spec fn entries_read(a: NodeKey, b: NodeKey, walk: Seq<NodeKey>) -> Seq<EdgeKey> {
    Seq::new(
        walk.len(),
        |x: int|
            if x == 0 {
                (a, b)
            } else {
                (walk[x - 1], b)
            },
    )
}

/// The step limit is never in the way. Where the first hops from `a`
/// toward `b` come to an end at all, they do so within as many steps as the
/// table has entries: the walk reads another entry at every step, and it
/// ends with the same nodes whatever the fuel.
pub proof fn lemma_walk_limit_is_enough(
    next: Map<EdgeKey, NodeKey>,
    a: NodeKey,
    b: NodeKey,
    fuel: nat,
)
    requires
        next.dom().finite(),
        next.contains_key((a, b)),
        path_middle(next, next[(a, b)], b, fuel) is Some,
    ensures
        path_middle(next, next[(a, b)], b, walk_limit_of(next)) == path_middle(
            next,
            next[(a, b)],
            b,
            fuel,
        ),
        path_nodes(next, a, b, walk_limit_of(next)) == path_nodes(next, a, b, fuel),
{
    let hop = next[(a, b)];
    let walk = path_middle(next, hop, b, fuel).unwrap();
    lemma_walk_distinct(next, hop, b, fuel);
    let read = entries_read(a, b, walk);
    assert forall|x: int| 0 <= x < read.len() implies next.dom().contains(#[trigger] read[x]) by {
        if x > 0 {
            lemma_walk_rest(next, hop, b, fuel, x - 1);
        }
    }
    assert forall|x: int, y: int| 0 <= x < read.len() && 0 <= y < read.len() && x != y implies read[x]
        != read[y] by {
        if read[x] == read[y] {
            if x == 0 {
                // The walk is back at `a`: its next node is its first.
                lemma_walk_rest(next, hop, b, fuel, y - 1);
                assert(walk[y - 1] == a);
                assert(walk[y] == hop);
                lemma_walk_rest(next, hop, b, fuel, 0);
                assert(walk.skip(0) =~= walk);
                assert(walk[0] == hop) by {
                    if next.contains_key((hop, b)) {
                        let rest = path_middle(next, next[(hop, b)], b, (fuel - 1) as nat).unwrap();
                        assert(walk =~= seq![hop] + rest);
                    }
                }
            } else if y == 0 {
                lemma_walk_rest(next, hop, b, fuel, x - 1);
                assert(walk[x - 1] == a);
                assert(walk[x] == hop);
                assert(walk[0] == hop) by {
                    if next.contains_key((hop, b)) {
                        let rest = path_middle(next, next[(hop, b)], b, (fuel - 1) as nat).unwrap();
                        assert(walk =~= seq![hop] + rest);
                    }
                }
            } else {
                assert(walk[x - 1] == walk[y - 1]);
            }
        }
    }
    read.unique_seq_to_set();
    assert(read.to_set().subset_of(next.dom())) by {
        assert forall|e: EdgeKey| read.to_set().contains(e) implies next.dom().contains(e) by {
            let x = choose|x: int| 0 <= x < read.len() && read[x] == e;
            assert(next.dom().contains(read[x]));
        }
    }
    vstd::set_lib::lemma_len_subset(read.to_set(), next.dom());
    lemma_walk_fuel(next, hop, b, fuel, walk_limit_of(next));
}

/// Floyd-Warshall algorithm Result structure.
///
/// `E` is the number type giving a weight to edges.
pub struct FloydWarshallResult<E> {
    pub path: DiGraphMap<E>,
    pub next: DiGraphMap<NodeKey>,
}

impl<E: Copy> FloydWarshallResult<E> {
    /// Both tables are well-formed graphs.
    pub open spec fn wf(&self) -> bool {
        self.path.wf() && self.next.wf()
    }

    /// The two tables as maps.
    pub open spec fn tables(&self) -> Tables<E> {
        Tables { path: self.path.edges_view(), next: self.next.edges_view() }
    }

    /// The number of steps after which a walk along the first-hop table is
    /// given up: the number of entries of the table.
    pub open spec fn walk_limit(&self) -> nat {
        walk_limit_of(self.tables().next)
    }

    /// Create a new instance of FloydWarshallResult structure.
    pub fn new(path: DiGraphMap<E>, next: DiGraphMap<NodeKey>) -> (r: Self)
        ensures
            r.path == path,
            r.next == next,
    {
        Self { path, next }
    }

    /// Get path rate.
    ///
    /// The path is specified by starting node `a` and end node `b`.
    pub fn get_path_rate(&self, a: NodeKey, b: NodeKey) -> (r: Option<&E>)
        requires
            self.wf(),
        ensures
            match r {
                Some(w) => self.tables().path.contains_key((a, b)) && *w == self.tables().path[(
                    a,
                    b,
                )],
                None => !self.tables().path.contains_key((a, b)),
            },
    {
        self.path.edge_weight(a, b)
    }

    /// Collect path nodes.
    ///
    /// The collected nodes list starts with `a`, ends with `b` and contains all the intermediate
    /// steps on the best rated path from `a` to `b`. It is empty where the
    /// first-hop table has no entry for the pair, and where the table leads
    /// in a circle instead of to `b`.
    pub fn collect_path_nodes(&self, a: NodeKey, b: NodeKey) -> (r: Vec<NodeKey>)
        requires
            self.wf(),
        ensures
            r@ == path_nodes(self.tables().next, a, b, self.walk_limit()),
    {
        match self.next.edge_weight(a, b) {
            Some(first) => {
                let mut nodes: Vec<NodeKey> = Vec::new();
                nodes.push(a);
                let reached = self.collect_path_middle(*first, b, &mut nodes);
                if reached {
                    nodes.push(b);
                    nodes
                } else {
                    Vec::new()
                }
            },
            None => Vec::new(),
        }
    }

    /// Collect path intermediate steps on the best rated path toward `end`,
    /// starting at `next`. Returns whether the walk came to its end within
    /// the step limit.
    fn collect_path_middle(&self, next: NodeKey, end: NodeKey, nodes: &mut Vec<NodeKey>) -> (reached:
        bool)
        requires
            self.wf(),
        ensures
            match path_middle(self.tables().next, next, end, self.walk_limit()) {
                Some(middle) => reached && final(nodes)@ == old(nodes)@ + middle,
                None => !reached,
            },
    {
        let limit = self.next.edge_count();
        proof {
            self.next.lemma_wf();
        }
        let ghost start = nodes@;
        let ghost table = self.tables().next;
        let mut current = next;
        let mut steps: usize = 0;
        let mut open = true;
        // `walked` holds the nodes appended so far.
        let ghost mut walked: Seq<NodeKey> = Seq::empty();
        while open && (current.0 != end.0 || current.1 != end.1)
            invariant
                self.wf(),
                table == self.tables().next,
                limit == self.walk_limit(),
                steps <= limit,
                nodes@ == start + walked,
                open ==> path_middle(table, next, end, self.walk_limit()) == (match path_middle(
                    table,
                    current,
                    end,
                    (limit - steps) as nat,
                ) {
                    Some(rest) => Some(walked + rest),
                    None => None,
                }),
                !open ==> path_middle(table, next, end, self.walk_limit()) == Some(walked),
            decreases (if open { 1int } else { 0int }), limit - steps,
        {
            if steps >= limit {
                proof {
                    assert(path_middle(table, current, end, 0) == None::<Seq<NodeKey>>);
                }
                return false;
            }
            nodes.push(current);
            match self.next.edge_weight(current, end) {
                Some(n) => {
                    proof {
                        let rest_fuel = (limit - steps) as nat;
                        let tail = path_middle(table, table[(current, end)], end, (rest_fuel - 1) as nat);
                        match tail {
                            Some(rest) => {
                                assert(walked + (seq![current] + rest) == walked.push(current) + rest);
                            },
                            None => {},
                        }
                        walked = walked.push(current);
                        assert(nodes@ == start + walked);
                    }
                    current = *n;
                    steps = steps + 1;
                },
                None => {
                    proof {
                        assert(walked + seq![current] == walked.push(current));
                        walked = walked.push(current);
                        assert(nodes@ == start + walked);
                    }
                    open = false;
                },
            }
        }
        proof {
            if open {
                assert(current == end);
                assert(walked + Seq::<NodeKey>::empty() == walked);
            }
        }
        true
    }
}

} // verus!
