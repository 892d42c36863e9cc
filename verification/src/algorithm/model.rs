//! What a run computes, as mathematics: the graph that the price updates
//! build, the bridging edges, and the answers to the queries.

use crate::algorithm::{AlgorithmError, MAX_IDENTIFIERS};
use crate::floyd_warshall::best_tables;
use crate::floyd_warshall::result::{path_nodes, walk_limit_of, Tables};
use crate::graph::{EdgeKey, NodeKey};
use crate::request::exchange_rate_request::QueryView;
use crate::request::price_update::QuoteView;
use crate::response::best_rate_path::BestRatePath;
use crate::sequences::with_item;
use std::cmp::Ordering;
use vstd::prelude::*;
use vstd::std_specs::cmp::PartialOrdSpec;
use vstd::std_specs::ops::MulSpec;

verus! {

/// The index of `name`: its place among the identifiers, counted from one.
pub open spec fn index_in(names: Seq<Seq<char>>, name: Seq<char>) -> int {
    names.index_of(name) + 1
}

/// Whether `index` is the index of one of the first `count` identifiers.
pub open spec fn is_index(count: nat, index: u32) -> bool {
    1 <= index <= count
}

/// The product of two weights.
pub open spec fn product<E: core::ops::Mul<Output = E>>() -> spec_fn(E, E) -> E {
    |x: E, y: E| x.mul_spec(y)
}

/// Whether the first weight is greater than the second.
pub open spec fn greater<E: PartialOrd>() -> spec_fn(E, E) -> bool {
    |x: E, y: E| x.partial_cmp_spec(&y) == Some(Ordering::Greater)
}

/// Weights of type `E` can be multiplied and compared for the best rate:
/// any two have a product, and products and comparisons are as the type's
/// model says.
pub open spec fn is_rate<E: core::ops::Mul<Output = E> + PartialOrd>() -> bool {
    &&& E::obeys_mul_spec()
    &&& E::obeys_partial_cmp_spec()
    &&& forall|x: E, y: E| #[trigger] x.mul_req(y)
}

/// The tables of best rates over a graph: weights multiply along a path,
/// the greater product is the better one, and triples with a repeated node
/// are left out.
pub open spec fn best_rate_tables<E: core::ops::Mul<Output = E> + PartialOrd>(
    nodes: Seq<NodeKey>,
    edges: Map<EdgeKey, E>,
) -> Tables<E> {
    best_tables(product::<E>(), greater::<E>(), true, nodes, edges)
}

/// The run with nothing in it.
pub open spec fn nothing_built<E>() -> Built<E> {
    Built {
        names: Seq::empty(),
        nodes: Seq::empty(),
        keys: Seq::empty(),
        edges: Map::empty(),
        quoted: Seq::empty(),
    }
}

/// The answers of one whole run, or why it was given up: the graph of the
/// price updates with its bridging edges, the tables of best rates over it,
/// and the queries answered from them.
pub open spec fn best_rate_answers<E: core::ops::Mul<Output = E> + PartialOrd>(
    quotes: Seq<QuoteView<E>>,
    queries: Seq<QueryView>,
    unit: E,
) -> Result<Seq<Answer<E>>, AlgorithmError> {
    let taken = quotes_taken(nothing_built::<E>(), quotes);
    let built = bridges_added(taken, unit);
    if taken.names.len() > MAX_IDENTIFIERS {
        Err(AlgorithmError::TooManyIdentifiers)
    } else {
        match queries_answered(
            Answered { names: built.names, answers: Seq::empty() },
            best_rate_tables(built.nodes, built.edges),
            queries,
        ) {
            Ok(answered) => Ok(answered.answers),
            Err(e) => Err(e),
        }
    }
}

/// One answer: the best rate and the nodes of its path, each as the texts
/// of its venue and its asset.
pub ghost struct Answer<E> {
    pub rate: E,
    pub path: Seq<(Seq<char>, Seq<char>)>,
}

/// The identifiers and the answers while the queries are gone through.
pub ghost struct Answered<E> {
    pub names: Seq<Seq<char>>,
    pub answers: Seq<Answer<E>>,
}

/// The answers of a response, each with its path as texts.
pub open spec fn answers_of<E>(paths: Seq<BestRatePath<E>>) -> Seq<Answer<E>> {
    Seq::new(
        paths.len(),
        |i: int| Answer { rate: paths[i].rate_view(), path: paths[i].path_texts() },
    )
}

/// The identifiers once the four of a query have indices: source venue,
/// source asset, destination venue, destination asset, in this order.
pub open spec fn query_names(names: Seq<Seq<char>>, q: QueryView) -> Seq<Seq<char>> {
    with_item(
        with_item(with_item(with_item(names, q.source_exchange), q.source_currency), q.destination_exchange),
        q.destination_currency,
    )
}

/// The node that a query starts from.
pub open spec fn query_source(names: Seq<Seq<char>>, q: QueryView) -> NodeKey {
    (index_in(names, q.source_exchange) as u32, index_in(names, q.source_currency) as u32)
}

/// The node that a query leads to.
pub open spec fn query_destination(names: Seq<Seq<char>>, q: QueryView) -> NodeKey {
    (
        index_in(names, q.destination_exchange) as u32,
        index_in(names, q.destination_currency) as u32,
    )
}

/// Whether both indices of every node of `path` stand for one of the first
/// `count` identifiers.
pub open spec fn all_indexed(count: nat, path: Seq<NodeKey>) -> bool {
    forall|i: int|
        0 <= i < path.len() ==> is_index(count, (#[trigger] path[i]).0) && is_index(
            count,
            path[i].1,
        )
}

/// The identifiers of the venue and the asset of a node.
pub open spec fn node_names(names: Seq<Seq<char>>, node: NodeKey) -> (Seq<char>, Seq<char>) {
    (names[node.0 - 1], names[node.1 - 1])
}

/// The run after one query was gone through: its identifiers have indices;
/// where its pair of nodes has a best rate, the answer is the rate and the
/// path that the first hops describe, with identifiers for indices; where it
/// has none, there is no answer.
pub open spec fn query_answered<E>(s: Answered<E>, t: Tables<E>, q: QueryView) -> Result<
    Answered<E>,
    AlgorithmError,
> {
    let names = query_names(s.names, q);
    let a = query_source(names, q);
    let b = query_destination(names, q);
    let path = path_nodes(t.next, a, b, walk_limit_of(t.next));
    if names.len() > MAX_IDENTIFIERS {
        Err(AlgorithmError::TooManyIdentifiers)
    } else if !t.path.contains_key((a, b)) {
        Ok(Answered { names, answers: s.answers })
    } else if path.len() == 0 {
        Err(AlgorithmError::BrokenPath)
    } else if !all_indexed(names.len(), path) {
        Err(AlgorithmError::UnknownIndex)
    } else {
        Ok(
            Answered {
                names,
                answers: s.answers.push(
                    Answer {
                        rate: t.path[(a, b)],
                        path: Seq::new(path.len(), |i: int| node_names(names, path[i])),
                    },
                ),
            },
        )
    }
}

/// The run after the queries were gone through, in order: the first failure
/// ends it.
pub open spec fn queries_answered<E>(s: Answered<E>, t: Tables<E>, queries: Seq<QueryView>) -> Result<
    Answered<E>,
    AlgorithmError,
>
    decreases queries.len(),
{
    if queries.len() == 0 {
        Ok(s)
    } else {
        match queries_answered(s, t, queries.drop_last()) {
            Ok(done) => query_answered(done, t, queries.last()),
            Err(e) => Err(e),
        }
    }
}

/// What one run holds: the identifiers in the order of their indices, the
/// nodes and edges of the graph, and the currency-bridge index.
pub ghost struct Built<E> {
    /// The identifiers, in the order of their indices.
    pub names: Seq<Seq<char>>,
    /// The nodes of the graph, in the order in which they were first seen.
    pub nodes: Seq<NodeKey>,
    /// The keys of the edges, in the order in which they were first seen.
    pub keys: Seq<EdgeKey>,
    /// The weights of the edges.
    pub edges: Map<EdgeKey, E>,
    /// The currency-bridge index.
    pub quoted: Seq<(u32, u32)>,
}

/// The run after one price update was taken in: its three identifiers have
/// indices, venue first, then source asset, then destination asset; the
/// edge from the source asset to the destination asset at the venue bears
/// the forward factor and the edge back bears the backward factor; and both
/// assets are noted as quoted at the venue.
pub open spec fn quote_taken<E>(b: Built<E>, q: QuoteView<E>) -> Built<E> {
    let names = with_item(
        with_item(with_item(b.names, q.exchange), q.source_currency),
        q.destination_currency,
    );
    let exchange = index_in(names, q.exchange) as u32;
    let source = index_in(names, q.source_currency) as u32;
    let destination = index_in(names, q.destination_currency) as u32;
    Built {
        names,
        nodes: with_item(with_item(b.nodes, (exchange, source)), (exchange, destination)),
        keys: with_item(
            with_item(b.keys, ((exchange, source), (exchange, destination))),
            ((exchange, destination), (exchange, source)),
        ),
        edges: b.edges.insert(((exchange, source), (exchange, destination)), q.forward_factor).insert(
            ((exchange, destination), (exchange, source)),
            q.backward_factor,
        ),
        quoted: with_item(with_item(b.quoted, (source, exchange)), (destination, exchange)),
    }
}

/// The run after the price updates of `quotes` were taken in, in order.
pub open spec fn quotes_taken<E>(b: Built<E>, quotes: Seq<QuoteView<E>>) -> Built<E>
    decreases quotes.len(),
{
    if quotes.len() == 0 {
        b
    } else {
        quote_taken(quotes_taken(b, quotes.drop_last()), quotes.last())
    }
}

/// The run after the bridging edges were added.
pub open spec fn bridges_added<E>(b: Built<E>, unit: E) -> Built<E> {
    Built {
        names: b.names,
        nodes: bridge_nodes(b.nodes, b.quoted, b.quoted.len() as int),
        keys: bridge_keys(b.keys, b.quoted, b.quoted.len() as int),
        edges: bridged(b.edges, b.quoted, unit),
        quoted: b.quoted,
    }
}

/// The place of the quoted pair that stands for the node `n`.
pub open spec fn quoted_place(quoted: Seq<(u32, u32)>, n: NodeKey) -> int {
    quoted.index_of((n.1, n.0))
}

/// Whether `e` is a bridging edge: it joins one asset at two different
/// venues that both quote it.
pub open spec fn is_bridge(quoted: Seq<(u32, u32)>, e: EdgeKey) -> bool {
    &&& e.0.1 == e.1.1
    &&& e.0.0 != e.1.0
    &&& quoted.contains((e.0.1, e.0.0))
    &&& quoted.contains((e.1.1, e.1.0))
}

/// The edges after bridging: every bridging edge with the unit weight, and
/// every other edge as it was.
pub open spec fn bridged<E>(edges: Map<EdgeKey, E>, quoted: Seq<(u32, u32)>, unit: E) -> Map<
    EdgeKey,
    E,
> {
    Map::new(
        |e: EdgeKey| is_bridge(quoted, e) || edges.contains_key(e),
        |e: EdgeKey|
            if is_bridge(quoted, e) {
                unit
            } else {
                edges[e]
            },
    )
}

/// Whether the bridging edge `e` is among those that were added before the
/// pair of places (`top`, `below`) is looked at: pairs are taken by their
/// earlier place, then by their later one.
pub open spec fn bridge_before(quoted: Seq<(u32, u32)>, e: EdgeKey, top: int, below: int) -> bool {
    let p = quoted_place(quoted, e.0);
    let q = quoted_place(quoted, e.1);
    let low = if p < q {
        p
    } else {
        q
    };
    let high = if p < q {
        q
    } else {
        p
    };
    is_bridge(quoted, e) && (low < top || (low == top && high < below))
}

/// The edges while bridging is under way.
pub open spec fn bridged_until<E>(
    edges: Map<EdgeKey, E>,
    quoted: Seq<(u32, u32)>,
    unit: E,
    top: int,
    below: int,
) -> Map<EdgeKey, E> {
    Map::new(
        |e: EdgeKey| bridge_before(quoted, e, top, below) || edges.contains_key(e),
        |e: EdgeKey|
            if bridge_before(quoted, e, top, below) {
                unit
            } else {
                edges[e]
            },
    )
}

/// The nodes after the quoted pair at place `top` was bridged with those
/// at the places after it and before `below`.
pub open spec fn bridge_nodes_row(
    nodes: Seq<NodeKey>,
    quoted: Seq<(u32, u32)>,
    top: int,
    below: int,
) -> Seq<NodeKey>
    decreases below - top,
{
    if below <= top + 1 {
        nodes
    } else {
        let before = bridge_nodes_row(nodes, quoted, top, below - 1);
        if quoted[top].0 == quoted[below - 1].0 {
            with_item(
                with_item(before, (quoted[top].1, quoted[top].0)),
                (quoted[below - 1].1, quoted[top].0),
            )
        } else {
            before
        }
    }
}

/// The edge keys after the quoted pair at place `top` was bridged with
/// those at the places after it and before `below`: first the edge from the
/// earlier venue to the later, then the edge back.
pub open spec fn bridge_keys_row(
    keys: Seq<EdgeKey>,
    quoted: Seq<(u32, u32)>,
    top: int,
    below: int,
) -> Seq<EdgeKey>
    decreases below - top,
{
    if below <= top + 1 {
        keys
    } else {
        let before = bridge_keys_row(keys, quoted, top, below - 1);
        let a = (quoted[top].1, quoted[top].0);
        let b = (quoted[below - 1].1, quoted[top].0);
        if quoted[top].0 == quoted[below - 1].0 {
            with_item(with_item(before, (a, b)), (b, a))
        } else {
            before
        }
    }
}

/// The edge keys after the quoted pairs at the places before `top` were
/// bridged, each with those after it.
pub open spec fn bridge_keys(keys: Seq<EdgeKey>, quoted: Seq<(u32, u32)>, top: int) -> Seq<EdgeKey>
    decreases top,
{
    if top <= 0 {
        keys
    } else {
        bridge_keys_row(bridge_keys(keys, quoted, top - 1), quoted, top - 1, quoted.len() as int)
    }
}

/// The nodes after the quoted pairs at the places before `top` were
/// bridged, each with those after it.
pub open spec fn bridge_nodes(nodes: Seq<NodeKey>, quoted: Seq<(u32, u32)>, top: int) -> Seq<
    NodeKey,
>
    decreases top,
{
    if top <= 0 {
        nodes
    } else {
        bridge_nodes_row(
            bridge_nodes(nodes, quoted, top - 1),
            quoted,
            top - 1,
            quoted.len() as int,
        )
    }
}

} // verus!
