//! What holds of every run.

use crate::algorithm::model::{
    all_indexed, best_rate_answers, best_rate_tables, bridge_before, bridge_nodes,
    bridge_nodes_row, bridged, bridged_until, bridges_added, greater, index_in, is_bridge,
    is_index, nothing_built, product, queries_answered, query_answered, query_destination,
    query_names, query_source, quote_taken, quoted_place, quotes_taken, Answer, Answered, Built,
};
use crate::algorithm::{AlgorithmError, MAX_IDENTIFIERS};
use crate::floyd_warshall::laws::{grounded, lemma_best_tables_closed, shaped, starts_on_edge};
use crate::floyd_warshall::result::{path_middle, path_nodes, walk_limit_of, Tables};
use crate::graph::{EdgeKey, NodeKey};
use crate::request::exchange_rate_request::QueryView;
use crate::request::price_update::QuoteView;
use crate::request::{lemma_later_quote_stands, quote_added};
use crate::sequences::{
    lemma_with_item_adds, lemma_with_item_contains, lemma_with_item_keeps, with_item,
};
use vstd::prelude::*;

verus! {

/// A failure at one query is the failure of the whole list.
pub proof fn lemma_answered_fails_on<E>(
    s: Answered<E>,
    t: Tables<E>,
    queries: Seq<QueryView>,
    count: int,
)
    requires
        0 <= count <= queries.len(),
    ensures
        queries_answered(s, t, queries.take(count)) is Err ==> queries_answered(s, t, queries)
            == queries_answered(s, t, queries.take(count)),
    decreases queries.len(),
{
    if count == queries.len() {
        assert(queries.take(count) == queries);
    } else {
        lemma_answered_fails_on(s, t, queries.drop_last(), count);
        assert(queries.drop_last().take(count) == queries.take(count));
    }
}

/// Taking in more price updates never lessens the number of identifiers.
pub proof fn lemma_taken_grows<E>(b: Built<E>, quotes: Seq<QuoteView<E>>, count: int)
    requires
        0 <= count <= quotes.len(),
    ensures
        quotes_taken(b, quotes.take(count)).names.len() <= quotes_taken(b, quotes).names.len(),
        b.names.len() <= quotes_taken(b, quotes.take(count)).names.len(),
    decreases quotes.len(),
{
    if quotes.len() == 0 {
        assert(quotes.take(count) == quotes);
    } else if count == quotes.len() {
        assert(quotes.take(count) == quotes);
        lemma_taken_grows(b, quotes.drop_last(), count - 1);
        assert(quotes.drop_last().take(count - 1) == quotes.drop_last());
        lemma_taken_step_grows(quotes_taken(b, quotes.drop_last()), quotes.last());
    } else {
        lemma_taken_grows(b, quotes.drop_last(), count);
        assert(quotes.drop_last().take(count) == quotes.take(count));
        lemma_taken_step_grows(quotes_taken(b, quotes.drop_last()), quotes.last());
    }
}

/// Taking in one price update never lessens the number of identifiers.
pub proof fn lemma_taken_step_grows<E>(b: Built<E>, q: QuoteView<E>)
    ensures
        b.names.len() <= quote_taken(b, q).names.len(),
{
}

/// What a run keeps while it builds its graph: no identifier and no node
/// is held twice; both ends of every edge are nodes; both indices of every
/// node stand for identifiers; and every asset that is noted as quoted at a
/// venue is a node there.
pub open spec fn sound<E>(b: Built<E>) -> bool {
    &&& b.names.no_duplicates()
    &&& b.nodes.no_duplicates()
    &&& grounded(b.nodes, b.edges)
    &&& all_indexed(b.names.len(), b.nodes)
    &&& forall|pair: (u32, u32)| #[trigger] b.quoted.contains(pair) ==> b.nodes.contains((pair.1, pair.0))
}

/// Taking in a price update keeps the run sound, as long as the
/// identifiers do not outnumber the indices.
pub proof fn lemma_quote_taken_sound<E>(b: Built<E>, q: QuoteView<E>)
    requires
        sound(b),
        quote_taken(b, q).names.len() <= MAX_IDENTIFIERS,
    ensures
        sound(quote_taken(b, q)),
        b.names.len() <= quote_taken(b, q).names.len(),
{
    let names1 = with_item(b.names, q.exchange);
    let names2 = with_item(names1, q.source_currency);
    let names = with_item(names2, q.destination_currency);
    lemma_with_item_adds(b.names, q.exchange);
    lemma_with_item_adds(names1, q.source_currency);
    lemma_with_item_adds(names2, q.destination_currency);
    lemma_with_item_keeps(names1, q.source_currency, q.exchange);
    lemma_with_item_keeps(names2, q.destination_currency, q.exchange);
    lemma_with_item_keeps(names2, q.destination_currency, q.source_currency);
    let after = quote_taken(b, q);
    let exchange = index_in(names, q.exchange) as u32;
    let source = index_in(names, q.source_currency) as u32;
    let destination = index_in(names, q.destination_currency) as u32;
    let from = (exchange, source);
    let to = (exchange, destination);
    assert(is_index(names.len(), exchange));
    assert(is_index(names.len(), source));
    assert(is_index(names.len(), destination));
    let nodes1 = with_item(b.nodes, from);
    lemma_with_item_adds(b.nodes, from);
    lemma_with_item_adds(nodes1, to);
    assert forall|n: NodeKey| after.nodes.contains(n) == (b.nodes.contains(n) || n == from || n
        == to) by {
        lemma_with_item_contains(b.nodes, from, n);
        lemma_with_item_contains(nodes1, to, n);
    }
    assert forall|i: int| 0 <= i < after.nodes.len() implies is_index(
        names.len(),
        (#[trigger] after.nodes[i]).0,
    ) && is_index(names.len(), after.nodes[i].1) by {
        let n = after.nodes[i];
        assert(after.nodes.contains(n));
        if b.nodes.contains(n) {
            let x = b.nodes.index_of(n);
            assert(is_index(b.names.len(), b.nodes[x].0));
        }
    }
    assert forall|e: EdgeKey| #[trigger] after.edges.contains_key(e) implies after.nodes.contains(
        e.0,
    ) && after.nodes.contains(e.1) by {
        if b.edges.contains_key(e) {
            assert(b.nodes.contains(e.0));
        }
    }
    let quoted1 = with_item(b.quoted, (source, exchange));
    assert forall|pair: (u32, u32)| #[trigger] after.quoted.contains(pair) implies after.nodes.contains(
        (pair.1, pair.0),
    ) by {
        lemma_with_item_contains(b.quoted, (source, exchange), pair);
        lemma_with_item_contains(quoted1, (destination, exchange), pair);
        if b.quoted.contains(pair) {
            assert(b.nodes.contains((pair.1, pair.0)));
        }
    }
}

/// Taking in price updates keeps the run sound, as long as the identifiers
/// do not outnumber the indices.
pub proof fn lemma_quotes_taken_sound<E>(b: Built<E>, quotes: Seq<QuoteView<E>>)
    requires
        sound(b),
        quotes_taken(b, quotes).names.len() <= MAX_IDENTIFIERS,
    ensures
        sound(quotes_taken(b, quotes)),
    decreases quotes.len(),
{
    if quotes.len() > 0 {
        let before = quotes_taken(b, quotes.drop_last());
        lemma_taken_step_grows(before, quotes.last());
        lemma_quotes_taken_sound(b, quotes.drop_last());
        lemma_quote_taken_sound(before, quotes.last());
    }
}

/// Where every quoted asset is a node at its venue already, bridging adds
/// no node.
pub proof fn lemma_bridge_nodes_same(nodes: Seq<NodeKey>, quoted: Seq<(u32, u32)>, top: int)
    requires
        forall|pair: (u32, u32)| #[trigger] quoted.contains(pair) ==> nodes.contains((pair.1, pair.0)),
        0 <= top <= quoted.len(),
    ensures
        bridge_nodes(nodes, quoted, top) == nodes,
    decreases top,
{
    if top > 0 {
        lemma_bridge_nodes_same(nodes, quoted, top - 1);
        lemma_bridge_row_same(nodes, quoted, top - 1, quoted.len() as int);
    }
}

/// Where every quoted asset is a node at its venue already, bridging one
/// place with those after it adds no node.
pub proof fn lemma_bridge_row_same(
    nodes: Seq<NodeKey>,
    quoted: Seq<(u32, u32)>,
    top: int,
    below: int,
)
    requires
        forall|pair: (u32, u32)| #[trigger] quoted.contains(pair) ==> nodes.contains((pair.1, pair.0)),
        0 <= top < quoted.len(),
        below <= quoted.len(),
    ensures
        bridge_nodes_row(nodes, quoted, top, below) == nodes,
    decreases below - top,
{
    if below > top + 1 {
        lemma_bridge_row_same(nodes, quoted, top, below - 1);
        assert(quoted.contains(quoted[top]));
        assert(quoted.contains(quoted[below - 1]));
    }
}

/// Bridging keeps a sound run sound.
pub proof fn lemma_bridges_added_sound<E>(b: Built<E>, unit: E)
    requires
        sound(b),
    ensures
        sound(bridges_added(b, unit)),
        bridges_added(b, unit).nodes == b.nodes,
{
    lemma_bridge_nodes_same(b.nodes, b.quoted, b.quoted.len() as int);
    let after = bridges_added(b, unit);
    assert forall|e: EdgeKey| #[trigger] after.edges.contains_key(e) implies after.nodes.contains(
        e.0,
    ) && after.nodes.contains(e.1) by {
        if is_bridge(b.quoted, e) {
            assert(b.nodes.contains((e.0.0, e.0.1)));
            assert(b.nodes.contains((e.1.0, e.1.1)));
        } else {
            assert(b.edges.contains_key(e));
        }
    }
}

/// In tables in shape, every node that a walk along the first hops visits
/// after its start is a node of the graph.
pub proof fn lemma_walk_visits_nodes<E>(
    nodes: Seq<NodeKey>,
    edges: Map<EdgeKey, E>,
    t: Tables<E>,
    current: NodeKey,
    end: NodeKey,
    fuel: nat,
)
    requires
        grounded(nodes, edges),
        shaped(nodes, edges, t),
        nodes.contains(current),
        path_middle(t.next, current, end, fuel) is Some,
    ensures
        forall|x: int|
            0 <= x < path_middle(t.next, current, end, fuel).unwrap().len() ==> nodes.contains(
                #[trigger] path_middle(t.next, current, end, fuel).unwrap()[x],
            ),
    decreases fuel,
{
    if current != end && fuel > 0 && t.next.contains_key((current, end)) {
        let hop = t.next[(current, end)];
        assert(starts_on_edge(edges, t, (current, end)));
        assert(edges.contains_key((current, hop)));
        lemma_walk_visits_nodes(nodes, edges, t, hop, end, (fuel - 1) as nat);
    }
}

/// Going through the queries of a sound run never comes upon an index
/// without an identifier.
pub proof fn lemma_queries_know_every_index<E>(
    nodes: Seq<NodeKey>,
    edges: Map<EdgeKey, E>,
    t: Tables<E>,
    s: Answered<E>,
    queries: Seq<QueryView>,
    count: nat,
)
    requires
        grounded(nodes, edges),
        shaped(nodes, edges, t),
        all_indexed(count, nodes),
        count <= s.names.len(),
    ensures
        queries_answered(s, t, queries) != Err::<Answered<E>, AlgorithmError>(
            AlgorithmError::UnknownIndex,
        ),
        queries_answered(s, t, queries) matches Ok(done) ==> count <= done.names.len(),
    decreases queries.len(),
{
    if queries.len() > 0 {
        lemma_queries_know_every_index(nodes, edges, t, s, queries.drop_last(), count);
        match queries_answered(s, t, queries.drop_last()) {
            Ok(done) => {
                lemma_query_knows_every_index(nodes, edges, t, done, queries.last(), count);
            },
            Err(_) => {},
        }
    }
}

/// Answering one query of a sound run never comes upon an index without an
/// identifier.
pub proof fn lemma_query_knows_every_index<E>(
    nodes: Seq<NodeKey>,
    edges: Map<EdgeKey, E>,
    t: Tables<E>,
    s: Answered<E>,
    q: QueryView,
    count: nat,
)
    requires
        grounded(nodes, edges),
        shaped(nodes, edges, t),
        all_indexed(count, nodes),
        count <= s.names.len(),
    ensures
        query_answered(s, t, q) != Err::<Answered<E>, AlgorithmError>(AlgorithmError::UnknownIndex),
        query_answered(s, t, q) matches Ok(done) ==> count <= done.names.len(),
{
    let names1 = with_item(s.names, q.source_exchange);
    let names2 = with_item(names1, q.source_currency);
    let names3 = with_item(names2, q.destination_exchange);
    let names = query_names(s.names, q);
    lemma_with_item_contains(s.names, q.source_exchange, q.source_exchange);
    lemma_with_item_contains(names1, q.source_currency, q.source_exchange);
    lemma_with_item_contains(names1, q.source_currency, q.source_currency);
    lemma_with_item_contains(names2, q.destination_exchange, q.source_exchange);
    lemma_with_item_contains(names2, q.destination_exchange, q.source_currency);
    lemma_with_item_contains(names2, q.destination_exchange, q.destination_exchange);
    lemma_with_item_contains(names3, q.destination_currency, q.source_exchange);
    lemma_with_item_contains(names3, q.destination_currency, q.source_currency);
    lemma_with_item_contains(names3, q.destination_currency, q.destination_exchange);
    lemma_with_item_contains(names3, q.destination_currency, q.destination_currency);
    assert(s.names.len() <= names.len());
    let a = query_source(names, q);
    let b = query_destination(names, q);
    let path = path_nodes(t.next, a, b, walk_limit_of(t.next));
    if names.len() <= MAX_IDENTIFIERS && t.path.contains_key((a, b)) && path.len() > 0 {
        assert(is_index(names.len(), a.0) && is_index(names.len(), a.1));
        assert(is_index(names.len(), b.0) && is_index(names.len(), b.1));
        let hop = t.next[(a, b)];
        let middle = path_middle(t.next, hop, b, walk_limit_of(t.next)).unwrap();
        assert(path == (seq![a] + middle).push(b));
        assert(starts_on_edge(edges, t, (a, b)));
        assert(edges.contains_key((a, hop)));
        assert(nodes.contains(hop));
        lemma_walk_visits_nodes(nodes, edges, t, hop, b, walk_limit_of(t.next));
        assert forall|i: int| 0 <= i < path.len() implies is_index(
            names.len(),
            (#[trigger] path[i]).0,
        ) && is_index(names.len(), path[i].1) by {
            if 0 < i < path.len() - 1 {
                let n = middle[i - 1];
                assert(path[i] == n);
                assert(nodes.contains(n));
                let x = nodes.index_of(n);
                assert(is_index(count, nodes[x].0));
            }
        }
    }
}

/// A whole run never comes upon an index without an identifier: it ends
/// with its answers, or because the identifiers outnumber the indices, or
/// because a best rate has no path that leads to its end.
pub proof fn lemma_run_knows_every_index<E: core::ops::Mul<Output = E> + PartialOrd>(
    quotes: Seq<QuoteView<E>>,
    queries: Seq<QueryView>,
    unit: E,
)
    ensures
        best_rate_answers(quotes, queries, unit) != Err::<Seq<Answer<E>>, AlgorithmError>(
            AlgorithmError::UnknownIndex,
        ),
{
    let taken = quotes_taken(nothing_built::<E>(), quotes);
    if taken.names.len() <= MAX_IDENTIFIERS {
        lemma_quotes_taken_sound(nothing_built::<E>(), quotes);
        lemma_bridges_added_sound(taken, unit);
        let built = bridges_added(taken, unit);
        lemma_best_tables_closed(product::<E>(), greater::<E>(), true, built.nodes, built.edges);
        lemma_queries_know_every_index(
            built.nodes,
            built.edges,
            best_rate_tables(built.nodes, built.edges),
            Answered { names: built.names, answers: Seq::empty() },
            queries,
            built.names.len(),
        );
    }
}

/// Deduplication. Two price updates of one key, taken into an empty
/// request one after the other, leave one entry, that of the later one, and
/// the graph that is built from the request has the two edges of that one
/// alone, with its factors: the edge from the source asset to the
/// destination asset bears its forward factor, and the edge back, which is
/// the same edge where the two assets are one, its backward factor.
pub proof fn lemma_later_quote_builds_alone<E>(first: QuoteView<E>, second: QuoteView<E>)
    requires
        first.key() == second.key(),
    ensures
        ({
            let later = if second.timestamp.later_than(&first.timestamp) {
                second
            } else {
                first
            };
            let quotes = quote_added(quote_added(Seq::empty(), first), second);
            let built = quotes_taken(nothing_built::<E>(), quotes);
            let venue = index_in(built.names, later.exchange) as u32;
            let source = index_in(built.names, later.source_currency) as u32;
            let destination = index_in(built.names, later.destination_currency) as u32;
            &&& quotes == seq![later]
            &&& built == quote_taken(nothing_built::<E>(), later)
            &&& built.edges.dom() =~= set![
                ((venue, source), (venue, destination)),
                ((venue, destination), (venue, source)),
            ]
            &&& built.edges[((venue, destination), (venue, source))] == later.backward_factor
            &&& source != destination ==> built.edges[((venue, source), (venue, destination))]
                == later.forward_factor
        }),
{
    let later = if second.timestamp.later_than(&first.timestamp) {
        second
    } else {
        first
    };
    assert(crate::request::quote_keys(Seq::<QuoteView<E>>::empty()) =~= Seq::empty());
    lemma_later_quote_stands(Seq::empty(), first, second);
    let quotes = quote_added(quote_added(Seq::empty(), first), second);
    assert(quotes =~= seq![later]);
    assert(quotes.drop_last() =~= Seq::<QuoteView<E>>::empty());
    assert(quotes.last() == later);
    assert(quotes_taken(nothing_built::<E>(), quotes.drop_last()) == nothing_built::<E>());
}

/// Whether every edge joins two nodes of one venue.
pub open spec fn within_venues<E>(edges: Map<EdgeKey, E>) -> bool {
    forall|e: EdgeKey| #[trigger] edges.contains_key(e) ==> e.0.0 == e.1.0
}

/// The edges of price updates join nodes of one venue each.
pub proof fn lemma_quotes_within_venues<E>(b: Built<E>, quotes: Seq<QuoteView<E>>)
    requires
        within_venues(b.edges),
    ensures
        within_venues(quotes_taken(b, quotes).edges),
    decreases quotes.len(),
{
    if quotes.len() > 0 {
        lemma_quotes_within_venues(b, quotes.drop_last());
    }
}

/// Bridging symmetry. After bridging, an asset that two different venues
/// quote has an edge of the unit weight from each of the two to the other;
/// an edge between two venues from or to a venue that does not quote the
/// asset is there only if it was there before; and no edge that was there
/// is lost.
pub proof fn lemma_bridging_symmetry<E>(
    edges: Map<EdgeKey, E>,
    quoted: Seq<(u32, u32)>,
    unit: E,
    asset: u32,
    x: u32,
    y: u32,
    z: u32,
)
    requires
        x != y,
        quoted.contains((asset, x)),
        quoted.contains((asset, y)),
        !quoted.contains((asset, z)),
    ensures
        bridged(edges, quoted, unit).contains_key(((x, asset), (y, asset))),
        bridged(edges, quoted, unit)[((x, asset), (y, asset))] == unit,
        bridged(edges, quoted, unit).contains_key(((y, asset), (x, asset))),
        bridged(edges, quoted, unit)[((y, asset), (x, asset))] == unit,
        bridged(edges, quoted, unit).contains_key(((x, asset), (z, asset))) == edges.contains_key(
            ((x, asset), (z, asset)),
        ),
        bridged(edges, quoted, unit).contains_key(((z, asset), (x, asset))) == edges.contains_key(
            ((z, asset), (x, asset)),
        ),
        forall|e: EdgeKey| #[trigger] edges.contains_key(e) ==> bridged(edges, quoted, unit).contains_key(e),
{
    assert(is_bridge(quoted, ((x, asset), (y, asset))));
    assert(is_bridge(quoted, ((y, asset), (x, asset))));
    assert(!is_bridge(quoted, ((x, asset), (z, asset))));
    assert(!is_bridge(quoted, ((z, asset), (x, asset))));
}

/// In the graph of a whole run, the edges between two different venues are
/// the bridging edges and no others: there is one, of the unit weight, just
/// where both nodes bear one asset and both venues quote it.
pub proof fn lemma_bridges_of_built<E>(quotes: Seq<QuoteView<E>>, unit: E, e: EdgeKey)
    requires
        e.0.0 != e.1.0,
    ensures
        ({
            let taken = quotes_taken(nothing_built::<E>(), quotes);
            let built = bridges_added(taken, unit);
            &&& built.edges.contains_key(e) == is_bridge(taken.quoted, e)
            &&& built.edges.contains_key(e) ==> built.edges[e] == unit
            &&& is_bridge(taken.quoted, e) == is_bridge(taken.quoted, (e.1, e.0))
        }),
{
    lemma_quotes_within_venues(nothing_built::<E>(), quotes);
    let taken = quotes_taken(nothing_built::<E>(), quotes);
    if taken.edges.contains_key(e) {
        assert(e.0.0 == e.1.0);
    }
}

/// Looking at the pair of places (`top`, `below`) adds the two edges
/// between its nodes where both quote one asset, and nothing otherwise.
pub(crate) proof fn lemma_bridge_step<E>(
    edges: Map<EdgeKey, E>,
    quoted: Seq<(u32, u32)>,
    unit: E,
    top: int,
    below: int,
)
    requires
        quoted.no_duplicates(),
        0 <= top < below < quoted.len(),
    ensures
        quoted[top].0 == quoted[below].0 ==> bridged_until(edges, quoted, unit, top, below + 1)
            =~= bridged_until(edges, quoted, unit, top, below).insert(
            ((quoted[top].1, quoted[top].0), (quoted[below].1, quoted[top].0)),
            unit,
        ).insert(((quoted[below].1, quoted[top].0), (quoted[top].1, quoted[top].0)), unit),
        quoted[top].0 != quoted[below].0 ==> bridged_until(edges, quoted, unit, top, below + 1)
            =~= bridged_until(edges, quoted, unit, top, below),
{
    let a: NodeKey = (quoted[top].1, quoted[top].0);
    let b: NodeKey = (quoted[below].1, quoted[below].0);
    assert(quoted.contains(quoted[top]));
    assert(quoted.contains(quoted[below]));
    assert(quoted.index_of(quoted[top]) == top);
    assert(quoted.index_of(quoted[below]) == below);
    assert forall|e: EdgeKey|
        bridge_before(quoted, e, top, below + 1) == (bridge_before(quoted, e, top, below) || (
        quoted[top].0 == quoted[below].0 && (e == (a, b) || e == (b, a)))) by {
        if is_bridge(quoted, e) {
            let p = quoted_place(quoted, e.0);
            let q = quoted_place(quoted, e.1);
            assert(quoted[p] == (e.0.1, e.0.0));
            assert(quoted[q] == (e.1.1, e.1.0));
        }
        if quoted[top].0 == quoted[below].0 && (e == (a, b) || e == (b, a)) {
            assert(quoted[top] != quoted[below]);
        }
    }
}

/// Once a place was paired with every later one, the next place's turn
/// starts from the same edges.
pub(crate) proof fn lemma_bridge_row_end<E>(edges: Map<EdgeKey, E>, quoted: Seq<(u32, u32)>, unit: E, top: int)
    requires
        quoted.no_duplicates(),
        0 <= top < quoted.len(),
    ensures
        bridged_until(edges, quoted, unit, top, quoted.len() as int) =~= bridged_until(
            edges,
            quoted,
            unit,
            top + 1,
            top + 2,
        ),
{
    assert forall|e: EdgeKey|
        bridge_before(quoted, e, top, quoted.len() as int) == bridge_before(
            quoted,
            e,
            top + 1,
            top + 2,
        ) by {
        if is_bridge(quoted, e) {
            let p = quoted_place(quoted, e.0);
            let q = quoted_place(quoted, e.1);
            assert(quoted[p] == (e.0.1, e.0.0));
            assert(quoted[q] == (e.1.1, e.1.0));
            assert(p != q);
        }
    }
}

/// Once every place had its turn, every bridging edge is there.
pub(crate) proof fn lemma_bridge_all<E>(edges: Map<EdgeKey, E>, quoted: Seq<(u32, u32)>, unit: E)
    requires
        quoted.no_duplicates(),
    ensures
        bridged_until(edges, quoted, unit, quoted.len() as int, quoted.len() as int + 1)
            =~= bridged(edges, quoted, unit),
{
    assert forall|e: EdgeKey|
        bridge_before(quoted, e, quoted.len() as int, quoted.len() as int + 1) == is_bridge(
            quoted,
            e,
        ) by {
        if is_bridge(quoted, e) {
            let p = quoted_place(quoted, e.0);
            let q = quoted_place(quoted, e.1);
            assert(quoted[p] == (e.0.1, e.0.0));
            assert(quoted[q] == (e.1.1, e.1.0));
        }
    }
}

} // verus!
