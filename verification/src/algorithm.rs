//! Exchange Rate Path (ERP) algorithm.
//!
//! One run numbers the identifiers of venues and assets, builds the graph
//! of quoted rates with a free transfer of each asset between the venues
//! that quote it, finds the best rate for every pair of nodes, and answers
//! the queries from those tables.

use crate::algorithm::laws::{
    lemma_answered_fails_on, lemma_bridge_all, lemma_bridge_row_end, lemma_bridge_step,
    lemma_run_knows_every_index, lemma_taken_grows,
};
use crate::algorithm::model::{
    all_indexed, answers_of, best_rate_answers, best_rate_tables, bridge_keys, bridge_keys_row,
    bridge_nodes,
    bridge_nodes_row, bridged, bridged_until, bridges_added, greater, index_in, is_index,
    is_rate, node_names, product, queries_answered, query_answered, query_destination,
    query_names, query_source, quote_taken, quotes_taken, Answer, Answered, Built,
};
use crate::floyd_warshall::result::FloydWarshallResult;
use crate::floyd_warshall::{models, FloydWarshall};
use crate::graph::{DiGraphMap, EdgeKey, NodeKey};
use crate::ordered_set::{
    name_set_get_index, name_set_get_index_of, name_set_insert_full, name_set_items, name_set_len,
    name_set_new, pair_set_get_index, pair_set_get_index_of, pair_set_insert_full, pair_set_items,
    pair_set_len, pair_set_with_capacity,
};
use crate::request::Request;
use crate::response::best_rate_path::BestRatePath;
use crate::response::Response;
use crate::sequences::{
    lemma_with_item_adds, lemma_with_item_contains, lemma_with_item_keeps, with_item,
};
use indexmap::IndexSet;
use std::cmp::Ordering;
use vstd::prelude::*;
use vstd::std_specs::cmp::PartialOrdSpec;
use vstd::std_specs::ops::MulSpec;

pub mod laws;
pub mod model;

verus! {

/// Why a run was given up.
#[derive(Clone, Copy, Debug, PartialEq, Eq, Structural)]
pub enum AlgorithmError {
    /// There are more identifiers than indices.
    TooManyIdentifiers,
    /// A pair of nodes has a best rate, but the first hops from the one do
    /// not lead to the other.
    BrokenPath,
    /// A node of a path bears an index that no identifier was given.
    UnknownIndex,
}

/// The largest number of identifiers that one run can number.
pub const MAX_IDENTIFIERS: usize = 0xffff_ffff;

/// Exchange Rate Path `Algorithm` structure.
///
/// `E` is the edge weight.
pub struct Algorithm<E> {
    graph: DiGraphMap<E>,
    names: IndexSet<String>,
    currency_exchanges: IndexSet<(u32, u32)>,
    unit: E,
}

impl<E: Copy> Algorithm<E> {
    /// The identifiers, in the order of their indices: the first has index 1.
    pub closed spec fn names_view(&self) -> Seq<Seq<char>> {
        name_set_items(self.names)
    }

    /// The nodes of the graph, in the order in which they were first seen.
    pub closed spec fn nodes_view(&self) -> Seq<NodeKey> {
        self.graph.nodes_view()
    }

    /// The keys of the edges of the graph, in the order in which they were
    /// first seen.
    pub closed spec fn keys_view(&self) -> Seq<EdgeKey> {
        self.graph.edge_keys()
    }

    /// The weighted edges of the graph.
    pub closed spec fn edges_view(&self) -> Map<EdgeKey, E> {
        self.graph.edges_view()
    }

    /// The currency-bridge index: each asset with each venue that quotes
    /// it, as a pair of the asset's index and the venue's, in the order in
    /// which they were first seen.
    pub closed spec fn quoted_view(&self) -> Seq<(u32, u32)> {
        pair_set_items(self.currency_exchanges)
    }

    /// The weight of a free transfer.
    pub closed spec fn unit_view(&self) -> E {
        self.unit
    }

    /// The representation invariant: the graph is well-formed, no
    /// identifier and no quoted pair is held twice, and every identifier
    /// has an index.
    pub closed spec fn wf(&self) -> bool {
        &&& self.graph.wf()
        &&& name_set_items(self.names).no_duplicates()
        &&& name_set_items(self.names).len() <= MAX_IDENTIFIERS
        &&& pair_set_items(self.currency_exchanges).no_duplicates()
    }

    /// What `wf` says, over the public views.
    pub proof fn lemma_wf(&self)
        requires
            self.wf(),
        ensures
            self.names_view().no_duplicates(),
            self.names_view().len() <= MAX_IDENTIFIERS,
            self.quoted_view().no_duplicates(),
            self.nodes_view().no_duplicates(),
            forall|e: EdgeKey| #[trigger]
                self.edges_view().contains_key(e) ==> self.nodes_view().contains(e.0)
                    && self.nodes_view().contains(e.1),
    {
        self.graph.lemma_wf();
    }

    /// An algorithm run with nothing in it yet. `unit` is the weight of a
    /// free transfer of an asset from one venue to another.
    pub fn new(unit: E) -> (r: Self)
        ensures
            r.wf(),
            r.names_view() == Seq::<Seq<char>>::empty(),
            r.nodes_view() == Seq::<NodeKey>::empty(),
            r.keys_view() == Seq::<EdgeKey>::empty(),
            r.edges_view() == Map::<EdgeKey, E>::empty(),
            r.quoted_view() == Seq::<(u32, u32)>::empty(),
            r.unit_view() == unit,
    {
        Self {
            graph: DiGraphMap::new(),
            names: name_set_new(),
            currency_exchanges: pair_set_with_capacity(0),
            unit,
        }
    }

    /// Get index of the provided identifier.
    ///
    /// If it is not yet indexed, do so and return the new index: one more
    /// than the number of identifiers before it. Where every index is
    /// taken, nothing changes and the error says so.
    pub fn node_to_index(&mut self, s: String) -> (r: Result<u32, AlgorithmError>)
        requires
            old(self).wf(),
        ensures
            final(self).wf(),
            final(self).nodes_view() == old(self).nodes_view(),
            final(self).keys_view() == old(self).keys_view(),
            final(self).edges_view() == old(self).edges_view(),
            final(self).quoted_view() == old(self).quoted_view(),
            final(self).unit_view() == old(self).unit_view(),
            match r {
                Ok(index) => {
                    &&& final(self).names_view() == with_item(old(self).names_view(), s@)
                    &&& index == index_in(final(self).names_view(), s@)
                    &&& is_index(final(self).names_view().len(), index)
                    &&& final(self).names_view()[index - 1] == s@
                    &&& !old(self).names_view().contains(s@) ==> index == old(
                        self,
                    ).names_view().len() + 1
                    &&& old(self).names_view().contains(s@) ==> index == index_in(
                        old(self).names_view(),
                        s@,
                    )
                },
                Err(e) => {
                    &&& e == AlgorithmError::TooManyIdentifiers
                    &&& final(self).names_view() == old(self).names_view()
                    &&& !old(self).names_view().contains(s@)
                    &&& old(self).names_view().len() == MAX_IDENTIFIERS
                },
            },
    {
        match name_set_get_index_of(&self.names, &s) {
            // Return the index for existing entry.
            Some(place) => {
                proof {
                    assert(name_set_items(self.names).contains(s@));
                    assert(name_set_items(self.names).index_of(s@) == place as int);
                }
                Ok((place + 1) as u32)
            },
            // Insert with a proper index based on the number of identifiers.
            None => {
                let count = name_set_len(&self.names);
                if count >= MAX_IDENTIFIERS {
                    return Err(AlgorithmError::TooManyIdentifiers);
                }
                let ghost before = name_set_items(self.names);
                let _ = name_set_insert_full(&mut self.names, s);
                proof {
                    let after = before.push(s@);
                    assert(after[count as int] == s@);
                    assert(after.no_duplicates()) by {
                        assert forall|x: int, y: int|
                            0 <= x < after.len() && 0 <= y < after.len() && x != y implies after[x]
                            != after[y] by {
                            if x < before.len() {
                                assert(before.contains(before[x]));
                            }
                            if y < before.len() {
                                assert(before.contains(before[y]));
                            }
                        }
                    }
                    assert(after.contains(s@));
                    assert(after.index_of(s@) == count as int);
                }
                Ok((count + 1) as u32)
            },
        }
    }

    /// Get the identifier for the provided index.
    ///
    /// Return `None` as it is possible that there's no identifier with the index.
    pub fn index_to_node(&self, i: &u32) -> (r: Option<String>)
        ensures
            match r {
                Some(name) => is_index(self.names_view().len(), *i) && name@ == self.names_view()[*i
                    - 1],
                None => !is_index(self.names_view().len(), *i),
            },
    {
        if *i == 0 {
            return None;
        }
        name_set_get_index(&self.names, (*i - 1) as usize)
    }

    /// Note that the asset with index `currency` is quoted at the venue
    /// with index `exchange`.
    pub fn collect_currency_exchanges(&mut self, currency: u32, exchange: u32)
        requires
            old(self).wf(),
        ensures
            final(self).wf(),
            final(self).quoted_view() == with_item(old(self).quoted_view(), (currency, exchange)),
            final(self).names_view() == old(self).names_view(),
            final(self).nodes_view() == old(self).nodes_view(),
            final(self).keys_view() == old(self).keys_view(),
            final(self).edges_view() == old(self).edges_view(),
            final(self).unit_view() == old(self).unit_view(),
    {
        let ghost before = pair_set_items(self.currency_exchanges);
        let _ = pair_set_insert_full(&mut self.currency_exchanges, (currency, exchange));
        proof {
            if !before.contains((currency, exchange)) {
                let after = before.push((currency, exchange));
                assert(after.no_duplicates()) by {
                    assert forall|x: int, y: int|
                        0 <= x < after.len() && 0 <= y < after.len() && x != y implies after[x]
                        != after[y] by {
                        if x < before.len() {
                            assert(before.contains(before[x]));
                        }
                        if y < before.len() {
                            assert(before.contains(before[y]));
                        }
                    }
                }
            }
        }
    }

    /// Whether the bridge index holds the asset with index `currency`, and
    /// whether it holds it for the venue with index `exchange`.
    pub fn quotes_currency_at(&self, currency: u32, exchange: u32) -> (r: bool)
        ensures
            r == self.quoted_view().contains((currency, exchange)),
    {
        pair_set_get_index_of(&self.currency_exchanges, (currency, exchange)).is_some()
    }

    /// The graph built so far.
    pub fn get_graph(&self) -> (g: &DiGraphMap<E>)
        ensures
            g.wf() == self.wf_graph(),
            g.nodes_view() == self.nodes_view(),
            g.edge_keys() == self.keys_view(),
            g.edges_view() == self.edges_view(),
    {
        &self.graph
    }

    /// Whether the graph is well-formed: part of `wf`.
    pub closed spec fn wf_graph(&self) -> bool {
        self.graph.wf()
    }

    /// Everything that the run holds, as one value.
    pub open spec fn built(&self) -> Built<E> {
        Built {
            names: self.names_view(),
            nodes: self.nodes_view(),
            keys: self.keys_view(),
            edges: self.edges_view(),
            quoted: self.quoted_view(),
        }
    }

    /// Build the graph from the price updates of `request`, in their order:
    /// both edges of each, and then the bridging edges.
    ///
    /// Fails where the identifiers outnumber the indices, and only there.
    pub fn construct_graph(&mut self, request: &Request<E>) -> (r: Result<(), AlgorithmError>)
        requires
            old(self).wf(),
        ensures
            final(self).wf(),
            final(self).unit_view() == old(self).unit_view(),
            match r {
                Ok(_) => final(self).built() == bridges_added(
                    quotes_taken(old(self).built(), request.quotes_view()),
                    old(self).unit_view(),
                ),
                Err(e) => e == AlgorithmError::TooManyIdentifiers,
            },
            r.is_ok() <==> quotes_taken(old(self).built(), request.quotes_view()).names.len()
                <= MAX_IDENTIFIERS,
    {
        let ghost start = self.built();
        let ghost quotes = request.quotes_view();
        let updates = request.get_price_updates();
        let mut i: usize = 0;
        // Process all `PriceUpdates`.
        while i < updates.len()
            invariant
                i <= updates@.len(),
                updates@.len() == quotes.len(),
                forall|x: int| 0 <= x < updates@.len() ==> (#[trigger] updates@[x])@ == quotes[x],
                self.wf(),
                self.unit_view() == old(self).unit_view(),
                start == old(self).built(),
                quotes == request.quotes_view(),
                self.built() == quotes_taken(start, quotes.take(i as int)),
            decreases updates.len() - i,
        {
            let price_update = &updates[i];
            let ghost q = quotes[i as int];
            let ghost b0 = self.built();
            proof {
                assert(quotes.take(i + 1).drop_last() == quotes.take(i as int));
                assert(quotes.take(i + 1).last() == q);
                lemma_taken_grows(start, quotes, i as int + 1);
                self.lemma_wf();
                assert(quotes_taken(start, quotes.take(i + 1)) == quote_taken(b0, q));
            }
            // Prepare indexes.
            let exchange_index = match self.node_to_index(price_update.get_exchange().clone()) {
                Ok(index) => index,
                Err(e) => {
                    proof {
                        lemma_with_item_adds(b0.names, q.exchange);
                        lemma_with_item_adds(with_item(b0.names, q.exchange), q.source_currency);
                        lemma_with_item_adds(
                            with_item(with_item(b0.names, q.exchange), q.source_currency),
                            q.destination_currency,
                        );
                        assert(quote_taken(b0, q).names.len() > MAX_IDENTIFIERS);
                    }
                    return Err(e);
                },
            };
            let ghost names1 = self.names_view();
            let source_currency_index = match self.node_to_index(
                price_update.get_source_currency().clone(),
            ) {
                Ok(index) => index,
                Err(e) => {
                    proof {
                        lemma_with_item_adds(b0.names, q.exchange);
                        lemma_with_item_adds(names1, q.source_currency);
                        lemma_with_item_adds(
                            with_item(names1, q.source_currency),
                            q.destination_currency,
                        );
                        assert(quote_taken(b0, q).names.len() > MAX_IDENTIFIERS);
                    }
                    return Err(e);
                },
            };
            let ghost names2 = self.names_view();
            let destination_currency_index = match self.node_to_index(
                price_update.get_destination_currency().clone(),
            ) {
                Ok(index) => index,
                Err(e) => {
                    proof {
                        lemma_with_item_adds(b0.names, q.exchange);
                        lemma_with_item_adds(names1, q.source_currency);
                        lemma_with_item_adds(names2, q.destination_currency);
                        assert(quote_taken(b0, q).names.len() > MAX_IDENTIFIERS);
                    }
                    return Err(e);
                },
            };
            proof {
                let names3 = self.names_view();
                lemma_with_item_adds(b0.names, q.exchange);
                lemma_with_item_adds(names1, q.source_currency);
                lemma_with_item_adds(names2, q.destination_currency);
                lemma_with_item_keeps(names1, q.source_currency, q.exchange);
                lemma_with_item_keeps(names2, q.destination_currency, q.exchange);
                lemma_with_item_keeps(names2, q.destination_currency, q.source_currency);
                assert(exchange_index == index_in(names3, q.exchange));
                assert(source_currency_index == index_in(names3, q.source_currency));
                assert(destination_currency_index == index_in(names3, q.destination_currency));
            }
            // Get start and end node.
            let a = (exchange_index, source_currency_index);
            let b = (exchange_index, destination_currency_index);
            // Add forward edge.
            let _ = self.graph.add_edge(a, b, *price_update.get_forward_factor());
            // Add backward edge.
            let _ = self.graph.add_edge(b, a, *price_update.get_backward_factor());
            proof {
                let nodes1 = with_item(with_item(b0.nodes, a), b);
                assert(with_item(with_item(nodes1, b), a) == nodes1) by {
                    lemma_with_item_contains(b0.nodes, a, a);
                    lemma_with_item_contains(with_item(b0.nodes, a), b, a);
                    lemma_with_item_contains(with_item(b0.nodes, a), b, b);
                }
            }
            // Collect provided currencies.
            self.collect_currency_exchanges(source_currency_index, exchange_index);
            self.collect_currency_exchanges(destination_currency_index, exchange_index);
            proof {
                assert(self.built() == quote_taken(b0, q));
            }
            i = i + 1;
        }
        proof {
            assert(quotes.take(updates@.len() as int) == quotes);
            self.lemma_wf();
        }
        // For each currency add edges, so that each `(exchange, currency)` is connected to every
        // other `(other_exchange, currency)` with an edge weight of 1.0.
        self.add_currency_exchanges_edges();
        Ok(())
    }

    /// Turn the nodes of a path into the identifiers that their indices
    /// stand for, or say that one index stands for none.
    fn name_path(&self, path: &Vec<NodeKey>) -> (r: Option<Vec<(String, String)>>)
        ensures
            match r {
                Some(named) => {
                    &&& all_indexed(self.names_view().len(), path@)
                    &&& named@.len() == path@.len()
                    &&& forall|i: int|
                        0 <= i < path@.len() ==> (named@[i].0@, named@[i].1@) == #[trigger] node_names(
                            self.names_view(),
                            path@[i],
                        )
                },
                None => !all_indexed(self.names_view().len(), path@),
            },
    {
        let mut named: Vec<(String, String)> = Vec::with_capacity(path.len());
        let mut i: usize = 0;
        while i < path.len()
            invariant
                i <= path@.len(),
                named@.len() == i,
                all_indexed(self.names_view().len(), path@.take(i as int)),
                forall|x: int|
                    0 <= x < i ==> (named@[x].0@, named@[x].1@) == #[trigger] node_names(
                        self.names_view(),
                        path@[x],
                    ),
            decreases path.len() - i,
        {
            let node = path[i];
            let exchange = match self.index_to_node(&node.0) {
                Some(name) => name,
                None => {
                    return None;
                },
            };
            let currency = match self.index_to_node(&node.1) {
                Some(name) => name,
                None => {
                    return None;
                },
            };
            named.push((exchange, currency));
            i = i + 1;
        }
        assert(path@.take(path@.len() as int) == path@);
        Some(named)
    }

    /// Answer the queries of `request`, in their order, from the tables of
    /// best rates: each query that has a best rate gets the rate and the
    /// path, with the identifiers in place of the indices; one that has none
    /// is passed over.
    ///
    /// Fails where the identifiers outnumber the indices, where a best rate
    /// has no path that leads to its end, and where a node of a path bears
    /// an index without an identifier.
    pub fn form_response(&mut self, request: &Request<E>, fw_result: &FloydWarshallResult<E>) -> (r:
        Result<Response<E>, AlgorithmError>)
        requires
            old(self).wf(),
            fw_result.wf(),
        ensures
            final(self).wf(),
            final(self).nodes_view() == old(self).nodes_view(),
            final(self).keys_view() == old(self).keys_view(),
            final(self).edges_view() == old(self).edges_view(),
            final(self).quoted_view() == old(self).quoted_view(),
            final(self).unit_view() == old(self).unit_view(),
            match queries_answered(
                Answered { names: old(self).names_view(), answers: Seq::empty() },
                fw_result.tables(),
                request.queries_view(),
            ) {
                Ok(answered) => {
                    &&& r.is_ok()
                    &&& answers_of(r.unwrap()@) == answered.answers
                    &&& final(self).names_view() == answered.names
                },
                Err(e) => r == Err::<Response<E>, AlgorithmError>(e),
            },
    {
        let mut response = Response::new();
        let ghost start = Answered::<E> { names: self.names_view(), answers: Seq::empty() };
        let ghost tables = fw_result.tables();
        let ghost queries = request.queries_view();
        let requests = request.get_rate_requests();
        let mut i: usize = 0;
        proof {
            assert(answers_of(response@) =~= start.answers);
        }
        // Process all rate requests.
        while i < requests.len()
            invariant
                i <= requests@.len(),
                requests@.len() == queries.len(),
                forall|x: int| 0 <= x < requests@.len() ==> (#[trigger] requests@[x])@ == queries[x],
                self.wf(),
                fw_result.wf(),
                tables == fw_result.tables(),
                queries == request.queries_view(),
                start == (Answered::<E> { names: old(self).names_view(), answers: Seq::empty() }),
                self.nodes_view() == old(self).nodes_view(),
                self.keys_view() == old(self).keys_view(),
                self.edges_view() == old(self).edges_view(),
                self.quoted_view() == old(self).quoted_view(),
                self.unit_view() == old(self).unit_view(),
                queries_answered(start, tables, queries.take(i as int)) == Ok::<
                    Answered<E>,
                    AlgorithmError,
                >(Answered { names: self.names_view(), answers: answers_of(response@) }),
            decreases requests.len() - i,
        {
            let rate_request = &requests[i];
            let ghost q = queries[i as int];
            let ghost names0 = self.names_view();
            let ghost done = Answered { names: names0, answers: answers_of(response@) };
            proof {
                assert(queries.take(i + 1).drop_last() == queries.take(i as int));
                assert(queries.take(i + 1).last() == q);
                assert(queries_answered(start, tables, queries.take(i + 1)) == query_answered(
                    done,
                    tables,
                    q,
                ));
                lemma_answered_fails_on(start, tables, queries, i as int + 1);
                self.lemma_wf();
                lemma_with_item_adds(names0, q.source_exchange);
                lemma_with_item_adds(with_item(names0, q.source_exchange), q.source_currency);
                lemma_with_item_adds(
                    with_item(with_item(names0, q.source_exchange), q.source_currency),
                    q.destination_exchange,
                );
                lemma_with_item_adds(
                    with_item(
                        with_item(with_item(names0, q.source_exchange), q.source_currency),
                        q.destination_exchange,
                    ),
                    q.destination_currency,
                );
            }
            // Prepare indexes.
            let source_exchange_index = match self.node_to_index(
                rate_request.get_source_exchange().clone(),
            ) {
                Ok(index) => index,
                Err(e) => {
                    return Err(e);
                },
            };
            let ghost names1 = self.names_view();
            let source_currency_index = match self.node_to_index(
                rate_request.get_source_currency().clone(),
            ) {
                Ok(index) => index,
                Err(e) => {
                    return Err(e);
                },
            };
            let ghost names2 = self.names_view();
            let destination_exchange_index = match self.node_to_index(
                rate_request.get_destination_exchange().clone(),
            ) {
                Ok(index) => index,
                Err(e) => {
                    return Err(e);
                },
            };
            let ghost names3 = self.names_view();
            let destination_currency_index = match self.node_to_index(
                rate_request.get_destination_currency().clone(),
            ) {
                Ok(index) => index,
                Err(e) => {
                    return Err(e);
                },
            };
            proof {
                let names4 = self.names_view();
                assert(names4 == query_names(names0, q));
                lemma_with_item_keeps(names1, q.source_currency, q.source_exchange);
                lemma_with_item_keeps(names2, q.destination_exchange, q.source_exchange);
                lemma_with_item_keeps(names3, q.destination_currency, q.source_exchange);
                lemma_with_item_keeps(names2, q.destination_exchange, q.source_currency);
                lemma_with_item_keeps(names3, q.destination_currency, q.source_currency);
                lemma_with_item_keeps(names3, q.destination_currency, q.destination_exchange);
            }
            // Get start and end node.
            let a = (source_exchange_index, source_currency_index);
            let b = (destination_exchange_index, destination_currency_index);
            proof {
                assert(a == query_source(self.names_view(), q));
                assert(b == query_destination(self.names_view(), q));
            }
            match fw_result.get_path_rate(a, b) {
                Some(rate) => {
                    let path = fw_result.collect_path_nodes(a, b);
                    if path.len() == 0 {
                        return Err(AlgorithmError::BrokenPath);
                    }
                    // Re-map path from indexes to identifiers.
                    let named = match self.name_path(&path) {
                        Some(named) => named,
                        None => {
                            return Err(AlgorithmError::UnknownIndex);
                        },
                    };
                    let ghost before = response@;
                    let best_rate_path = BestRatePath::<E>::new(*rate, named);
                    response.add_best_rate_path(best_rate_path);
                    proof {
                        let answer = Answer {
                            rate: *rate,
                            path: Seq::new(
                                path@.len(),
                                |x: int| node_names(self.names_view(), path@[x]),
                            ),
                        };
                        assert(best_rate_path.path_texts() =~= answer.path);
                        assert(answers_of(response@) =~= answers_of(before).push(answer));
                    }
                },
                None => {
                    // The request has no answer: there is no path between its nodes.
                },
            }
            i = i + 1;
        }
        proof {
            assert(queries.take(requests@.len() as int) == queries);
        }
        Ok(response)
    }

    /// For each currency add edges, so that each `(exchange, currency)` is
    /// connected to every other `(other_exchange, currency)` with an edge
    /// of the unit weight, in both directions.
    pub fn add_currency_exchanges_edges(&mut self)
        requires
            old(self).wf(),
        ensures
            final(self).wf(),
            final(self).edges_view() == bridged(
                old(self).edges_view(),
                old(self).quoted_view(),
                old(self).unit_view(),
            ),
            final(self).nodes_view() == bridge_nodes(
                old(self).nodes_view(),
                old(self).quoted_view(),
                old(self).quoted_view().len() as int,
            ),
            final(self).keys_view() == bridge_keys(
                old(self).keys_view(),
                old(self).quoted_view(),
                old(self).quoted_view().len() as int,
            ),
            final(self).quoted_view() == old(self).quoted_view(),
            final(self).names_view() == old(self).names_view(),
            final(self).unit_view() == old(self).unit_view(),
    {
        let ghost quoted = pair_set_items(self.currency_exchanges);
        let ghost edges0 = self.graph.edges_view();
        let ghost nodes0 = self.graph.nodes_view();
        let ghost keys0 = self.graph.edge_keys();
        let unit = self.unit;
        let count = pair_set_len(&self.currency_exchanges);
        let mut top: usize = 0;
        proof {
            assert(self.graph.edges_view() =~= bridged_until(edges0, quoted, unit, 0, 1));
        }
        while top < count
            invariant
                top <= count,
                count == quoted.len(),
                quoted == pair_set_items(self.currency_exchanges),
                quoted.no_duplicates(),
                unit == self.unit,
                self.wf(),
                name_set_items(self.names) == name_set_items(old(self).names),
                self.graph.edges_view() == bridged_until(
                    edges0,
                    quoted,
                    unit,
                    top as int,
                    top as int + 1,
                ),
                self.graph.nodes_view() == bridge_nodes(nodes0, quoted, top as int),
                self.graph.edge_keys() == bridge_keys(keys0, quoted, top as int),
            decreases count - top,
        {
            let first = match pair_set_get_index(&self.currency_exchanges, top) {
                Some(pair) => pair,
                // Not reached: `top` is a place of the index.
                None => {
                    return ;
                },
            };
            let mut below: usize = top + 1;
            while below < count
                invariant
                    top < count,
                    top < below <= count,
                    count == quoted.len(),
                    quoted == pair_set_items(self.currency_exchanges),
                    quoted.no_duplicates(),
                    first == quoted[top as int],
                    unit == self.unit,
                    self.wf(),
                    name_set_items(self.names) == name_set_items(old(self).names),
                    self.graph.edges_view() == bridged_until(
                        edges0,
                        quoted,
                        unit,
                        top as int,
                        below as int,
                    ),
                    self.graph.nodes_view() == bridge_nodes_row(
                        bridge_nodes(nodes0, quoted, top as int),
                        quoted,
                        top as int,
                        below as int,
                    ),
                    self.graph.edge_keys() == bridge_keys_row(
                        bridge_keys(keys0, quoted, top as int),
                        quoted,
                        top as int,
                        below as int,
                    ),
                decreases count - below,
            {
                let second = match pair_set_get_index(&self.currency_exchanges, below) {
                    Some(pair) => pair,
                    // Not reached: `below` is a place of the index.
                    None => {
                        return ;
                    },
                };
                if first.0 == second.0 {
                    let a = (first.1, first.0);
                    let b = (second.1, first.0);
                    // Add forward edge.
                    let _ = self.graph.add_edge(a, b, unit);
                    // Add backward edge.
                    let _ = self.graph.add_edge(b, a, unit);
                    proof {
                        let nodes1 = bridge_nodes_row(
                            bridge_nodes(nodes0, quoted, top as int),
                            quoted,
                            top as int,
                            below as int,
                        );
                        let nodes2 = with_item(with_item(nodes1, a), b);
                        assert(with_item(with_item(nodes2, b), a) == nodes2) by {
                            lemma_with_item_contains(nodes1, a, a);
                            lemma_with_item_contains(with_item(nodes1, a), b, a);
                            lemma_with_item_contains(with_item(nodes1, a), b, b);
                        }
                    }
                }
                proof {
                    lemma_bridge_step(edges0, quoted, unit, top as int, below as int);
                    assert(self.graph.edges_view() =~= bridged_until(
                        edges0,
                        quoted,
                        unit,
                        top as int,
                        below as int + 1,
                    ));
                }
                below = below + 1;
            }
            proof {
                assert(bridged_until(edges0, quoted, unit, top as int, count as int)
                    =~= bridged_until(edges0, quoted, unit, top as int + 1, top as int + 2)) by {
                    lemma_bridge_row_end(edges0, quoted, unit, top as int);
                }
            }
            top = top + 1;
        }
        proof {
            lemma_bridge_all(edges0, quoted, unit);
        }
    }
}

impl<E: Copy + core::ops::Mul<Output = E> + PartialOrd> Algorithm<E> {
    /// Find the best rate and the first hop for every pair of nodes of the
    /// graph built so far.
    pub fn run_customized_floyd_warshall(&self) -> (r: FloydWarshallResult<E>)
        requires
            self.wf(),
            is_rate::<E>(),
        ensures
            r.wf(),
            r.tables() == best_rate_tables(self.nodes_view(), self.edges_view()),
    {
        let mul = |x: E, y: E| -> (z: E)
            requires
                x.mul_req(y),
            ensures
                z == x.mul_spec(y),
            { x * y };
        let sharp_greater = |x: E, y: E| -> (b: bool)
            ensures
                b == (x.partial_cmp_spec(&y) == Some(Ordering::Greater)),
            { x > y };
        let alg = FloydWarshall::new_customized(mul, sharp_greater);
        proof {
            assert(models(mul, sharp_greater, product::<E>(), greater::<E>()));
        }
        alg.find_paths(&self.graph)
    }

    /// One whole run: build the graph from the price updates of `request`,
    /// find the best rates, and answer its queries. `unit` is the weight of
    /// a free transfer of an asset from one venue to another: the rate 1.
    pub fn process(request: &Request<E>, unit: E) -> (r: Result<Response<E>, AlgorithmError>)
        requires
            is_rate::<E>(),
        ensures
            match best_rate_answers(request.quotes_view(), request.queries_view(), unit) {
                Ok(answers) => r.is_ok() && answers_of(r.unwrap()@) == answers,
                Err(e) => r == Err::<Response<E>, AlgorithmError>(e),
            },
            r matches Err(e) ==> e == AlgorithmError::TooManyIdentifiers || e
                == AlgorithmError::BrokenPath,
    {
        proof {
            lemma_run_knows_every_index(request.quotes_view(), request.queries_view(), unit);
        }
        let mut alg = Algorithm::<E>::new(unit);
        match alg.construct_graph(request) {
            Ok(_) => {},
            Err(e) => {
                return Err(e);
            },
        }
        let result = alg.run_customized_floyd_warshall();
        alg.form_response(request, &result)
    }
}

} // verus!
