use exchange_rate_path::algorithm::{Algorithm, AlgorithmError};
use exchange_rate_path::floyd_warshall::result::FloydWarshallResult;
use exchange_rate_path::graph::DiGraphMap;
use exchange_rate_path::request::exchange_rate_request::ExchangeRateRequest;
use exchange_rate_path::request::Request;

fn factor(text: String) -> Option<f32> {
    text.parse::<f32>().ok()
}

fn request_of(text: &str) -> Request<f32> {
    let lines: Vec<String> = text.lines().map(String::from).collect();
    Request::<f32>::read_from(&lines, &factor).unwrap()
}

#[test]
fn algorithm_new() {
    let _alg = Algorithm::<f32>::new(1.0);
}

#[test]
fn collect_currency_exchanges() {
    let mut alg = Algorithm::<f32>::new(1.0);

    alg.collect_currency_exchanges(1, 2);
    alg.collect_currency_exchanges(1, 3);
    alg.collect_currency_exchanges(1, 4);
    alg.collect_currency_exchanges(5, 6);

    // Test exchanges existence.
    assert!(alg.quotes_currency_at(1, 2));
    assert!(alg.quotes_currency_at(1, 3));
    assert!(alg.quotes_currency_at(1, 4));
    assert!(alg.quotes_currency_at(5, 6));

    // Test currencies non-existence.
    for exchange in 0..10 {
        assert!(!alg.quotes_currency_at(2, exchange));
    }

    // Test exchanges non-existence.
    assert!(!alg.quotes_currency_at(1, 7));
    assert!(!alg.quotes_currency_at(5, 2));
}

#[test]
fn add_currency_exchanges_edges() {
    let mut alg = Algorithm::<f32>::new(1.0);

    alg.collect_currency_exchanges(1, 2);
    alg.collect_currency_exchanges(1, 3);
    alg.collect_currency_exchanges(1, 4);
    alg.collect_currency_exchanges(5, 6);

    alg.add_currency_exchanges_edges();

    // Test edges existence.
    assert_eq!(alg.get_graph().edge_weight((2, 1), (3, 1)), Some(&1.0));
    assert_eq!(alg.get_graph().edge_weight((3, 1), (2, 1)), Some(&1.0));
    assert_eq!(alg.get_graph().edge_weight((2, 1), (4, 1)), Some(&1.0));
    assert_eq!(alg.get_graph().edge_weight((4, 1), (2, 1)), Some(&1.0));
    assert_eq!(alg.get_graph().edge_weight((3, 1), (4, 1)), Some(&1.0));
    assert_eq!(alg.get_graph().edge_weight((4, 1), (3, 1)), Some(&1.0));

    // Test edges non-existence.
    assert_eq!(alg.get_graph().contains_edge((2, 1), (6, 1)), false);
    assert_eq!(alg.get_graph().contains_edge((6, 1), (2, 1)), false);
    assert_eq!(alg.get_graph().contains_edge((6, 5), (2, 5)), false);
}

#[test]
fn bridging_joins_each_pair_of_venues_in_both_directions_and_no_other() {
    let mut alg = Algorithm::<f32>::new(1.0);

    // The asset 9 is quoted at the venues 1 and 2 only; the venue 3 quotes the asset 8.
    alg.collect_currency_exchanges(9, 1);
    alg.collect_currency_exchanges(8, 3);
    alg.collect_currency_exchanges(9, 2);

    alg.add_currency_exchanges_edges();

    assert_eq!(alg.get_graph().edge_weight((1, 9), (2, 9)), Some(&1.0));
    assert_eq!(alg.get_graph().edge_weight((2, 9), (1, 9)), Some(&1.0));
    assert_eq!(alg.get_graph().edge_count(), 2);
    assert!(!alg.get_graph().contains_edge((1, 9), (3, 9)));
    assert!(!alg.get_graph().contains_edge((3, 9), (1, 9)));
    assert!(!alg.get_graph().contains_edge((3, 8), (1, 8)));
    assert!(!alg.get_graph().contains_edge((1, 9), (1, 9)));
    assert_eq!(alg.get_graph().nodes(), vec![(1, 9), (2, 9)]);
}

#[test]
fn bridging_overwrites_a_quoted_edge_between_two_venues() {
    let mut alg = Algorithm::<f32>::new(1.0);
    alg.collect_currency_exchanges(9, 1);
    alg.collect_currency_exchanges(9, 2);
    alg.add_currency_exchanges_edges();
    alg.add_currency_exchanges_edges();

    assert_eq!(alg.get_graph().edge_count(), 2);
    assert_eq!(alg.get_graph().edge_weight((1, 9), (2, 9)), Some(&1.0));
}

#[test]
fn node_to_index_counts_from_one() {
    let mut alg = Algorithm::<f32>::new(1.0);

    assert_eq!(alg.node_to_index("E1".to_string()), Ok(1));
    assert_eq!(alg.node_to_index("BTC".to_string()), Ok(2));
    assert_eq!(alg.node_to_index("E1".to_string()), Ok(1));
    assert_eq!(alg.node_to_index("USD".to_string()), Ok(3));
    assert_eq!(alg.node_to_index("BTC".to_string()), Ok(2));

    assert_eq!(alg.index_to_node(&0), None);
    assert_eq!(alg.index_to_node(&1), Some("E1".to_string()));
    assert_eq!(alg.index_to_node(&2), Some("BTC".to_string()));
    assert_eq!(alg.index_to_node(&3), Some("USD".to_string()));
    assert_eq!(alg.index_to_node(&4), None);
}

#[test]
fn construct_graph() {
    let mut alg = Algorithm::<f32>::new(1.0);

    let text_input = "2017-11-01T09:42:23+00:00 E1 BTC USD 1000.0 0.0009
2018-11-01T09:42:23+00:00 E1 ETH USD 100.0 0.001
2018-11-01T09:42:23+00:00 E2 ETH USD 100.0 0.001
2018-11-01T09:42:23+00:00 E3 ETH BTC 100.0 0.001";

    // Test creation of Request from multiline text.
    let request = request_of(text_input);

    alg.construct_graph(&request).unwrap();

    // Exchanges.
    let e1 = String::from("E1");
    let e2 = String::from("E2");
    let e3 = String::from("E3");

    // Currencies.
    let btc = String::from("BTC");
    let eth = String::from("ETH");
    let usd = String::from("USD");

    //
    let e1_index = alg.node_to_index(e1.clone()).unwrap();
    let e2_index = alg.node_to_index(e2.clone()).unwrap();
    let e3_index = alg.node_to_index(e3.clone()).unwrap();
    let btc_index = alg.node_to_index(btc.clone()).unwrap();
    let eth_index = alg.node_to_index(eth.clone()).unwrap();
    let usd_index = alg.node_to_index(usd.clone()).unwrap();

    // Test ETH edges existence.
    assert_eq!(
        alg.get_graph().edge_weight((e1_index, eth_index), (e2_index, eth_index)),
        Some(&1.0)
    );
    assert_eq!(
        alg.get_graph().edge_weight((e2_index, eth_index), (e1_index, eth_index)),
        Some(&1.0)
    );
    assert_eq!(
        alg.get_graph().edge_weight((e1_index, eth_index), (e3_index, eth_index)),
        Some(&1.0)
    );
    assert_eq!(
        alg.get_graph().edge_weight((e3_index, eth_index), (e1_index, eth_index)),
        Some(&1.0)
    );
    assert_eq!(
        alg.get_graph().edge_weight((e2_index, eth_index), (e3_index, eth_index)),
        Some(&1.0)
    );
    assert_eq!(
        alg.get_graph().edge_weight((e3_index, eth_index), (e2_index, eth_index)),
        Some(&1.0)
    );

    // Test USD edges existence.
    assert_eq!(
        alg.get_graph().edge_weight((e1_index, usd_index), (e2_index, usd_index)),
        Some(&1.0)
    );
    assert_eq!(
        alg.get_graph().edge_weight((e2_index, usd_index), (e1_index, usd_index)),
        Some(&1.0)
    );

    // Test USD edges non-existence.
    assert_eq!(
        alg.get_graph().contains_edge((e1_index, usd_index), (e3_index, usd_index)),
        false
    );
    assert_eq!(
        alg.get_graph().contains_edge((e3_index, usd_index), (e1_index, usd_index)),
        false
    );
    assert_eq!(
        alg.get_graph().contains_edge((e2_index, usd_index), (e3_index, usd_index)),
        false
    );
    assert_eq!(
        alg.get_graph().contains_edge((e3_index, usd_index), (e2_index, usd_index)),
        false
    );

    // Test BTC edges existence.
    assert_eq!(
        alg.get_graph().edge_weight((e1_index, btc_index), (e3_index, btc_index)),
        Some(&1.0)
    );
    assert_eq!(
        alg.get_graph().edge_weight((e3_index, btc_index), (e1_index, btc_index)),
        Some(&1.0)
    );
}

#[test]
fn construct_graph_numbers_identifiers_and_adds_both_edges_of_a_quote() {
    let mut alg = Algorithm::<f32>::new(1.0);
    let request = request_of("2017-11-01T09:42:23+00:00 E1 BTC USD 1000.0 0.0009");

    alg.construct_graph(&request).unwrap();

    // Venue first, then source asset, then destination asset.
    assert_eq!(alg.index_to_node(&1), Some("E1".to_string()));
    assert_eq!(alg.index_to_node(&2), Some("BTC".to_string()));
    assert_eq!(alg.index_to_node(&3), Some("USD".to_string()));
    assert_eq!(alg.get_graph().nodes(), vec![(1, 2), (1, 3)]);
    assert_eq!(alg.get_graph().edge_weight((1, 2), (1, 3)), Some(&1000.0));
    assert_eq!(alg.get_graph().edge_weight((1, 3), (1, 2)), Some(&0.0009));
    assert_eq!(alg.get_graph().edge_count(), 2);
    assert!(alg.quotes_currency_at(2, 1));
    assert!(alg.quotes_currency_at(3, 1));
}

#[test]
fn construct_graph_takes_the_later_of_two_quotes_of_one_key() {
    let mut alg = Algorithm::<f32>::new(1.0);
    let request = request_of(
        "2018-11-01T09:42:23+00:00 E1 BTC USD 1000.0 0.0009
2019-11-01T09:42:23+00:00 E1 BTC USD 2000.0 0.0004
2017-11-01T09:42:23+00:00 E1 BTC USD 3000.0 0.0003",
    );

    alg.construct_graph(&request).unwrap();

    assert_eq!(alg.get_graph().edge_count(), 2);
    assert_eq!(alg.get_graph().edge_weight((1, 2), (1, 3)), Some(&2000.0));
    assert_eq!(alg.get_graph().edge_weight((1, 3), (1, 2)), Some(&0.0004));
}

#[test]
fn run_customized_floyd_warshall() {
    let mut alg = Algorithm::<f32>::new(1.0);

    let text_input = "2017-11-01T09:42:23+00:00 E1 BTC USD 1000.0 0.0009
2018-11-01T09:42:23+00:00 E1 ETH USD 102.0 0.009
2018-11-01T09:42:23+00:00 E2 ETH USD 100.0 0.0096
2018-11-01T09:42:23+00:00 E3 ETH BTC 0.08 10";

    // Test creation of Request from multiline text.
    let request = request_of(text_input);

    alg.construct_graph(&request).unwrap();
    let result = alg.run_customized_floyd_warshall();

    // Exchanges.
    let e1 = String::from("E1");
    let e2 = String::from("E2");
    let e3 = String::from("E3");

    // Currencies.
    let btc = String::from("BTC");
    let eth = String::from("ETH");
    let usd = String::from("USD");

    //
    let e1_index = alg.node_to_index(e1.clone()).unwrap();
    let e2_index = alg.node_to_index(e2.clone()).unwrap();
    let e3_index = alg.node_to_index(e3.clone()).unwrap();

    let _btc_index = alg.node_to_index(btc.clone()).unwrap();
    let eth_index = alg.node_to_index(eth.clone()).unwrap();
    let usd_index = alg.node_to_index(usd.clone()).unwrap();

    // Test rate and path from `(E1, ETH)` to `(E2, ETH)`.
    assert_eq!(
        result.get_path_rate((e1_index, eth_index), (e2_index, eth_index)),
        Some(&1.0)
    );
    assert_eq!(
        result.collect_path_nodes((e1_index, eth_index), (e2_index, eth_index)),
        vec![(e1_index, eth_index), (e2_index, eth_index)]
    );

    // Test rate and path from `(E1, ETH)` to `(E3, ETH)`.
    assert_eq!(
        result.get_path_rate((e1_index, eth_index), (e3_index, eth_index)),
        Some(&1.0)
    );
    assert_eq!(
        result.collect_path_nodes((e1_index, eth_index), (e3_index, eth_index)),
        vec![(e1_index, eth_index), (e3_index, eth_index)]
    );

    // Test rate and path from `(E2, ETH)` to `(E3, ETH)`.
    assert_eq!(
        result.get_path_rate((e2_index, eth_index), (e3_index, eth_index)),
        Some(&1.0)
    );
    assert_eq!(
        result.collect_path_nodes((e2_index, eth_index), (e3_index, eth_index)),
        vec![(e2_index, eth_index), (e3_index, eth_index)]
    );

    // Test rate and path from `(E2, ETH)` to `(E1, USD)`.
    assert_eq!(
        result.get_path_rate((e2_index, eth_index), (e1_index, usd_index)),
        Some(&102.0)
    );
    assert_eq!(
        result.collect_path_nodes((e2_index, eth_index), (e1_index, usd_index)),
        vec![
            (e2_index, eth_index),
            (e1_index, eth_index),
            (e1_index, usd_index)
        ]
    );
}

#[test]
fn process() {
    let text_input = "2019-01-20T09:42:23+00:00 BitMEX BTC USD 3531.0 0.00026
2019-01-20T09:42:23+00:00 CoinBene BTC USD 3584.69 0.00025
2019-01-20T09:42:23+00:00 EXX BTC USD 3577.07 0.000255
2019-01-20T09:42:23+00:00 Bitfinex BTC USD 3580.60 0.000252
2019-01-20T09:42:23+00:00 OEX BTC USD 3571.26 0.00026

2019-01-20T09:42:23+00:00 Bibox ETH USD 117.36 0.0075
2019-01-20T09:42:23+00:00 Bitfinex ETH USD 117.51 0.0074
2019-01-20T09:42:23+00:00 EXX ETH USD 110.76 0.0076
2019-01-20T09:42:23+00:00 CoinBene ETH USD 117.44 0.0072
2019-01-20T09:42:23+00:00 ZBG ETH USD 117.45 0.0071

EXCHANGE_RATE_REQUEST BitMEX BTC EXX BTC
EXCHANGE_RATE_REQUEST BitMEX BTC EXX ETH
EXCHANGE_RATE_REQUEST CoinBene ETH BiBox USD";

    // Test creation of Request from multiline text.
    let request = request_of(text_input);

    let response = Algorithm::<f32>::process(&request, 1.0).unwrap();

    // Test that all Exchange Rate Responses are present.
    assert_eq!(response.get_best_rate_path().len(), 3);

    // Test first Exchange Rate Responses.
    assert_eq!(response.get_best_rate_path()[0].get_rate(), &1.0);
    assert_eq!(
        response.get_best_rate_path()[0].get_path(),
        &vec![
            ("BITMEX".to_string(), "BTC".to_string()),
            ("EXX".to_string(), "BTC".to_string())
        ]
    );

    // Test first Exchange Rate Responses.
    assert_eq!(response.get_best_rate_path()[1].get_rate(), &27.243645);
    assert_eq!(
        response.get_best_rate_path()[1].get_path(),
        &vec![
            ("BITMEX".to_string(), "BTC".to_string()),
            ("COINBENE".to_string(), "BTC".to_string()),
            ("COINBENE".to_string(), "USD".to_string()),
            ("EXX".to_string(), "USD".to_string()),
            ("EXX".to_string(), "ETH".to_string())
        ]
    );

    // &117.51
}

#[test]
fn process_passes_over_a_query_without_a_path() {
    let request = request_of(
        "2019-01-20T09:42:23+00:00 E1 BTC USD 1000.0 0.0009
2019-01-20T09:42:23+00:00 E2 ETH EUR 100.0 0.009
EXCHANGE_RATE_REQUEST E1 BTC E2 ETH
EXCHANGE_RATE_REQUEST E1 BTC E1 USD
EXCHANGE_RATE_REQUEST E9 XRP E1 USD",
    );

    let response = Algorithm::<f32>::process(&request, 1.0).unwrap();

    assert_eq!(response.get_best_rate_path().len(), 1);
    assert_eq!(response.get_best_rate_path()[0].get_rate(), &1000.0);
    assert_eq!(
        response.get_best_rate_path()[0].get_path(),
        &vec![("E1".to_string(), "BTC".to_string()), ("E1".to_string(), "USD".to_string())]
    );
}

#[test]
fn process_gives_up_on_a_gainful_circle() {
    // Trading there and back between BTC and USD at E1 gives four times the holding.
    let request = request_of(
        "2019-01-20T09:42:23+00:00 E1 BTC USD 2.0 2.0
2019-01-20T09:42:23+00:00 E1 BTC ETH 1.0 0.1
2019-01-20T09:42:23+00:00 E1 USD ETH 1.0 0.1
EXCHANGE_RATE_REQUEST E1 BTC E1 ETH",
    );

    assert_eq!(Algorithm::<f32>::process(&request, 1.0).err(), Some(AlgorithmError::BrokenPath));
}

#[test]
fn form_response_reports_an_index_without_an_identifier() {
    let mut alg = Algorithm::<f32>::new(1.0);
    let mut request = Request::<f32>::new();
    request.add_rate_request(ExchangeRateRequest::new(
        "E1".to_string(),
        "BTC".to_string(),
        "E1".to_string(),
        "USD".to_string(),
    ));
    // Tables that lead from (1, 2) to (1, 3) over a node that was never numbered.
    let mut path: DiGraphMap<f32> = DiGraphMap::new();
    let mut next: DiGraphMap<(u32, u32)> = DiGraphMap::new();
    path.add_edge((1, 2), (1, 3), 5.0);
    next.add_edge((1, 2), (1, 3), (7, 7));
    next.add_edge((7, 7), (1, 3), (1, 3));
    let result = FloydWarshallResult::new(path, next);

    assert_eq!(
        alg.form_response(&request, &result).err(),
        Some(AlgorithmError::UnknownIndex)
    );
}

#[test]
fn form_response_reports_a_rate_without_a_path() {
    let mut alg = Algorithm::<f32>::new(1.0);
    let mut request = Request::<f32>::new();
    request.add_rate_request(ExchangeRateRequest::new(
        "E1".to_string(),
        "BTC".to_string(),
        "E1".to_string(),
        "USD".to_string(),
    ));
    let mut path: DiGraphMap<f32> = DiGraphMap::new();
    let next: DiGraphMap<(u32, u32)> = DiGraphMap::new();
    path.add_edge((1, 2), (1, 3), 5.0);
    let result = FloydWarshallResult::new(path, next);

    assert_eq!(alg.form_response(&request, &result).err(), Some(AlgorithmError::BrokenPath));
}
