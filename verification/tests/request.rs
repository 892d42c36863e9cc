use chrono::{DateTime, FixedOffset};
use exchange_rate_path::request::exchange_rate_request::{ExchangeRateRequest, Items as QueryItems};
use exchange_rate_path::request::price_update::{Items as QuoteItems, PriceUpdate, Timestamp};
use exchange_rate_path::request::Request;

fn factor(text: String) -> Option<f32> {
    text.parse::<f32>().ok()
}

fn lines_of(text: &str) -> Vec<String> {
    text.lines().map(String::from).collect()
}

fn rfc3339(timestamp: &Timestamp) -> String {
    DateTime::from_timestamp(timestamp.seconds, timestamp.nanos)
        .unwrap()
        .with_timezone(&FixedOffset::east_opt(timestamp.offset).unwrap())
        .to_rfc3339()
}

#[test]
fn process_line() {
    let mut request = Request::<f32>::new();

    // Test adding ProcessUpdate line.
    let price_update_line = String::from("2017-11-01T09:42:23+00:00 KRAKEN BTC USD 1000.0 0.0009");
    request.process_line(&price_update_line, &factor).unwrap();

    // Test counts of PriceUpdate items and ExchangeRateRequest items.
    assert_eq!(request.get_price_updates().len(), 1);
    assert_eq!(request.get_rate_requests().len(), 0);

    // Test adding ExchangeRateRequest line.
    let price_update_line = String::from("EXCHANGE_RATE_REQUEST KRAKEN BTC GDAX ETH");
    request.process_line(&price_update_line, &factor).unwrap();

    // Test counts of PriceUpdate items and ExchangeRateRequest items.
    assert_eq!(request.get_price_updates().len(), 1);
    assert_eq!(request.get_rate_requests().len(), 1);
}

#[test]
fn read_from() {
    let text_input = "2017-11-01T09:42:23+00:00 KRAKEN BTC USD 1000.0 0.0009
2018-11-01T09:42:23+00:00 KRAKEN ETH USD 100.0 0.001
EXCHANGE_RATE_REQUEST KRAKEN BTC GDAX ETH
EXCHANGE_RATE_REQUEST GDAX BTC KRAKEN USD";

    // Test creation of Request from multiline text.
    let request = Request::<f32>::read_from(&lines_of(text_input), &factor).unwrap();

    // Test counts of PriceUpdate items and ExchangeRateRequest items.
    assert_eq!(request.get_price_updates().len(), 2);
    assert_eq!(request.get_rate_requests().len(), 2);
}

#[test]
fn read_from_skip_empty_lines() {
    let text_input = "2017-11-01T09:42:23+00:00 KRAKEN BTC USD 1000.0 0.0009
\n
2018-11-01T09:42:23+00:00 KRAKEN ETH USD 100.0 0.001
\n\n
EXCHANGE_RATE_REQUEST KRAKEN BTC GDAX ETH

EXCHANGE_RATE_REQUEST KRAKEN ETH GDAX USD

EXCHANGE_RATE_REQUEST KRAKEN COIN GDAX USD

EXCHANGE_RATE_REQUEST GDAX BTC KRAKEN USD";

    // Test creation of Request from multiline text containing empty or whitespace-only lines.
    let request = Request::<f32>::read_from(&lines_of(text_input), &factor).unwrap();

    // Test counts of PriceUpdate items and ExchangeRateRequest items.
    assert_eq!(request.get_price_updates().len(), 2);
    assert_eq!(request.get_rate_requests().len(), 4);
}

#[test]
fn read_from_stops_at_the_first_line_that_cannot_be_read() {
    let text_input = "2017-11-01T09:42:23+00:00 KRAKEN BTC USD 1000.0 0.0009
EXCHANGE_RATE_REQUEST KRAKEN BTC
EXCHANGE_RATE_REQUEST";

    let errors = Request::<f32>::read_from(&lines_of(text_input), &factor).err().unwrap();

    assert_eq!(
        errors,
        vec![
            "The line item <source_exchange> is missing!".to_string(),
            "The line item <destination_exchange> is missing!".to_string(),
        ]
    );
}

#[test]
fn process_line_reads_the_line_type_in_any_case() {
    let mut request = Request::<f32>::new();
    request
        .process_line(&"exchange_rate_request kraken btc gdax eth".to_string(), &factor)
        .unwrap();

    assert_eq!(request.get_rate_requests().len(), 1);
    assert_eq!(request.get_rate_requests()[0].get_source_exchange(), "KRAKEN");
}

#[test]
fn process_line_leaves_the_request_as_it_is_on_a_bad_line() {
    let mut request = Request::<f32>::new();
    request
        .process_line(&"2017-11-01T09:42:23+00:00 KRAKEN BTC USD 1000.0 0.0009".to_string(), &factor)
        .unwrap();
    let outcome = request.process_line(&"yesterday KRAKEN BTC USD 1.0 1.0".to_string(), &factor);

    assert_eq!(
        outcome,
        Err(vec!["The line item <timestamp> can not be parsed (wrong format)!".to_string()])
    );
    assert_eq!(request.get_price_updates().len(), 1);
}

#[test]
fn later_price_update_replaces_the_earlier_one() {
    let mut request = Request::<f32>::new();
    for line in [
        "2018-11-01T09:42:23+00:00 KRAKEN BTC USD 1000.0 0.0009",
        "2019-11-01T09:42:23+00:00 KRAKEN BTC USD 2000.0 0.0004",
        "2017-11-01T09:42:23+00:00 KRAKEN BTC USD 3000.0 0.0003",
    ] {
        request.process_line(&line.to_string(), &factor).unwrap();
    }

    let updates = request.get_price_updates();
    assert_eq!(updates.len(), 1);
    assert_eq!(updates[0].get_forward_factor(), &2000.0);
    assert_eq!(updates[0].get_backward_factor(), &0.0004);
    assert_eq!(rfc3339(updates[0].get_timestamp()), "2019-11-01T09:42:23+00:00");
}

#[test]
fn price_update_of_the_same_time_does_not_replace() {
    let mut request = Request::<f32>::new();
    // One instant, written with two offsets.
    for line in [
        "2018-11-01T09:42:23+00:00 KRAKEN BTC USD 1000.0 0.0009",
        "2018-11-01T10:42:23+01:00 KRAKEN BTC USD 2000.0 0.0004",
    ] {
        request.process_line(&line.to_string(), &factor).unwrap();
    }

    let updates = request.get_price_updates();
    assert_eq!(updates.len(), 1);
    assert_eq!(updates[0].get_forward_factor(), &1000.0);
}

#[test]
fn price_updates_keep_the_order_of_their_keys() {
    let mut request = Request::<f32>::new();
    for line in [
        "2018-11-01T09:42:23+00:00 KRAKEN BTC USD 1000.0 0.0009",
        "2018-11-01T09:42:23+00:00 GDAX BTC USD 1001.0 0.0009",
        "2018-11-02T09:42:23+00:00 KRAKEN BTC USD 1002.0 0.0009",
    ] {
        request.process_line(&line.to_string(), &factor).unwrap();
    }

    let updates = request.get_price_updates();
    assert_eq!(updates.len(), 2);
    assert_eq!(updates[0].get_exchange(), "KRAKEN");
    assert_eq!(updates[0].get_forward_factor(), &1002.0);
    assert_eq!(updates[1].get_exchange(), "GDAX");
}

#[test]
fn latest_rate_request_replaces_the_earlier_one() {
    let mut request = Request::<f32>::new();
    request.add_rate_request(ExchangeRateRequest::new(
        "A".to_string(),
        "B".to_string(),
        "C".to_string(),
        "D".to_string(),
    ));
    request.add_rate_request(ExchangeRateRequest::new(
        "A".to_string(),
        "B".to_string(),
        "C".to_string(),
        "E".to_string(),
    ));
    request.add_rate_request(ExchangeRateRequest::new(
        "A".to_string(),
        "B".to_string(),
        "C".to_string(),
        "D".to_string(),
    ));

    let requests = request.get_rate_requests();
    assert_eq!(requests.len(), 2);
    assert_eq!(requests[0].get_destination_currency(), "D");
    assert_eq!(requests[1].get_destination_currency(), "E");
}

#[test]
fn exchange_rate_request_parse_line() {
    let line = "EXCHANGE_RATE_REQUEST KRAKEN BTC GDAX ETH";
    let rate_request = ExchangeRateRequest::parse_line(&line.to_string());

    // Test that the line was parsed properly.
    assert!(rate_request.is_ok());

    // It is safe to unwrap now.
    let rate_request = rate_request.ok().unwrap();

    // Test properly parsed line items.
    assert_eq!(rate_request.get_source_exchange(), "KRAKEN");
    assert_eq!(rate_request.get_source_currency(), "BTC");
    assert_eq!(rate_request.get_destination_exchange(), "GDAX");
    assert_eq!(rate_request.get_destination_currency(), "ETH");
}

#[test]
fn exchange_rate_request_index_is_its_four_identifiers() {
    let line = "EXCHANGE_RATE_REQUEST kraken btc gdax eth and more";
    let rate_request = ExchangeRateRequest::parse_line(&line.to_string()).ok().unwrap();

    assert_eq!(
        rate_request.get_index(),
        ("KRAKEN".to_string(), "BTC".to_string(), "GDAX".to_string(), "ETH".to_string())
    );
}

#[test]
fn parse_line_with_wrong_line_type() {
    let line = "WRONG_LINE_TYPE KRAKEN BTC GDAX ETH";
    let price_update = ExchangeRateRequest::parse_line(&line.to_string());

    // Test that the line could not be parsed properly.
    assert!(price_update.is_err());

    // Unwrap errors as they should exist.
    let mut errors = price_update.err().unwrap();

    // Test that all errors are present.
    assert_eq!(
        errors.pop().unwrap(),
        format!(
            "The line item type identifier at the beginning of the line {} is wrong!",
            ExchangeRateRequest::LINE_TYPE
        )
    );

    // No other error is expected.
    assert!(errors.pop().is_none());
}

#[test]
fn exchange_rate_request_parse_line_with_missing_values() {
    let line = "";
    let price_update = ExchangeRateRequest::parse_line(&line.to_string());

    // Test that the line could not be parsed properly.
    assert!(price_update.is_err());

    // Unwrap errors as they should exist.
    let mut errors = price_update.err().unwrap();

    // Test that all errors are present.
    assert_eq!(
        errors.pop().unwrap(),
        format!("The line item <{}> is missing!", QueryItems::DestinationCurrency.get_label())
    );
    assert_eq!(
        errors.pop().unwrap(),
        format!("The line item <{}> is missing!", QueryItems::DestinationExchange.get_label())
    );
    assert_eq!(
        errors.pop().unwrap(),
        format!("The line item <{}> is missing!", QueryItems::SourceCurrency.get_label())
    );
    assert_eq!(
        errors.pop().unwrap(),
        format!("The line item <{}> is missing!", QueryItems::SourceExchange.get_label())
    );
    assert_eq!(
        errors.pop().unwrap(),
        format!("The line item <{}> is missing!", QueryItems::LineType.get_label())
    );

    // No other error is expected.
    assert!(errors.pop().is_none());
}

#[test]
fn exchange_rate_request_labels() {
    assert_eq!(QueryItems::LineType.get_label(), "EXCHANGE_RATE_REQUEST");
    assert_eq!(QueryItems::SourceExchange.get_label(), "source_exchange");
    assert_eq!(QueryItems::SourceCurrency.get_label(), "source_currency");
    assert_eq!(QueryItems::DestinationExchange.get_label(), "source_exchange");
    assert_eq!(QueryItems::DestinationCurrency.get_label(), "destination_exchange");
}

#[test]
fn price_update_labels() {
    assert_eq!(QuoteItems::Timestamp.get_label(), "timestamp");
    assert_eq!(QuoteItems::Exchange.get_label(), "exchange");
    assert_eq!(QuoteItems::SourceCurrency.get_label(), "source_currency");
    assert_eq!(QuoteItems::DestinationCurrency.get_label(), "destination_currency");
    assert_eq!(QuoteItems::ForwardFactor.get_label(), "forward_factor");
    assert_eq!(QuoteItems::BackwardFactor.get_label(), "backward_factor");
}

#[test]
fn price_update_parse_line() {
    let line = "2017-11-01T09:42:23+00:00 KRAKEN BTC USD 1000.0 0.0009";
    let price_update = PriceUpdate::<f32>::parse_line(&line.to_string(), &factor);

    // Test that the line was parsed properly.
    assert!(price_update.is_ok());

    // It is safe to unwrap now.
    let price_update = price_update.ok().unwrap();

    // Test properly parsed line items.
    assert_eq!(
        rfc3339(price_update.get_timestamp()),
        String::from("2017-11-01T09:42:23+00:00")
    );
    assert_eq!(price_update.get_exchange(), "KRAKEN");
    assert_eq!(price_update.get_source_currency(), "BTC");
    assert_eq!(price_update.get_destination_currency(), "USD");
    assert_eq!(*price_update.get_forward_factor(), 1000.0);
    assert_eq!(*price_update.get_backward_factor(), 0.0009);
}

#[test]
fn price_update_parse_line_keeps_the_offset_and_the_instant() {
    let line = "2017-11-01T09:42:23.5+02:00 kraken btc usd 1000.0 0.0009";
    let price_update = PriceUpdate::<f32>::parse_line(&line.to_string(), &factor).ok().unwrap();

    assert_eq!(
        price_update.get_timestamp(),
        &Timestamp { seconds: 1509522143, nanos: 500_000_000, offset: 7200 }
    );
    assert_eq!(
        price_update.get_index(),
        ("KRAKEN".to_string(), "BTC".to_string(), "USD".to_string())
    );
}

#[test]
fn price_update_parse_line_with_missing_values() {
    let line = "";
    let price_update = PriceUpdate::<f32>::parse_line(&line.to_string(), &factor);

    // Test that the line could not be parsed properly.
    assert!(price_update.is_err());

    // Unwrap errors as they should exist.
    let mut errors = price_update.err().unwrap();

    // Test that all errors are present.
    assert_eq!(
        errors.pop().unwrap(),
        format!("The line item <{}> is missing!", QuoteItems::BackwardFactor.get_label())
    );
    assert_eq!(
        errors.pop().unwrap(),
        format!("The line item <{}> is missing!", QuoteItems::ForwardFactor.get_label())
    );
    assert_eq!(
        errors.pop().unwrap(),
        format!("The line item <{}> is missing!", QuoteItems::DestinationCurrency.get_label())
    );
    assert_eq!(
        errors.pop().unwrap(),
        format!("The line item <{}> is missing!", QuoteItems::SourceCurrency.get_label())
    );
    assert_eq!(
        errors.pop().unwrap(),
        format!("The line item <{}> is missing!", QuoteItems::Exchange.get_label())
    );
    assert_eq!(
        errors.pop().unwrap(),
        format!("The line item <{}> is missing!", QuoteItems::Timestamp.get_label())
    );

    // No other error is expected.
    assert!(errors.pop().is_none());
}

#[test]
fn price_update_parse_line_with_some_missing_values() {
    let line = "2017-11-01T09:42:23+00:00 KRAKEN BTC USD";
    let errors = PriceUpdate::<f32>::parse_line(&line.to_string(), &factor).err().unwrap();

    assert_eq!(
        errors,
        vec![
            "The line item <forward_factor> is missing!".to_string(),
            "The line item <backward_factor> is missing!".to_string(),
        ]
    );
}

#[test]
fn parse_line_with_parse_errors() {
    let line =
        String::from("201--11-01T09:42:23+00:00 KRAKEN BTC USD thousand zero-point-something-small");
    let price_update = PriceUpdate::<f32>::parse_line(&line, &factor);

    // Test that the line could not be parsed properly.
    assert!(price_update.is_err());

    // Unwrap errors as they should exist.
    let mut errors = price_update.err().unwrap();

    // Test that all errors are present.
    assert_eq!(
        errors.pop().unwrap(),
        format!(
            "The line item <{}> can not be parsed (wrong format)!",
            QuoteItems::BackwardFactor.get_label()
        )
    );
    assert_eq!(
        errors.pop().unwrap(),
        format!(
            "The line item <{}> can not be parsed (wrong format)!",
            QuoteItems::ForwardFactor.get_label()
        )
    );
    assert_eq!(
        errors.pop().unwrap(),
        format!(
            "The line item <{}> can not be parsed (wrong format)!",
            QuoteItems::Timestamp.get_label()
        )
    );

    // No other error is expected.
    assert!(errors.pop().is_none());
}

#[test]
fn timestamps_are_told_apart_by_their_instant() {
    let early = Timestamp { seconds: 10, nanos: 5, offset: 3600 };
    let late = Timestamp { seconds: 10, nanos: 6, offset: 0 };
    let later = Timestamp { seconds: 11, nanos: 0, offset: -3600 };

    assert!(late.is_later_than(&early));
    assert!(!early.is_later_than(&late));
    assert!(later.is_later_than(&late));
    assert!(!early.is_later_than(&early));
    assert!(!Timestamp { seconds: 10, nanos: 5, offset: 0 }.is_later_than(&early));
}
