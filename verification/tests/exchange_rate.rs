use exchange_rate_path::exchange_rate::ExchangeRatePath;
use exchange_rate_path::request::Request;

fn factor(text: String) -> Option<f32> {
    text.parse::<f32>().ok()
}

fn lines_of(text: &str) -> Vec<String> {
    text.lines().map(String::from).collect()
}

#[test]
fn exchange_rate_new() {
    ExchangeRatePath::new(std::io::stdin().lock());
}

#[test]
fn new_keeps_the_input() {
    let exchange_rate = ExchangeRatePath::new("some input");

    assert_eq!(exchange_rate.into_input(), "some input");
}

#[test]
fn form_request() {
    // Prepare input.
    let text_input = "2017-11-01T09:42:23+00:00 KRAKEN BTC USD 1000.0 0.0009
2018-11-01T09:42:23+00:00 KRAKEN ETH USD 100.0 0.001
EXCHANGE_RATE_REQUEST KRAKEN BTC GDAX ETH
EXCHANGE_RATE_REQUEST GDAX BTC KRAKEN USD";

    let exchange_rate = ExchangeRatePath::new(text_input);
    let request =
        Request::<f32>::read_from(&lines_of(exchange_rate.into_input()), &factor).unwrap();
    let price_updates = request.get_price_updates();
    let rate_requests = request.get_rate_requests();

    // Test proper counts.
    assert_eq!(price_updates.len(), 2);
    assert_eq!(rate_requests.len(), 2);
}

#[test]
fn process_request() {
    // Prepare input.
    let text_input = "2017-11-01T09:42:23+00:00 KRAKEN BTC USD 1000.0 0.0009
2018-11-01T09:42:23+00:00 KRAKEN ETH USD 100.0 0.001
EXCHANGE_RATE_REQUEST KRAKEN BTC KRAKEN USD
EXCHANGE_RATE_REQUEST KRAKEN ETH KRAKEN BTC";

    let request = Request::<f32>::read_from(&lines_of(text_input), &factor).unwrap();
    let response = ExchangeRatePath::<&[u8]>::process_request::<f32>(request, 1.0).unwrap();

    let paths = response.get_best_rate_path();

    // Test proper count.
    assert_eq!(paths.len(), 2);
}
