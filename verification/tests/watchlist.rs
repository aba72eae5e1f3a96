use invest_dash::amount::Amount;
use invest_dash::ledger::{calculate_holdings, Transaction};
use invest_dash::watchlist::{parse_watchlist, symbols_to_quote};

fn strings(v: &[&str]) -> Vec<String> {
    v.iter().map(|s| s.to_string()).collect()
}

#[test]
fn watchlist_is_read_from_the_configuration() {
    assert_eq!(parse_watchlist("{\"tickers\": [\"AAPL\", \"TSLA\", \"MSFT\"]}"), Some(strings(&["AAPL", "TSLA", "MSFT"])));
    assert_eq!(parse_watchlist(" {\n  \"tickers\" : [ ]\n} "), Some(vec![]));
    assert_eq!(parse_watchlist("{\"tickers\":[\"2330.TW\"]}"), Some(strings(&["2330.TW"])));
}

#[test]
fn malformed_configurations_are_refused() {
    assert_eq!(parse_watchlist(""), None);
    assert_eq!(parse_watchlist("{}"), None);
    assert_eq!(parse_watchlist("{\"symbols\": [\"AAPL\"]}"), None);
    assert_eq!(parse_watchlist("{\"tickers\": [\"AAPL\",]}"), None);
    assert_eq!(parse_watchlist("{\"tickers\": [AAPL]}"), None);
    assert_eq!(parse_watchlist("{\"tickers\": [\"AAPL\"]"), None);
    assert_eq!(parse_watchlist("{\"tickers\": \"AAPL\"}"), None);
}

#[test]
fn quotes_are_fetched_for_holdings_then_new_watched_symbols() {
    let one = Amount::parse_or_zero("1");
    let holdings = calculate_holdings(vec![
        Transaction::create("p", "TSLA", None, "2024-01-01", one, one, Amount::zero(), "Buy", "USD"),
        Transaction::create("p", "AAPL", None, "2024-01-01", one, one, Amount::zero(), "Buy", "USD"),
    ])
    .unwrap();
    let watched = strings(&["MSFT", "AAPL", "VOO", "MSFT"]);
    assert_eq!(symbols_to_quote(&holdings, &watched), strings(&["AAPL", "TSLA", "MSFT", "VOO"]));
    assert_eq!(symbols_to_quote(&holdings, &vec![]), strings(&["AAPL", "TSLA"]));
    assert_eq!(symbols_to_quote(&vec![], &watched), strings(&["MSFT", "AAPL", "VOO"]));
}
