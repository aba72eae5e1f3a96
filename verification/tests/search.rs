use invest_dash::amount::Amount;
use invest_dash::ledger::Transaction;
use invest_dash::search::{filter_transactions, transactions_matching};
use invest_dash::text::{chars_of, text_contains};

fn tx(symbol: &str, date: &str) -> Transaction {
    let one = Amount::parse_or_zero("1");
    Transaction::create("p", symbol, None, date, one, one, Amount::zero(), "Buy", "USD")
}

fn rows() -> Vec<Transaction> {
    vec![tx("AAPL", "2024-01-03"), tx("TSLA", "2024-01-02"), tx("2330.TW", "2024-01-01"), tx("AAPX", "2023-12-31")]
}

fn symbols(v: &[Transaction]) -> Vec<String> {
    v.iter().map(|t| t.symbol.clone()).collect()
}

#[test]
fn text_contains_finds_substrings() {
    assert!(text_contains("AAPL", "AP"));
    assert!(text_contains("AAPL", "AAPL"));
    assert!(text_contains("AAPL", ""));
    assert!(text_contains("", ""));
    assert!(!text_contains("AAPL", "AAPLX"));
    assert!(!text_contains("AAPL", "PA"));
    assert!(text_contains("2330.TW", ".TW"));
    assert_eq!(chars_of("héllo"), vec!['h', 'é', 'l', 'l', 'o']);
}

#[test]
fn filter_keeps_matching_rows_in_order() {
    let shown = filter_transactions(&rows(), "aap");
    assert_eq!(symbols(&shown), vec!["AAPL", "AAPX"]);
    let shown = filter_transactions(&rows(), ".tw");
    assert_eq!(symbols(&shown), vec!["2330.TW"]);
}

#[test]
fn empty_filter_shows_everything() {
    let shown = filter_transactions(&rows(), "");
    assert_eq!(symbols(&shown), vec!["AAPL", "TSLA", "2330.TW", "AAPX"]);
}

#[test]
fn filter_matching_nothing_shows_nothing() {
    assert!(filter_transactions(&rows(), "msft").is_empty());
}

#[test]
fn matching_is_case_sensitive_without_the_filter() {
    assert!(transactions_matching(&rows(), "aap").is_empty());
    assert_eq!(symbols(&transactions_matching(&rows(), "SL")), vec!["TSLA"]);
}
