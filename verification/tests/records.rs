use invest_dash::amount::Amount;
use invest_dash::ledger::Transaction;
use invest_dash::records::{
    first_portfolio, numbered_portfolio_name, Portfolio, TransactionDraft, DEFAULT_ALLOCATIONS,
    DEFAULT_PORTFOLIO_NAME,
};
use invest_dash::text::{decimal_string, text_equal, text_less_eq};

fn is_record_id(id: &str) -> bool {
    let chars: Vec<char> = id.chars().collect();
    chars.len() == 36
        && chars[8] == '-'
        && chars[13] == '-'
        && chars[18] == '-'
        && chars[23] == '-'
        && chars[14] == '4'
}

#[test]
fn new_portfolio_record() {
    let p = Portfolio::create("Test Portfolio", "{}");
    assert!(is_record_id(&p.id));
    assert_eq!(p.name, "Test Portfolio");
    assert_eq!(p.target_allocations, "{}");
    assert_eq!(p.base_currency, "TWD");
    assert_eq!(p.created_at, p.updated_at);
    let q = Portfolio::create("Test Portfolio", "{}");
    assert_ne!(p.id, q.id);
}

#[test]
fn default_portfolio_record() {
    let p = Portfolio::create_default();
    assert_eq!(p.name, DEFAULT_PORTFOLIO_NAME);
    assert_eq!(p.target_allocations, DEFAULT_ALLOCATIONS);
    assert_eq!(p.name, "Default Portfolio");
}

#[test]
fn revising_a_portfolio() {
    let mut p = Portfolio::create_with("id-1".to_string(), "t0".to_string(), "Test", "{}");
    p.revise_at("Updated Name", "{\"stock\": 100}", "t1".to_string());
    assert_eq!(p.id, "id-1");
    assert_eq!(p.name, "Updated Name");
    assert_eq!(p.target_allocations, "{\"stock\": 100}");
    assert_eq!(p.created_at, "t0");
    assert_eq!(p.updated_at, "t1");
}

#[test]
fn first_portfolio_is_chosen() {
    assert!(first_portfolio(&Vec::new()).is_none());
    let a = Portfolio::create("A", "{}");
    let b = Portfolio::create("B", "{}");
    let first = first_portfolio(&vec![a.clone(), b]).unwrap();
    assert_eq!(first.id, a.id);
}

#[test]
fn numbered_names() {
    assert_eq!(numbered_portfolio_name(0), "Portfolio 1");
    assert_eq!(numbered_portfolio_name(2), "Portfolio 3");
    assert_eq!(numbered_portfolio_name(99), "Portfolio 100");
}

#[test]
fn transaction_record_and_revision() {
    let price = Amount::parse_or_zero("150.0");
    let shares = Amount::parse_or_zero("10.0");
    let fee = Amount::parse_or_zero("1.0");
    let mut t = Transaction::create("p", "AAPL", Some("Apple"), "2023-01-01", price, shares, fee, "Buy", "USD");
    assert!(is_record_id(&t.id));
    assert_eq!(t.symbol, "AAPL");
    assert_eq!(t.name.as_deref(), Some("Apple"));
    assert_eq!((t.price.mantissa, t.price.scale), (1500, 1));
    let id = t.id.clone();
    let created = t.created_at.clone();
    t.revise(
        "AAPL",
        Some("Apple Inc"),
        "2023-01-02",
        Amount::parse_or_zero("155.0"),
        shares,
        Amount::parse_or_zero("2.0"),
        "Buy",
        "USD",
    );
    assert_eq!(t.id, id);
    assert_eq!(t.created_at, created);
    assert_eq!(t.date, "2023-01-02");
    assert_eq!(t.name.as_deref(), Some("Apple Inc"));
    assert_eq!((t.price.mantissa, t.price.scale), (1550, 1));
    assert_eq!((t.fee.mantissa, t.fee.scale), (20, 1));
}

#[test]
fn draft_is_recorded_today_in_twd() {
    let d = TransactionDraft {
        symbol: "2330.TW".to_string(),
        shares: Amount::parse_or_zero("1"),
        price: Amount::parse_or_zero("600"),
        fee: Amount::parse_or_zero("0"),
        transaction_type: "Buy".to_string(),
    };
    let t = d.record_today("pid");
    assert_eq!(t.portfolio_id, "pid");
    assert_eq!(t.currency, "TWD");
    assert!(t.name.is_none());
    assert_eq!(t.date.len(), 10);
    assert_eq!(t.symbol, "2330.TW");
}

#[test]
fn text_order_and_equality() {
    assert!(text_less_eq("2023-01-02", "2023-01-10"));
    assert!(!text_less_eq("2023-01-10", "2023-01-02"));
    assert!(text_less_eq("AAPL", "AAPL"));
    assert!(text_less_eq("AAP", "AAPL"));
    assert!(text_less_eq("Z", "a"));
    assert!(text_equal("Buy", "Buy"));
    assert!(!text_equal("Buy", "Buys"));
    assert_eq!(decimal_string(0), "0");
    assert_eq!(decimal_string(1234), "1234");
}
