use invest_dash::amount::Amount;
use invest_dash::ledger::{
    apply_transaction, calculate_holdings, open_holding, transaction_kind, Transaction, TransactionKind,
};
use invest_dash::store::Database;
use rust_decimal::Decimal;
use std::str::FromStr;

fn amount(text: &str) -> Amount {
    Amount::parse_or_zero(text)
}

fn value(a: Amount) -> Decimal {
    Decimal::from_i128_with_scale(a.mantissa, a.scale)
}

fn dec(text: &str) -> Decimal {
    Decimal::from_str(text).unwrap()
}

fn setup_test_db() -> Database {
    Database::new()
}

#[test]
fn test_holdings_calculation() {
    let mut db = setup_test_db();
    let p_id = db.add_portfolio("Test", "{}").unwrap();

    // Buy 10 AAPL at $100, fee $10
    db.add_transaction(&p_id, "AAPL", None, "2023-01-01", amount("100.0"), amount("10.0"), amount("10.0"), "Buy", "USD")
        .unwrap();

    // Holdings should be 10 shares, avg cost $101.0
    let holdings = db.calculate_holdings(&p_id).unwrap();
    assert_eq!(holdings.len(), 1);
    assert_eq!(holdings[0].symbol, "AAPL");
    assert_eq!(value(holdings[0].total_shares), dec("10.0"));
    assert_eq!(value(holdings[0].avg_cost), dec("101.0")); // (1000 + 10) / 10

    // Buy 10 more AAPL at $120, fee $10
    db.add_transaction(&p_id, "AAPL", None, "2023-01-02", amount("120.0"), amount("10.0"), amount("10.0"), "Buy", "USD")
        .unwrap();

    // Holdings: 20 shares, total cost 1010 + 1210 = 2220, avg cost $111.0
    let holdings = db.calculate_holdings(&p_id).unwrap();
    assert_eq!(value(holdings[0].total_shares), dec("20.0"));
    assert_eq!(value(holdings[0].avg_cost), dec("111.0"));

    // Sell 5 AAPL at $150, fee $5
    db.add_transaction(&p_id, "AAPL", None, "2023-01-03", amount("150.0"), amount("5.0"), amount("5.0"), "Sell", "USD")
        .unwrap();

    // Realized gain: (150*5 - 5) - (111*5) = 745 - 555 = 190
    // Remaining: 15 shares, total cost 2220 - 555 = 1665, avg cost $111.0
    let holdings = db.calculate_holdings(&p_id).unwrap();
    assert_eq!(value(holdings[0].total_shares), dec("15.0"));
    assert_eq!(value(holdings[0].realized_gain), dec("190.0"));
    assert_eq!(value(holdings[0].avg_cost), dec("111.0"));
}

fn tx(symbol: &str, date: &str, price: &str, shares: &str, fee: &str, kind: &str) -> Transaction {
    Transaction::create("p", symbol, Some(symbol), date, amount(price), amount(shares), amount(fee), kind, "USD")
}

#[test]
fn dividend_adds_to_realized_gain_only() {
    let h = calculate_holdings(vec![
        tx("VOO", "2023-02-01", "2.5", "10", "1", "Dividend"),
        tx("VOO", "2023-01-01", "400", "10", "0", "Buy"),
    ])
    .unwrap();
    assert_eq!(h.len(), 1);
    assert_eq!(value(h[0].total_shares), dec("10"));
    assert_eq!(value(h[0].avg_cost), dec("400"));
    assert_eq!(value(h[0].total_cost), dec("4000"));
    assert_eq!(value(h[0].realized_gain), dec("24"));
}

#[test]
fn selling_everything_closes_the_position() {
    let h = calculate_holdings(vec![
        tx("TSLA", "2023-01-01", "200", "5", "0", "Buy"),
        tx("TSLA", "2023-01-05", "250", "5", "0", "Sell"),
        tx("AAPL", "2023-01-02", "100", "1", "0", "Buy"),
    ])
    .unwrap();
    assert_eq!(h.len(), 1);
    assert_eq!(h[0].symbol, "AAPL");
}

#[test]
fn unknown_type_has_no_effect() {
    let h = calculate_holdings(vec![
        tx("MSFT", "2023-01-01", "300", "2", "0", "Buy"),
        tx("MSFT", "2023-01-02", "999", "50", "7", "Split"),
    ])
    .unwrap();
    assert_eq!(value(h[0].total_shares), dec("2"));
    assert_eq!(value(h[0].avg_cost), dec("300"));
    assert_eq!(value(h[0].realized_gain), dec("0"));
}

#[test]
fn holdings_come_in_symbol_order() {
    let h = calculate_holdings(vec![
        tx("TSLA", "2023-01-03", "1", "1", "0", "Buy"),
        tx("2330.TW", "2023-01-01", "1", "1", "0", "Buy"),
        tx("AAPL", "2023-01-02", "1", "1", "0", "Buy"),
        tx("AAPL", "2023-01-04", "1", "1", "0", "Buy"),
    ])
    .unwrap();
    let symbols: Vec<&str> = h.iter().map(|x| x.symbol.as_str()).collect();
    assert_eq!(symbols, vec!["2330.TW", "AAPL", "TSLA"]);
    assert_eq!(value(h[1].total_shares), dec("2"));
}

#[test]
fn transactions_apply_in_date_order() {
    // Listed newest first, as the store lists them: the sale must come after the purchase.
    let h = calculate_holdings(vec![
        tx("AMD", "2023-03-01", "120", "4", "0", "Sell"),
        tx("AMD", "2023-02-01", "100", "10", "0", "Buy"),
    ])
    .unwrap();
    assert_eq!(value(h[0].total_shares), dec("6"));
    assert_eq!(value(h[0].realized_gain), dec("80"));
    assert_eq!(value(h[0].avg_cost), dec("100"));
}

#[test]
fn same_day_transactions_keep_their_order() {
    let h = calculate_holdings(vec![
        tx("NVDA", "2023-01-01", "10", "2", "0", "Buy"),
        tx("NVDA", "2023-01-01", "20", "2", "0", "Buy"),
        tx("NVDA", "2023-01-01", "30", "1", "0", "Sell"),
    ])
    .unwrap();
    assert_eq!(value(h[0].total_shares), dec("3"));
    assert_eq!(value(h[0].avg_cost), dec("15"));
    assert_eq!(value(h[0].realized_gain), dec("15"));
}

#[test]
fn holding_name_comes_from_first_transaction() {
    let mut first = tx("GOOG", "2023-01-01", "1", "1", "0", "Buy");
    first.name = Some("Alphabet".to_string());
    let mut second = tx("GOOG", "2023-01-02", "1", "1", "0", "Buy");
    second.name = Some("Google".to_string());
    let h = calculate_holdings(vec![second, first]).unwrap();
    assert_eq!(h[0].name.as_deref(), Some("Alphabet"));
}

#[test]
fn overflow_is_an_error() {
    let huge = Amount::new(invest_dash::amount::MAX_MAGNITUDE, 0).unwrap();
    let mut t = tx("BIG", "2023-01-01", "1", "1", "0", "Buy");
    t.price = huge;
    t.shares = huge;
    assert_eq!(calculate_holdings(vec![t]).err(), Some(invest_dash::ledger::LedgerError::ArithmeticOverflow));
}

#[test]
fn no_transactions_no_holdings() {
    assert!(calculate_holdings(Vec::new()).unwrap().is_empty());
}

#[test]
fn order_by_date_is_stable() {
    let ordered = invest_dash::ledger::order_by_date(vec![
        tx("A", "2023-01-02", "1", "1", "0", "Buy"),
        tx("B", "2023-01-01", "1", "1", "0", "Buy"),
        tx("C", "2023-01-02", "1", "1", "0", "Buy"),
        tx("D", "2022-12-31", "1", "1", "0", "Buy"),
    ]);
    let symbols: Vec<&str> = ordered.iter().map(|x| x.symbol.as_str()).collect();
    assert_eq!(symbols, vec!["D", "B", "A", "C"]);
}

#[test]
fn transaction_kinds() {
    assert_eq!(transaction_kind("Buy"), TransactionKind::Buy);
    assert_eq!(transaction_kind("Sell"), TransactionKind::Sell);
    assert_eq!(transaction_kind("Dividend"), TransactionKind::Dividend);
    assert_eq!(transaction_kind("buy"), TransactionKind::Other);
}

#[test]
fn apply_transaction_steps() {
    let buy = tx("X", "2023-01-01", "10", "3", "1", "Buy");
    let h = apply_transaction(open_holding(&buy), &buy).unwrap();
    assert_eq!(value(h.total_cost), dec("31"));
    assert_eq!(value(h.total_shares), dec("3"));
    assert_eq!(value(h.avg_cost), dec("31") / dec("3"));
    let avg = h.avg_cost;
    let sell = tx("X", "2023-01-02", "12", "1", "0", "Sell");
    let h2 = apply_transaction(h, &sell).unwrap();
    assert_eq!(value(h2.total_shares), dec("2"));
    assert_eq!(value(h2.avg_cost), value(avg));
    assert_eq!(value(h2.realized_gain), dec("12") - dec("31") / dec("3"));
}

#[test]
fn other_symbols_and_portfolios_leave_a_holding_alone() {
    let mut db = setup_test_db();
    let p = db.add_portfolio("P", "{}").unwrap();
    let q = db.add_portfolio("Q", "{}").unwrap();
    db.add_transaction(&p, "AAPL", None, "2023-01-01", amount("100"), amount("10"), amount("1"), "Buy", "USD").unwrap();
    db.add_transaction(&p, "AAPL", None, "2023-03-01", amount("120"), amount("5"), amount("1"), "Sell", "USD").unwrap();
    let before = db.calculate_holdings(&p).unwrap();

    db.add_transaction(&p, "TSLA", None, "2023-02-01", amount("200"), amount("3"), amount("0"), "Buy", "USD").unwrap();
    db.add_transaction(&q, "AAPL", None, "2023-02-15", amount("90"), amount("7"), amount("0"), "Buy", "USD").unwrap();
    let after = db.calculate_holdings(&p).unwrap();

    let aapl_before = before.iter().find(|h| h.symbol == "AAPL").unwrap();
    let aapl_after = after.iter().find(|h| h.symbol == "AAPL").unwrap();
    assert_eq!(value(aapl_before.total_shares), value(aapl_after.total_shares));
    assert_eq!(value(aapl_before.avg_cost), value(aapl_after.avg_cost));
    assert_eq!(value(aapl_before.total_cost), value(aapl_after.total_cost));
    assert_eq!(value(aapl_before.realized_gain), value(aapl_after.realized_gain));
    assert_eq!(after.len(), 2);
}

#[test]
fn a_later_sale_is_applied_last() {
    let mut db = setup_test_db();
    let p = db.add_portfolio("P", "{}").unwrap();
    db.add_transaction(&p, "AAPL", None, "2023-01-01", amount("100"), amount("10"), amount("0"), "Buy", "USD").unwrap();
    let before = db.calculate_holdings(&p).unwrap();
    db.add_transaction(&p, "AAPL", None, "2023-02-01", amount("150"), amount("4"), amount("2"), "Sell", "USD").unwrap();
    let after = db.calculate_holdings(&p).unwrap();
    assert_eq!(value(after[0].avg_cost), value(before[0].avg_cost));
    assert_eq!(value(after[0].total_shares), dec("6"));
    assert_eq!(value(after[0].total_cost), dec("600"));
    // (150 * 4 - 2) - 100 * 4
    assert_eq!(value(after[0].realized_gain), dec("198"));
}

#[test]
fn a_later_dividend_changes_the_gain_alone() {
    let mut db = setup_test_db();
    let p = db.add_portfolio("P", "{}").unwrap();
    db.add_transaction(&p, "VOO", None, "2023-01-01", amount("400"), amount("10"), amount("0"), "Buy", "USD").unwrap();
    let before = db.calculate_holdings(&p).unwrap();
    db.add_transaction(&p, "VOO", None, "2023-06-01", amount("2"), amount("10"), amount("1"), "Dividend", "USD").unwrap();
    let after = db.calculate_holdings(&p).unwrap();
    assert_eq!(value(after[0].total_shares), value(before[0].total_shares));
    assert_eq!(value(after[0].avg_cost), value(before[0].avg_cost));
    assert_eq!(value(after[0].total_cost), value(before[0].total_cost));
    assert_eq!(value(after[0].realized_gain), dec("19"));
}

#[test]
fn mixed_scales_add_up_exactly() {
    let h = calculate_holdings(vec![
        tx("AAPL", "2023-01-01", "10", "1.5", "0.125", "Buy"),
        tx("AAPL", "2023-01-02", "20.25", "2.25", "0", "Buy"),
        tx("AAPL", "2023-01-03", "30", "0.75", "0", "Sell"),
    ])
    .unwrap();
    // 1.5 + 2.25 - 0.75
    assert_eq!(value(h[0].total_shares), dec("3"));
    assert_eq!(h[0].total_shares.scale, 2);
}

#[test]
fn purchases_add_their_cost_exactly() {
    let h = calculate_holdings(vec![
        tx("VOO", "2023-01-01", "400.5", "2", "1.25", "Buy"),
        tx("VOO", "2023-02-01", "3", "2", "0", "Dividend"),
        tx("VOO", "2023-03-01", "410", "0.5", "0.75", "Buy"),
    ])
    .unwrap();
    // (400.5 * 2 + 1.25) + (410 * 0.5 + 0.75)
    assert_eq!(value(h[0].total_cost), dec("1008"));
    assert_eq!(value(h[0].total_shares), dec("2.5"));
}

#[test]
fn a_dividend_on_any_date_changes_the_gain_alone() {
    let base = vec![
        tx("VOO", "2023-01-01", "400", "10", "0", "Buy"),
        tx("VOO", "2023-03-01", "420", "4", "1", "Sell"),
        tx("VOO", "2023-05-01", "430", "2", "1", "Buy"),
    ];
    let mut with = base.iter().map(|t| t.duplicate()).collect::<Vec<_>>();
    with.push(tx("VOO", "2023-02-01", "2", "10", "1", "Dividend"));
    let h0 = calculate_holdings(base).unwrap();
    let h1 = calculate_holdings(with).unwrap();
    assert_eq!(value(h0[0].total_shares), value(h1[0].total_shares));
    assert_eq!(value(h0[0].total_cost), value(h1[0].total_cost));
    assert_eq!(value(h0[0].avg_cost), value(h1[0].avg_cost));
    assert_eq!(value(h1[0].realized_gain) - value(h0[0].realized_gain), dec("19"));
}

#[test]
fn stored_order_does_not_matter_when_dates_differ() {
    let mut db1 = setup_test_db();
    let mut db2 = setup_test_db();
    let p1 = db1.add_portfolio("P", "{}").unwrap();
    let p2 = db2.add_portfolio("P", "{}").unwrap();
    let rows = [
        ("2023-01-01", "100", "10", "1", "Buy"),
        ("2023-02-01", "120", "4", "1", "Sell"),
        ("2023-03-01", "110", "6", "2", "Buy"),
    ];
    for (d, price, shares, fee, kind) in rows.iter() {
        db1.add_transaction(&p1, "AAPL", None, d, amount(price), amount(shares), amount(fee), kind, "USD").unwrap();
    }
    for (d, price, shares, fee, kind) in rows.iter().rev() {
        db2.add_transaction(&p2, "AAPL", None, d, amount(price), amount(shares), amount(fee), kind, "USD").unwrap();
    }
    db2.add_transaction(&p2, "MSFT", None, "2023-01-15", amount("300"), amount("1"), amount("0"), "Buy", "USD").unwrap();
    let h1 = db1.calculate_holdings(&p1).unwrap();
    let h2 = db2.calculate_holdings(&p2).unwrap();
    let a1 = h1.iter().find(|h| h.symbol == "AAPL").unwrap();
    let a2 = h2.iter().find(|h| h.symbol == "AAPL").unwrap();
    assert_eq!(value(a1.total_shares), value(a2.total_shares));
    assert_eq!(value(a1.avg_cost), value(a2.avg_cost));
    assert_eq!(value(a1.total_cost), value(a2.total_cost));
    assert_eq!(value(a1.realized_gain), value(a2.realized_gain));
}

#[test]
fn a_stored_dividend_between_trades_adds_its_income() {
    let mut db = setup_test_db();
    let p = db.add_portfolio("P", "{}").unwrap();
    db.add_transaction(&p, "VOO", None, "2023-01-01", amount("400"), amount("10"), amount("0"), "Buy", "USD").unwrap();
    db.add_transaction(&p, "VOO", None, "2023-03-01", amount("450"), amount("4"), amount("2"), "Sell", "USD").unwrap();
    let before = db.calculate_holdings(&p).unwrap();
    db.add_transaction(&p, "VOO", None, "2023-02-01", amount("1.5"), amount("10"), amount("0.5"), "Dividend", "USD")
        .unwrap();
    let after = db.calculate_holdings(&p).unwrap();
    assert_eq!(value(after[0].total_shares), value(before[0].total_shares));
    assert_eq!(value(after[0].total_cost), value(before[0].total_cost));
    assert_eq!(value(after[0].avg_cost), value(before[0].avg_cost));
    assert_eq!(value(after[0].realized_gain) - value(before[0].realized_gain), dec("14.5"));
}
