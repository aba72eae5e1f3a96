use invest_dash::amount::Amount;
use invest_dash::store::{Database, StoreError};
use rust_decimal::Decimal;
use std::str::FromStr;

fn setup_test_db() -> Database {
    Database::new()
}

fn dec(text: &str) -> Amount {
    Amount::parse_or_zero(text)
}

fn same(a: Amount, b: Amount) -> bool {
    Decimal::from_i128_with_scale(a.mantissa, a.scale) == Decimal::from_i128_with_scale(b.mantissa, b.scale)
}

#[test]
fn test_portfolio_crud() {
    let mut db = setup_test_db();

    // Add
    let id = db.add_portfolio("Test Portfolio", "{}").unwrap();

    // Get
    let p = db.get_portfolio_by_id(&id).expect("Portfolio should exist");
    assert_eq!(p.name, "Test Portfolio");

    // List
    let all = db.get_all_portfolios();
    assert_eq!(all.len(), 1);

    // Update
    db.update_portfolio(&id, "Updated Name", "{\"stock\": 100}");
    let p_updated = db.get_portfolio_by_id(&id).unwrap();
    assert_eq!(p_updated.name, "Updated Name");
    assert_eq!(p_updated.target_allocations, "{\"stock\": 100}");

    // Delete
    db.delete_portfolio(&id);
    let p_deleted = db.get_portfolio_by_id(&id);
    assert!(p_deleted.is_none());
}

#[test]
fn test_transaction_crud() {
    let mut db = setup_test_db();
    let p_id = db.add_portfolio("Test", "{}").unwrap();

    // Add
    let tx_id = db
        .add_transaction(&p_id, "AAPL", Some("Apple"), "2023-01-01", dec("150.0"), dec("10.0"), dec("1.0"), "Buy", "USD")
        .unwrap();

    // Get
    let tx = db.get_transaction_by_id(&tx_id).expect("Transaction should exist");
    assert_eq!(tx.symbol, "AAPL");
    assert!(same(tx.price, dec("150.0")));

    // List
    let all = db.get_transactions(&p_id);
    assert_eq!(all.len(), 1);

    // Update
    db.update_transaction(
        &tx_id,
        "AAPL",
        Some("Apple Inc"),
        "2023-01-02",
        dec("155.0"),
        dec("10.0"),
        dec("2.0"),
        "Buy",
        "USD",
    );
    let tx_updated = db.get_transaction_by_id(&tx_id).unwrap();
    assert!(same(tx_updated.price, dec("155.0")));
    assert!(same(tx_updated.fee, dec("2.0")));
    assert_eq!(tx_updated.date, "2023-01-02");

    // Delete
    db.delete_transaction(&tx_id);
    let tx_deleted = db.get_transaction_by_id(&tx_id);
    assert!(tx_deleted.is_none());
}

#[test]
fn transaction_needs_a_stored_portfolio() {
    let mut db = setup_test_db();
    let r = db.add_transaction("nope", "AAPL", None, "2023-01-01", dec("1"), dec("1"), dec("0"), "Buy", "USD");
    assert_eq!(r, Err(StoreError::UnknownPortfolio));
    assert!(db.get_transactions("nope").is_empty());
}

#[test]
fn duplicate_identifiers_are_refused() {
    let mut db = setup_test_db();
    let p = invest_dash::records::Portfolio::create_with("p1".to_string(), "t".to_string(), "A", "{}");
    let again = invest_dash::records::Portfolio::create_with("p1".to_string(), "u".to_string(), "B", "{}");
    assert_eq!(db.insert_portfolio(p), Ok(()));
    assert_eq!(db.insert_portfolio(again), Err(StoreError::DuplicateId));
    assert_eq!(db.get_all_portfolios().len(), 1);
    let t = invest_dash::ledger::Transaction::create("p1", "X", None, "2023-01-01", dec("1"), dec("1"), dec("0"), "Buy", "USD");
    let mut copy = t.duplicate();
    copy.symbol = "Y".to_string();
    assert_eq!(db.insert_transaction(t), Ok(()));
    assert_eq!(db.insert_transaction(copy), Err(StoreError::DuplicateId));
}

#[test]
fn deleting_a_portfolio_deletes_its_transactions() {
    let mut db = setup_test_db();
    let a = db.add_portfolio("A", "{}").unwrap();
    let b = db.add_portfolio("B", "{}").unwrap();
    db.add_transaction(&a, "AAPL", None, "2023-01-01", dec("1"), dec("1"), dec("0"), "Buy", "USD").unwrap();
    let kept = db.add_transaction(&b, "TSLA", None, "2023-01-01", dec("1"), dec("1"), dec("0"), "Buy", "USD").unwrap();
    db.delete_portfolio(&a);
    assert!(db.get_transactions(&a).is_empty());
    assert_eq!(db.get_transactions(&b).len(), 1);
    assert!(db.get_transaction_by_id(&kept).is_some());
    assert_eq!(db.get_all_portfolios().len(), 1);
}

#[test]
fn transactions_are_listed_newest_first() {
    let mut db = setup_test_db();
    let p = db.add_portfolio("P", "{}").unwrap();
    let other = db.add_portfolio("Q", "{}").unwrap();
    for (date, sym) in [("2023-01-02", "B"), ("2023-01-03", "C"), ("2023-01-01", "A"), ("2023-01-02", "D")] {
        db.add_transaction(&p, sym, None, date, dec("1"), dec("1"), dec("0"), "Buy", "USD").unwrap();
    }
    db.add_transaction(&other, "Z", None, "2024-01-01", dec("1"), dec("1"), dec("0"), "Buy", "USD").unwrap();
    let listed: Vec<String> = db.get_transactions(&p).into_iter().map(|t| t.symbol).collect();
    assert_eq!(listed, vec!["C", "B", "D", "A"]);
}

#[test]
fn portfolios_are_listed_in_creation_order() {
    let mut db = setup_test_db();
    for (id, created) in [("x", "2024-03-01"), ("y", "2024-01-01"), ("z", "2024-02-01")] {
        let p = invest_dash::records::Portfolio::create_with(id.to_string(), created.to_string(), id, "{}");
        db.insert_portfolio(p).unwrap();
    }
    let ids: Vec<String> = db.get_all_portfolios().into_iter().map(|p| p.id).collect();
    assert_eq!(ids, vec!["y", "z", "x"]);
}

#[test]
fn default_portfolio_is_made_once() {
    let mut db = setup_test_db();
    let first = db.get_or_create_default_portfolio().unwrap();
    assert_eq!(first.name, "Default Portfolio");
    assert_eq!(first.target_allocations, "{\"Stock\": 60, \"Bond\": 30, \"Cash\": 10}");
    let again = db.get_or_create_default_portfolio().unwrap();
    assert_eq!(again.id, first.id);
    assert_eq!(db.get_all_portfolios().len(), 1);
}

#[test]
fn updating_a_portfolio_keeps_its_creation_time() {
    let mut db = setup_test_db();
    let p = invest_dash::records::Portfolio::create_with("p".to_string(), "t0".to_string(), "Old", "{}");
    db.insert_portfolio(p).unwrap();
    db.update_portfolio_at("p", "New", "{\"Cash\": 100}", "t1");
    let q = db.get_portfolio_by_id("p").unwrap();
    assert_eq!(q.name, "New");
    assert_eq!(q.created_at, "t0");
    assert_eq!(q.updated_at, "t1");
    assert_eq!(Decimal::from_str("1").unwrap(), Decimal::ONE);
}

#[test]
fn deleting_an_unknown_portfolio_changes_nothing() {
    let mut db = setup_test_db();
    let a = db.add_portfolio("A", "{}").unwrap();
    db.add_transaction(&a, "AAPL", None, "2023-01-01", dec("1"), dec("1"), dec("0"), "Buy", "USD").unwrap();
    db.delete_portfolio("no-such-portfolio");
    assert_eq!(db.get_all_portfolios().len(), 1);
    assert_eq!(db.get_transactions(&a).len(), 1);
}

#[test]
fn adding_to_fresh_tables_succeeds() {
    let mut db = setup_test_db();
    let p = db.add_portfolio("Fresh", "{\"AAPL\": 100}");
    assert!(p.is_ok());
    let t = db.add_transaction(&p.unwrap(), "AAPL", None, "2023-01-01", dec("1"), dec("1"), dec("0"), "Buy", "USD");
    assert!(t.is_ok());
}
