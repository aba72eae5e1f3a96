use invest_dash::amount::Amount;
use invest_dash::records::Portfolio;
use invest_dash::ui::{portfolio_rows, RowStyle, Command, Key, TransactionField, ViewMode, ViewState, LAST_PORTFOLIO_ERROR};

fn typed(v: &mut ViewState, text: &str) {
    for c in text.chars() {
        v.handle_key(Key::Char(c), 1, 0);
    }
}

#[test]
fn new_screen_is_ready() {
    let v = ViewState::new();
    assert_eq!(v.view_mode, ViewMode::Dashboard);
    assert_eq!(v.status_msg, " Ready");
    assert_eq!(v.input_fields.fee, "0");
    assert_eq!(v.input_fields.transaction_type, "Buy");
    assert!(v.error_msg.is_none());
}

#[test]
fn dashboard_keys() {
    let mut v = ViewState::new();
    assert_eq!(v.handle_key(Key::Char('r'), 1, 0), Command::RefreshPrices);
    assert_eq!(v.handle_key(Key::Char('d'), 1, 0), Command::RefreshHoldings);
    assert_eq!(v.handle_key(Key::Char('x'), 1, 0), Command::Nothing);
    assert!(v.quits(Key::Char('q')));
    v.handle_key(Key::Char('l'), 1, 0);
    assert_eq!(v.view_mode, ViewMode::TransactionLog);
    assert!(!v.quits(Key::Char('q')));
    v.handle_key(Key::Esc, 1, 0);
    v.handle_key(Key::Char('p'), 1, 0);
    assert_eq!(v.view_mode, ViewMode::PortfolioSelect);
    assert_eq!(v.selected_index, 0);
}

#[test]
fn tab_cycles_through_the_form() {
    let mut v = ViewState::new();
    v.handle_key(Key::Char('a'), 1, 0);
    let order = [
        TransactionField::Shares,
        TransactionField::Price,
        TransactionField::Fee,
        TransactionField::Type,
        TransactionField::Symbol,
    ];
    for expected in order {
        v.handle_key(Key::Tab, 1, 0);
        assert_eq!(v.input_field, expected);
    }
}

#[test]
fn typing_and_erasing() {
    let mut v = ViewState::new();
    v.handle_key(Key::Char('a'), 1, 0);
    typed(&mut v, "aapq");
    v.handle_key(Key::Backspace, 1, 0);
    assert_eq!(v.input_fields.symbol, "aap");
    v.handle_key(Key::Tab, 1, 0);
    v.handle_key(Key::Backspace, 1, 0);
    assert_eq!(v.input_fields.shares, "");
    typed(&mut v, "10");
    assert_eq!(v.input_fields.shares, "10");
    assert_eq!(v.input_fields.symbol, "aap");
    for _ in 0..3 {
        v.handle_key(Key::Tab, 1, 0);
    }
    assert_eq!(v.input_field, TransactionField::Type);
    typed(&mut v, "s");
    assert_eq!(v.input_fields.transaction_type, "Sell");
    typed(&mut v, "x");
    assert_eq!(v.input_fields.transaction_type, "Sell");
    typed(&mut v, "B");
    assert_eq!(v.input_fields.transaction_type, "Buy");
}

#[test]
fn submit_rejects_incomplete_form() {
    let mut v = ViewState::new();
    v.handle_key(Key::Char('a'), 1, 0);
    assert_eq!(v.handle_key(Key::Enter, 1, 0), Command::SubmitTransaction);
    assert!(v.submit_transaction().is_none());
    assert_eq!(v.error_msg.as_deref(), Some("Invalid input: Please fill all fields correctly"));
    assert_eq!(v.view_mode, ViewMode::AddTransaction);
    v.handle_key(Key::Tab, 1, 0);
    assert!(v.error_msg.is_none());
}

#[test]
fn submit_accepts_a_complete_form() {
    let mut v = ViewState::new();
    v.handle_key(Key::Char('a'), 1, 0);
    typed(&mut v, "2330.tw");
    v.handle_key(Key::Tab, 1, 0);
    typed(&mut v, "1000");
    v.handle_key(Key::Tab, 1, 0);
    typed(&mut v, "585.5");
    let d = v.submit_transaction().unwrap();
    assert_eq!(d.symbol, "2330.TW");
    assert_eq!((d.shares.mantissa, d.shares.scale), (1000, 0));
    assert_eq!((d.price.mantissa, d.price.scale), (5855, 1));
    assert!(d.fee.is_zero());
    assert_eq!(d.transaction_type, "Buy");
    v.transaction_added(&d);
    assert_eq!(v.view_mode, ViewMode::Dashboard);
    assert_eq!(v.status_msg, " Added Buy transaction for 2330.TW");
    assert_eq!(v.input_fields.symbol, "");
    assert_eq!(v.input_fields.fee, "0");
}

#[test]
fn unreadable_price_counts_as_zero() {
    let mut v = ViewState::new();
    v.handle_key(Key::Char('a'), 1, 0);
    typed(&mut v, "X");
    v.handle_key(Key::Tab, 1, 0);
    typed(&mut v, "1");
    v.handle_key(Key::Tab, 1, 0);
    typed(&mut v, "abc");
    assert!(v.submit_transaction().is_none());
    let zero = Amount::parse_or_zero("abc");
    assert!(zero.is_zero());
}

#[test]
fn last_portfolio_cannot_be_deleted() {
    let mut v = ViewState::new();
    v.handle_key(Key::Char('p'), 1, 0);
    assert_eq!(v.handle_key(Key::Char('d'), 1, 0), Command::Nothing);
    assert_eq!(v.error_msg.as_deref(), Some(LAST_PORTFOLIO_ERROR));
    assert_eq!(v.handle_key(Key::Char('D'), 2, 0), Command::DeletePortfolio(0));
    assert!(v.error_msg.is_none());
}

#[test]
fn portfolio_list_navigation() {
    let mut v = ViewState::new();
    v.handle_key(Key::Char('p'), 3, 0);
    v.handle_key(Key::Up, 3, 0);
    assert_eq!(v.selected_index, 0);
    for _ in 0..5 {
        v.handle_key(Key::Down, 3, 0);
    }
    assert_eq!(v.selected_index, 2);
    assert_eq!(v.handle_key(Key::Enter, 3, 0), Command::SwitchPortfolio(2));
    assert_eq!(v.handle_key(Key::Char('n'), 3, 0), Command::CreatePortfolio);
    v.portfolio_switched("Retirement");
    assert_eq!(v.view_mode, ViewMode::Dashboard);
    assert_eq!(v.status_msg, " Switched to: Retirement");
}

#[test]
fn transaction_log_navigation_and_delete() {
    let mut v = ViewState::new();
    v.handle_key(Key::Char('l'), 1, 2);
    assert_eq!(v.handle_key(Key::Char('d'), 1, 0), Command::Nothing);
    v.handle_key(Key::Down, 1, 2);
    v.handle_key(Key::Down, 1, 2);
    assert_eq!(v.selected_index, 1);
    assert_eq!(v.handle_key(Key::Char('d'), 1, 2), Command::DeleteTransaction(1));
    v.transaction_deleted("AAPL");
    assert_eq!(v.status_msg, " Deleted transaction: AAPL");
}

#[test]
fn outcome_messages() {
    let mut v = ViewState::new();
    v.holdings_refreshed();
    assert_eq!(v.status_msg, " Holdings refreshed");
    v.holdings_failed("disk full");
    assert_eq!(v.error_msg.as_deref(), Some("Failed to calculate holdings: disk full"));
    v.transactions_failed("locked");
    assert_eq!(v.error_msg.as_deref(), Some("Failed to load transactions: locked"));
    v.delete_failed("gone");
    assert_eq!(v.error_msg.as_deref(), Some("Failed to delete: gone"));
    v.portfolio_deleted("Old");
    assert_eq!(v.status_msg, " Deleted portfolio: Old");
    v.portfolio_created();
    assert_eq!(v.status_msg, " Created new portfolio");
}

#[test]
fn filter_key_opens_the_symbol_filter() {
    let mut v = ViewState::new();
    assert_eq!(v.handle_key(Key::Char('f'), 1, 0), Command::Nothing);
    assert_eq!(v.view_mode, ViewMode::FilterInput);
    assert_eq!(v.filter, "");
    for c in "aapx".chars() {
        v.handle_key(Key::Char(c), 1, 0);
    }
    v.handle_key(Key::Backspace, 1, 0);
    assert_eq!(v.filter, "aap");
    assert_eq!(v.handle_key(Key::Enter, 1, 2), Command::Nothing);
    assert_eq!(v.view_mode, ViewMode::TransactionLog);
    assert_eq!(v.selected_index, 0);
    assert_eq!(v.filter, "aap");
    v.handle_key(Key::Esc, 1, 2);
    assert_eq!(v.view_mode, ViewMode::Dashboard);
    v.handle_key(Key::Char('l'), 1, 2);
    assert_eq!(v.filter, "");
}

#[test]
fn escape_from_the_filter_clears_it() {
    let mut v = ViewState::new();
    v.handle_key(Key::Char('f'), 1, 0);
    v.handle_key(Key::Char('t'), 1, 0);
    v.handle_key(Key::Esc, 1, 0);
    assert_eq!(v.view_mode, ViewMode::Dashboard);
    assert_eq!(v.filter, "");
}

#[test]
fn rebalance_key_asks_for_advice() {
    let mut v = ViewState::new();
    assert_eq!(v.handle_key(Key::Char('b'), 1, 0), Command::Rebalance);
    assert_eq!(v.view_mode, ViewMode::Rebalance);
    assert_eq!(v.handle_key(Key::Char('b'), 1, 0), Command::Nothing);
    assert!(!v.quits(Key::Char('q')));
    v.handle_key(Key::Esc, 1, 0);
    assert_eq!(v.view_mode, ViewMode::Dashboard);
}

#[test]
fn form_rows_follow_the_tab_order() {
    let mut v = ViewState::new();
    v.handle_key(Key::Char('a'), 1, 0);
    typed(&mut v, "aapl");
    v.handle_key(Key::Tab, 1, 0);
    let rows = v.form_rows();
    let labels: Vec<&str> = rows.iter().map(|r| r.label.as_str()).collect();
    assert_eq!(labels, vec!["Symbol", "Shares", "Price", "Fee", "Type (Buy/Sell)"]);
    assert_eq!(rows[0].value, "aapl");
    assert_eq!(rows[3].value, "0");
    assert_eq!(rows[4].value, "Buy");
    let lit: Vec<bool> = rows.iter().map(|r| r.highlighted).collect();
    assert_eq!(lit, vec![false, true, false, false, false]);
}

#[test]
fn portfolio_rows_mark_the_current_one() {
    let a = Portfolio::create_with("1234abcd-ef".to_string(), "t".to_string(), "Main", "{}");
    let b = Portfolio::create_with("nohyphen".to_string(), "t".to_string(), "Side", "{}");
    let c = Portfolio::create_with("-lead".to_string(), "t".to_string(), "Odd", "{}");
    let rows = portfolio_rows(&vec![a, b, c], "nohyphen", 0);
    assert_eq!(rows[0].label, "  Main");
    assert_eq!(rows[0].short_id, "1234abcd");
    assert_eq!(rows[0].style, RowStyle::Selected);
    assert_eq!(rows[1].label, "✓ Side");
    assert_eq!(rows[1].short_id, "nohyphen");
    assert_eq!(rows[1].style, RowStyle::Current);
    assert_eq!(rows[2].short_id, "");
    assert_eq!(rows[2].style, RowStyle::Plain);
}
