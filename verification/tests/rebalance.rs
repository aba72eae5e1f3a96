use invest_dash::amount::Amount;
use invest_dash::ledger::{calculate_holdings, Transaction};
use invest_dash::rebalance::{rebalance, Action};
use invest_dash::targets::parse_targets;
use rust_decimal::Decimal;
use std::str::FromStr;

fn amount(text: &str) -> Amount {
    Amount::parse_or_zero(text)
}

fn value(a: Amount) -> Decimal {
    Decimal::from_i128_with_scale(a.mantissa, a.scale)
}

fn dec(text: &str) -> Decimal {
    Decimal::from_str(text).unwrap()
}

fn buy(symbol: &str, price: &str, shares: &str) -> Transaction {
    Transaction::create("p", symbol, None, "2024-01-01", amount(price), amount(shares), Amount::zero(), "Buy", "USD")
}

#[test]
fn advice_against_targets() {
    // AAPL: 10 shares at 150 = 1500; MSFT: 5 shares at 100 = 500; total 2000.
    let holdings = calculate_holdings(vec![buy("AAPL", "100", "10"), buy("MSFT", "100", "5")]).unwrap();
    assert_eq!(holdings[0].symbol, "AAPL");
    let prices = vec![amount("150"), amount("100")];
    let targets = parse_targets("{\"AAPL\": 50, \"VOO\": 30}").unwrap();
    let advice = rebalance(&holdings, &prices, &targets).unwrap();
    assert_eq!(advice.len(), 3);

    assert_eq!(advice[0].symbol, "AAPL");
    assert_eq!(value(advice[0].current_value), dec("1500"));
    assert_eq!(value(advice[0].target_value), dec("1000"));
    assert_eq!(value(advice[0].difference), dec("-500"));
    assert_eq!(advice[0].action, Action::Sell);

    assert_eq!(advice[1].symbol, "VOO");
    assert_eq!(value(advice[1].current_value), dec("0"));
    assert_eq!(value(advice[1].target_value), dec("600"));
    assert_eq!(value(advice[1].difference), dec("600"));
    assert_eq!(advice[1].action, Action::Buy);

    // MSFT has no target: all of it is to be sold.
    assert_eq!(advice[2].symbol, "MSFT");
    assert_eq!(value(advice[2].current_value), dec("500"));
    assert_eq!(value(advice[2].target_value), dec("0"));
    assert_eq!(value(advice[2].difference), dec("-500"));
    assert_eq!(advice[2].action, Action::Sell);
}

#[test]
fn on_target_means_hold() {
    let holdings = calculate_holdings(vec![buy("VOO", "400", "1")]).unwrap();
    let targets = parse_targets("{\"VOO\": 100}").unwrap();
    let advice = rebalance(&holdings, &vec![amount("400")], &targets).unwrap();
    assert_eq!(advice.len(), 1);
    assert_eq!(advice[0].action, Action::Hold);
    assert_eq!(value(advice[0].difference), dec("0"));
}

#[test]
fn no_holdings_no_targets_no_advice() {
    let targets = parse_targets("{}").unwrap();
    assert!(rebalance(&vec![], &vec![], &targets).unwrap().is_empty());
}

#[test]
fn overflowing_values_are_an_error() {
    let holdings = calculate_holdings(vec![buy("BIG", "1", "79228162514264337593543950335")]).unwrap();
    let prices = vec![amount("10")];
    let targets = parse_targets("{}").unwrap();
    assert!(rebalance(&holdings, &prices, &targets).is_err());
}
