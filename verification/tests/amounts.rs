use invest_dash::amount::{Amount, MAX_MAGNITUDE, MAX_SCALE};

#[test]
fn parse_reads_mantissa_and_scale() {
    let a = Amount::parse_or_zero("150.25");
    assert_eq!((a.mantissa, a.scale), (15025, 2));
    let b = Amount::parse_or_zero("-3");
    assert_eq!((b.mantissa, b.scale), (-3, 0));
}

#[test]
fn unreadable_text_reads_as_zero() {
    for text in ["", "abc", "1.2.3", "ten"] {
        let a = Amount::parse_or_zero(text);
        assert_eq!((a.mantissa, a.scale), (0, 0));
    }
}

#[test]
fn new_checks_the_limits() {
    assert!(Amount::new(MAX_MAGNITUDE, MAX_SCALE).is_some());
    assert!(Amount::new(-MAX_MAGNITUDE, 0).is_some());
    assert!(Amount::new(MAX_MAGNITUDE + 1, 0).is_none());
    assert!(Amount::new(1, MAX_SCALE + 1).is_none());
}

#[test]
fn sign_tests() {
    assert!(Amount::parse_or_zero("0.01").is_positive());
    assert!(!Amount::parse_or_zero("0.00").is_positive());
    assert!(Amount::parse_or_zero("0.00").is_zero());
    assert!(!Amount::parse_or_zero("-1").is_positive());
}
