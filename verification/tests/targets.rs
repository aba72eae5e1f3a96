use invest_dash::targets::parse_targets;

fn parsed(text: &str) -> Option<Vec<(String, i128, u32)>> {
    parse_targets(text).map(|v| v.into_iter().map(|t| (t.symbol, t.percent.mantissa, t.percent.scale)).collect())
}

#[test]
fn empty_object_has_no_targets() {
    assert_eq!(parsed("{}"), Some(vec![]));
    assert_eq!(parsed("  { \n }  "), Some(vec![]));
}

#[test]
fn members_are_read_in_order() {
    assert_eq!(
        parsed("{\"AAPL\": 60, \"VOO\":40.5}"),
        Some(vec![("AAPL".to_string(), 60, 0), ("VOO".to_string(), 405, 1)])
    );
    assert_eq!(parsed("{ \"2330.TW\" : 100.00 }"), Some(vec![("2330.TW".to_string(), 10000, 2)]));
}

#[test]
fn malformed_objects_are_refused() {
    assert_eq!(parsed(""), None);
    assert_eq!(parsed("[]"), None);
    assert_eq!(parsed("{"), None);
    assert_eq!(parsed("{\"AAPL\": }"), None);
    assert_eq!(parsed("{\"AAPL\" 60}"), None);
    assert_eq!(parsed("{\"AAPL\": 60,}"), None);
    assert_eq!(parsed("{\"AAPL\": 60} x"), None);
    assert_eq!(parsed("{\"AAPL\": -5}"), None);
    assert_eq!(parsed("{\"AAPL\": 5.}"), None);
    assert_eq!(parsed("{\"A\\\"B\": 5}"), None);
    assert_eq!(parsed("{AAPL: 5}"), None);
}

#[test]
fn percentages_have_at_most_28_digits() {
    assert_eq!(
        parsed("{\"X\": 9999999999999999999999999999}"),
        Some(vec![("X".to_string(), 9999999999999999999999999999, 0)])
    );
    assert_eq!(parsed("{\"X\": 10000000000000000000000000000}"), None);
    assert_eq!(parsed("{\"X\": 1.000000000000000000000000000}"), Some(vec![("X".to_string(), 1000000000000000000000000000, 27)]));
    assert_eq!(parsed("{\"X\": 1.0000000000000000000000000000}"), None);
}
