use reforger_stats::decimal::parse_distance;

#[test]
fn integer_distances_scale_by_ten_thousand() {
    assert_eq!(parse_distance("80"), Some(800_000));
    assert_eq!(parse_distance("0"), Some(0));
}

#[test]
fn fractional_distances_are_exact() {
    assert_eq!(parse_distance("120.5"), Some(1_205_000));
    assert_eq!(parse_distance("300.25"), Some(3_002_500));
    assert_eq!(parse_distance("1.2345"), Some(12_345));
}

#[test]
fn dot_edge_forms() {
    assert_eq!(parse_distance(".5"), Some(5_000));
    assert_eq!(parse_distance("5."), Some(50_000));
    assert_eq!(parse_distance("."), None);
}

#[test]
fn malformed_distances_are_rejected() {
    assert_eq!(parse_distance(""), None);
    assert_eq!(parse_distance("abc"), None);
    assert_eq!(parse_distance("1.2.3"), None);
    assert_eq!(parse_distance("-5"), None);
    assert_eq!(parse_distance("1.23456"), None);
    assert_eq!(parse_distance("123456789012345"), None);
}

#[test]
fn largest_accepted_integer_part() {
    // fourteen integer digits are the most the fixed-point range admits
    assert_eq!(parse_distance("99999999999999"), Some(999_999_999_999_990_000));
    assert_eq!(parse_distance("99999999999999.9999"), Some(999_999_999_999_999_999));
}
