use crypto_orderbook::util::parse_price_cents;

#[test]
fn test_parse_price_cents() {
    assert_eq!(parse_price_cents("95245.75"), Some(9524575));
    assert_eq!(parse_price_cents("100.00"), Some(10000));
    assert_eq!(parse_price_cents("50.5"), Some(5050));
    assert_eq!(parse_price_cents("0.01"), Some(1));
    assert_eq!(parse_price_cents("95245.75000000"), Some(9524575));
    assert_eq!(parse_price_cents("100"), Some(10000));
    assert_eq!(parse_price_cents("0"), Some(0));
}

#[test]
fn parse_truncates_rather_than_rounds() {
    assert_eq!(parse_price_cents("1.999"), Some(199));
    assert_eq!(parse_price_cents("7.5"), Some(750));
    assert_eq!(parse_price_cents("7."), Some(700));
}

#[test]
fn parse_refuses_non_numeric_input() {
    assert_eq!(parse_price_cents(""), None);
    assert_eq!(parse_price_cents("abc"), None);
    assert_eq!(parse_price_cents(".5"), None);
    assert_eq!(parse_price_cents("1.2.3"), None);
    assert_eq!(parse_price_cents("12a"), None);
    assert_eq!(parse_price_cents("1.2x"), None);
    assert_eq!(parse_price_cents("-1"), None);
}

#[test]
fn parse_refuses_values_beyond_u64() {
    assert_eq!(parse_price_cents("184467440737095517"), None);
    assert_eq!(parse_price_cents("184467440737095516"), Some(18446744073709551600));
    assert_eq!(parse_price_cents("184467440737095516.16"), None);
    assert_eq!(parse_price_cents("184467440737095516.15"), Some(18446744073709551615));
    assert_eq!(parse_price_cents("99999999999999999999999"), None);
}

#[test]
fn parse_accepts_one_leading_plus() {
    assert_eq!(parse_price_cents("+5"), Some(500));
    assert_eq!(parse_price_cents("+5.25"), Some(525));
    assert_eq!(parse_price_cents("+"), None);
    assert_eq!(parse_price_cents("++5"), None);
    assert_eq!(parse_price_cents("+.5"), None);
    assert_eq!(parse_price_cents("1.+5"), None);
    assert_eq!(parse_price_cents("5+"), None);
}
