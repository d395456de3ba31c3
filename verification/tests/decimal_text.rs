use ledger::decimal::{parse_amount, render_amount, Decimal};

fn dec(neg: bool, mantissa: u128, scale: u32) -> Decimal {
    Decimal { neg, mantissa, scale }
}

#[test]
fn parses_plain_amounts_exactly() {
    assert_eq!(parse_amount("19.99"), Some(dec(false, 1999, 2)));
    assert_eq!(parse_amount("0.1"), Some(dec(false, 1, 1)));
    assert_eq!(parse_amount("12.50"), Some(dec(false, 1250, 2)));
    assert_eq!(parse_amount("0"), Some(dec(false, 0, 0)));
    assert_eq!(parse_amount("42"), Some(dec(false, 42, 0)));
    assert_eq!(parse_amount("0.005"), Some(dec(false, 5, 3)));
}

#[test]
fn parses_signed_amounts() {
    assert_eq!(parse_amount("-3.75"), Some(dec(true, 375, 2)));
    assert_eq!(parse_amount("-12"), Some(dec(true, 12, 0)));
    // negative zero is normalised to plain zero
    assert_eq!(parse_amount("-0.00"), Some(dec(false, 0, 2)));
    assert_eq!(parse_amount("-0"), Some(dec(false, 0, 0)));
}

#[test]
fn keeps_leading_zero_digits_in_value_only() {
    // leading zeros change no value; the digits after the point stay
    assert_eq!(parse_amount("007"), Some(dec(false, 7, 0)));
    assert_eq!(parse_amount("00.10"), Some(dec(false, 10, 2)));
}

#[test]
fn rejects_malformed_amounts() {
    assert_eq!(parse_amount(""), None);
    assert_eq!(parse_amount("-"), None);
    assert_eq!(parse_amount("."), None);
    assert_eq!(parse_amount("5."), None);
    assert_eq!(parse_amount(".5"), None);
    assert_eq!(parse_amount("-.5"), None);
    assert_eq!(parse_amount("1..2"), None);
    assert_eq!(parse_amount("1.2.3"), None);
    assert_eq!(parse_amount("12a"), None);
    assert_eq!(parse_amount("a12"), None);
    assert_eq!(parse_amount("+1"), None);
    assert_eq!(parse_amount(" 1"), None);
    assert_eq!(parse_amount("1 "), None);
    assert_eq!(parse_amount("1e5"), None);
    assert_eq!(parse_amount("--1"), None);
    assert_eq!(parse_amount("1.-2"), None);
}

#[test]
fn accepts_at_most_thirty_eight_digit_positions() {
    let thirty_eight_nines = "9".repeat(38);
    let parsed = parse_amount(&thirty_eight_nines).expect("38 digits fit");
    assert_eq!(parsed.mantissa, 10u128.pow(38) - 1);
    assert_eq!(parsed.scale, 0);

    let thirty_nine_nines = "9".repeat(39);
    assert_eq!(parse_amount(&thirty_nine_nines), None);

    // 1 integer digit + 38 fractional digits exceed the bound
    let too_fine = format!("0.{}1", "0".repeat(37));
    assert_eq!(parse_amount(&too_fine), None);

    // 1 integer digit + 37 fractional digits fit
    let finest = format!("0.{}1", "0".repeat(36));
    assert_eq!(parse_amount(&finest), Some(dec(false, 1, 37)));
}

#[test]
fn renders_canonical_text() {
    assert_eq!(render_amount(&dec(false, 1999, 2)), "19.99");
    assert_eq!(render_amount(&dec(false, 1, 1)), "0.1");
    assert_eq!(render_amount(&dec(false, 1250, 2)), "12.50");
    assert_eq!(render_amount(&dec(true, 375, 2)), "-3.75");
    assert_eq!(render_amount(&dec(false, 0, 0)), "0");
    assert_eq!(render_amount(&dec(false, 0, 2)), "0.00");
    assert_eq!(render_amount(&dec(false, 5, 3)), "0.005");
    assert_eq!(render_amount(&dec(false, 42, 0)), "42");
}

#[test]
fn round_trips_parse_then_render() {
    for text in [
        "19.99", "0.1", "12.50", "-3.75", "0", "42", "0.005", "123456789.000000001",
    ] {
        let d = parse_amount(text).expect("valid amount text");
        assert_eq!(render_amount(&d), text);
    }
}

#[test]
fn no_binary_floating_point_drift() {
    // 19.99 and 0.1 have no finite binary representation; exact decimal
    // storage must reproduce the digits, never 19.990000000000002.
    let d = parse_amount("19.99").unwrap();
    assert_eq!(render_amount(&d), "19.99");
    let d = parse_amount("0.1").unwrap();
    assert_eq!(render_amount(&d), "0.1");
    let sum_like = parse_amount("0.30000000000000004");
    assert!(sum_like.is_some());
    assert_eq!(render_amount(&sum_like.unwrap()), "0.30000000000000004");
}
