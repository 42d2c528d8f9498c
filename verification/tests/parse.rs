use intparse::maybe_parse;

#[test]
fn parses_plain_number() {
    assert_eq!(maybe_parse("42"), Some(42));
}

#[test]
fn parses_negative_number() {
    assert_eq!(maybe_parse("-7"), Some(-7));
}

#[test]
fn parses_explicit_plus_sign() {
    assert_eq!(maybe_parse("+42"), Some(42));
}

#[test]
fn parses_zero() {
    assert_eq!(maybe_parse("0"), Some(0));
    assert_eq!(maybe_parse("-0"), Some(0));
    assert_eq!(maybe_parse("+0"), Some(0));
}

#[test]
fn parses_leading_zeros() {
    assert_eq!(maybe_parse("0042"), Some(42));
    assert_eq!(maybe_parse("-000000000000000000007"), Some(-7));
}

#[test]
fn parses_extremes_of_range() {
    assert_eq!(maybe_parse("2147483647"), Some(i32::MAX));
    assert_eq!(maybe_parse("-2147483648"), Some(i32::MIN));
}

#[test]
fn rejects_just_out_of_range() {
    assert_eq!(maybe_parse("2147483648"), None);
    assert_eq!(maybe_parse("-2147483649"), None);
}

#[test]
fn rejects_letters() {
    assert_eq!(maybe_parse("abc"), None);
}

#[test]
fn rejects_empty_string() {
    assert_eq!(maybe_parse(""), None);
}

#[test]
fn rejects_overflowing_number() {
    assert_eq!(maybe_parse("99999999999999"), None);
}

#[test]
fn rejects_lone_or_doubled_sign() {
    assert_eq!(maybe_parse("+"), None);
    assert_eq!(maybe_parse("-"), None);
    assert_eq!(maybe_parse("--5"), None);
    assert_eq!(maybe_parse("+-5"), None);
    assert_eq!(maybe_parse("++5"), None);
}

#[test]
fn rejects_sign_in_the_middle() {
    assert_eq!(maybe_parse("1-2"), None);
    assert_eq!(maybe_parse("12-"), None);
}

#[test]
fn rejects_whitespace() {
    assert_eq!(maybe_parse(" 42"), None);
    assert_eq!(maybe_parse("42 "), None);
    assert_eq!(maybe_parse("4 2"), None);
    assert_eq!(maybe_parse("\n42"), None);
}

#[test]
fn rejects_trailing_garbage() {
    assert_eq!(maybe_parse("42x"), None);
    assert_eq!(maybe_parse("4.2"), None);
}

#[test]
fn rejects_non_ascii_text() {
    assert_eq!(maybe_parse("é5"), None);
    assert_eq!(maybe_parse("٤٢"), None);
    assert_eq!(maybe_parse("-٤"), None);
}
