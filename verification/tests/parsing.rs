use keystats::parse_line;
use keystats::ParseError;

fn line(s: &str) -> Vec<u8> {
    s.as_bytes().to_vec()
}

#[test]
fn parses_simple_record() {
    let r = parse_line(&line("Amsterdam;2.1")).unwrap();
    assert_eq!(r.key, b"Amsterdam".to_vec());
    assert_eq!(r.value, 21);
}

#[test]
fn parses_negative_and_integer_values() {
    assert_eq!(parse_line(&line("a;-3.7")).unwrap().value, -37);
    assert_eq!(parse_line(&line("a;4")).unwrap().value, 40);
    assert_eq!(parse_line(&line("a;-12")).unwrap().value, -120);
    assert_eq!(parse_line(&line("a;0.0")).unwrap().value, 0);
    assert_eq!(parse_line(&line("a;-0.0")).unwrap().value, 0);
}

#[test]
fn leading_zeros_and_empty_keys_are_accepted() {
    assert_eq!(parse_line(&line("k;0002.5")).unwrap().value, 25);
    let r = parse_line(&line(";1.0")).unwrap();
    assert!(r.key.is_empty());
    assert_eq!(r.value, 10);
}

#[test]
fn missing_separator_is_format_error() {
    assert!(matches!(parse_line(&line("Amsterdam2.1")), Err(ParseError::Format)));
    assert!(matches!(parse_line(&line("")), Err(ParseError::Format)));
    assert!(matches!(parse_line(&line("just some text")), Err(ParseError::Format)));
}

#[test]
fn bad_number_is_value_error() {
    assert!(matches!(parse_line(&line("Rome;not-a-number")), Err(ParseError::Value)));
    assert!(matches!(parse_line(&line("a;")), Err(ParseError::Value)));
    assert!(matches!(parse_line(&line("a;-")), Err(ParseError::Value)));
    assert!(matches!(parse_line(&line("a;.")), Err(ParseError::Value)));
    assert!(matches!(parse_line(&line("a;1.")), Err(ParseError::Value)));
    assert!(matches!(parse_line(&line("a;.5")), Err(ParseError::Value)));
    assert!(matches!(parse_line(&line("a;1.23")), Err(ParseError::Value)));
    assert!(matches!(parse_line(&line("a;1,5")), Err(ParseError::Value)));
    assert!(matches!(parse_line(&line("a;--1.0")), Err(ParseError::Value)));
}

#[test]
fn value_field_is_everything_after_first_separator() {
    assert!(matches!(parse_line(&line("a;1.0;2.0")), Err(ParseError::Value)));
    let r = parse_line(&line("a;1.0")).unwrap();
    assert_eq!(r.key, b"a".to_vec());
    assert_eq!(r.value, 10);
}

#[test]
fn extreme_values_roundtrip() {
    // i64::MAX and i64::MIN, written in tenths
    assert_eq!(parse_line(&line("a;922337203685477580.7")).unwrap().value, i64::MAX);
    assert_eq!(parse_line(&line("a;-922337203685477580.8")).unwrap().value, i64::MIN);
    assert!(matches!(parse_line(&line("a;922337203685477580.8")), Err(ParseError::Value)));
    assert!(matches!(parse_line(&line("a;-922337203685477580.9")), Err(ParseError::Value)));
    assert!(matches!(
        parse_line(&line("a;99999999999999999999999999999999")),
        Err(ParseError::Value)
    ));
}
