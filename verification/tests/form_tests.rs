use todo_list::form::{parse_add_params, parse_delete_params, DecodeError};

#[test]
fn add_plain_text() {
    let r = parse_add_params(b"text=Buy+milk").unwrap();
    assert_eq!(r.text, "Buy milk");
}

#[test]
fn add_percent_escapes() {
    let r = parse_add_params(b"text=a%20b%2Bc").unwrap();
    assert_eq!(r.text, "a b+c");
}

#[test]
fn add_non_ascii_value() {
    let r = parse_add_params(b"text=caf%C3%A9").unwrap();
    assert_eq!(r.text, "caf\u{e9}");
}

#[test]
fn add_empty_value() {
    let r = parse_add_params(b"text=").unwrap();
    assert_eq!(r.text, "");
}

#[test]
fn add_value_without_equals_is_empty() {
    let r = parse_add_params(b"text").unwrap();
    assert_eq!(r.text, "");
}

#[test]
fn add_other_fields_ignored() {
    let r = parse_add_params(b"a=1&text=hi&b=2").unwrap();
    assert_eq!(r.text, "hi");
}

#[test]
fn add_percent_encoded_key_matches() {
    let r = parse_add_params(b"te%78t=x").unwrap();
    assert_eq!(r.text, "x");
}

#[test]
fn add_malformed_escape_stands_for_itself() {
    assert_eq!(parse_add_params(b"text=100%").unwrap().text, "100%");
    assert_eq!(parse_add_params(b"text=%zz").unwrap().text, "%zz");
    assert_eq!(parse_add_params(b"text=%4").unwrap().text, "%4");
}

#[test]
fn add_missing_field() {
    assert_eq!(parse_add_params(b"foo=1").unwrap_err(), DecodeError::MissingField);
    assert_eq!(parse_add_params(b"").unwrap_err(), DecodeError::MissingField);
}

#[test]
fn add_repeated_field() {
    assert_eq!(parse_add_params(b"text=a&text=b").unwrap_err(), DecodeError::RepeatedField);
}

#[test]
fn add_invalid_utf8_value() {
    assert_eq!(parse_add_params(b"text=%FF").unwrap_err(), DecodeError::InvalidText);
}

#[test]
fn delete_plain_id() {
    let r = parse_delete_params(b"id=12").unwrap();
    assert_eq!(r.id, 12);
}

#[test]
fn delete_id_zero() {
    assert_eq!(parse_delete_params(b"id=0").unwrap().id, 0);
}

#[test]
fn delete_id_at_limit() {
    assert_eq!(parse_delete_params(b"id=4294967295").unwrap().id, u32::MAX);
}

#[test]
fn delete_id_above_limit() {
    assert_eq!(parse_delete_params(b"id=4294967296").unwrap_err(), DecodeError::InvalidNumber);
}

#[test]
fn delete_id_not_a_number() {
    assert_eq!(parse_delete_params(b"id=abc").unwrap_err(), DecodeError::InvalidNumber);
    assert_eq!(parse_delete_params(b"id=1a").unwrap_err(), DecodeError::InvalidNumber);
    assert_eq!(parse_delete_params(b"id=").unwrap_err(), DecodeError::InvalidNumber);
    assert_eq!(parse_delete_params(b"id=-1").unwrap_err(), DecodeError::InvalidNumber);
}

#[test]
fn delete_missing_field() {
    assert_eq!(parse_delete_params(b"").unwrap_err(), DecodeError::MissingField);
    assert_eq!(parse_delete_params(b"text=1").unwrap_err(), DecodeError::MissingField);
}

#[test]
fn delete_repeated_field() {
    assert_eq!(parse_delete_params(b"id=1&id=2").unwrap_err(), DecodeError::RepeatedField);
}
