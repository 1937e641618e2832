use bencode::{decode, decode_value, DecodeError, DEFAULT_MAX_DEPTH};

#[test]
fn test_odd_entry_count() {
    assert_eq!(decode(b"d3:fooe"), Err(DecodeError::OddEntryCount));
}

#[test]
fn test_odd_entry_count_before_key_check() {
    assert_eq!(decode(b"di1ee"), Err(DecodeError::OddEntryCount));
}

#[test]
fn test_non_string_key() {
    assert_eq!(decode(b"di1ei2ee"), Err(DecodeError::NonStringKey));
}

#[test]
fn test_truncated_string() {
    assert_eq!(decode(b"10:abc"), Err(DecodeError::TruncatedString));
}

#[test]
fn test_huge_length_is_truncated() {
    assert_eq!(
        decode(b"99999999999999999999999:ab"),
        Err(DecodeError::TruncatedString)
    );
}

#[test]
fn test_nesting_too_deep() {
    let input = vec![b'l'; 100];
    assert_eq!(decode(&input), Err(DecodeError::NestingTooDeep));
}

#[test]
fn test_nesting_budget_is_configurable() {
    assert_eq!(
        decode_value(b"llee", 1),
        Err(DecodeError::NestingTooDeep)
    );
    assert_eq!(decode_value(b"le", 0), Err(DecodeError::NestingTooDeep));
}

#[test]
fn test_malformed_integer_missing_terminator() {
    assert_eq!(decode(b"i12"), Err(DecodeError::MalformedInteger));
}

#[test]
fn test_malformed_integer_empty_digits() {
    assert_eq!(decode(b"ie"), Err(DecodeError::MalformedInteger));
}

#[test]
fn test_malformed_integer_plus_sign() {
    assert_eq!(decode(b"i+5e"), Err(DecodeError::MalformedInteger));
}

#[test]
fn test_malformed_integer_sign_only() {
    assert_eq!(decode(b"i-e"), Err(DecodeError::MalformedInteger));
}

#[test]
fn test_malformed_integer_garbage_digits() {
    assert_eq!(decode(b"iabce"), Err(DecodeError::MalformedInteger));
}

#[test]
fn test_integer_overflow() {
    assert_eq!(
        decode(b"i9223372036854775808e"),
        Err(DecodeError::MalformedInteger)
    );
    assert_eq!(
        decode(b"i-9223372036854775809e"),
        Err(DecodeError::MalformedInteger)
    );
}

#[test]
fn test_malformed_length_no_colon() {
    assert_eq!(decode(b"123"), Err(DecodeError::MalformedLength));
}

#[test]
fn test_malformed_length_bad_digit() {
    assert_eq!(decode(b"1a:xx"), Err(DecodeError::MalformedLength));
}

#[test]
fn test_unknown_token() {
    assert_eq!(decode(b"x"), Err(DecodeError::UnknownToken));
}

#[test]
fn test_unknown_token_empty_input() {
    assert_eq!(decode(b""), Err(DecodeError::UnknownToken));
}

#[test]
fn test_unterminated_sequence() {
    assert_eq!(decode(b"l5:hello"), Err(DecodeError::UnterminatedSequence));
}

#[test]
fn test_unterminated_dict() {
    assert_eq!(decode(b"d3:foo3:bar"), Err(DecodeError::UnterminatedSequence));
}

#[test]
fn test_error_propagates_from_nested_value() {
    assert_eq!(decode(b"lixe"), Err(DecodeError::MalformedInteger));
    assert_eq!(decode(b"d3:foo10:are"), Err(DecodeError::TruncatedString));
}
