use bencode::{decode, decode_sequence, decode_value, Value, DEFAULT_MAX_DEPTH};

fn bytes(s: &str) -> Vec<u8> {
    s.as_bytes().to_vec()
}

fn bs(s: &str) -> Value {
    Value::ByteString(bytes(s))
}

#[test]
fn test_decode_int() {
    let decoded = decode(b"i123e").unwrap();
    assert_eq!(decoded, Value::Integer(123));
}

#[test]
fn test_decode_byte_string() {
    let decoded = decode(b"4:spam").unwrap();
    assert_eq!(decoded, bs("spam"));
}

#[test]
fn test_decode_list() {
    let decoded = decode(b"l5:helloi52e2:hil1:bed4:test2:okee").unwrap();
    assert_eq!(
        decoded,
        Value::List(vec![
            bs("hello"),
            Value::Integer(52),
            bs("hi"),
            Value::List(vec![bs("b")]),
            Value::Dictionary(vec![(bytes("test"), bs("ok"))]),
        ])
    );
}

#[test]
fn test_decode_dict() {
    let decoded = decode(b"d3:foo3:bar5:helloi52e2:nod2:hi2:byee").unwrap();
    assert_eq!(
        decoded,
        Value::Dictionary(vec![
            (bytes("foo"), bs("bar")),
            (bytes("hello"), Value::Integer(52)),
            (bytes("no"), Value::Dictionary(vec![(bytes("hi"), bs("by"))])),
        ])
    );
}

#[test]
fn test_decode_empty_list() {
    assert_eq!(decode(b"le"), Ok(Value::List(vec![])));
}

#[test]
fn test_decode_empty_dict() {
    assert_eq!(decode(b"de"), Ok(Value::Dictionary(vec![])));
}

#[test]
fn test_decode_zero() {
    assert_eq!(decode(b"i0e"), Ok(Value::Integer(0)));
}

#[test]
fn test_decode_negative() {
    assert_eq!(decode(b"i-42e"), Ok(Value::Integer(-42)));
}

#[test]
fn test_decode_negative_zero() {
    assert_eq!(decode(b"i-0e"), Ok(Value::Integer(0)));
}

#[test]
fn test_decode_leading_zeros() {
    assert_eq!(decode(b"i007e"), Ok(Value::Integer(7)));
}

#[test]
fn test_decode_i64_max() {
    assert_eq!(
        decode(b"i9223372036854775807e"),
        Ok(Value::Integer(i64::MAX))
    );
}

#[test]
fn test_decode_i64_min() {
    assert_eq!(
        decode(b"i-9223372036854775808e"),
        Ok(Value::Integer(i64::MIN))
    );
}

#[test]
fn test_decode_empty_byte_string() {
    assert_eq!(decode(b"0:"), Ok(Value::ByteString(vec![])));
}

#[test]
fn test_decode_padded_length_prefix() {
    assert_eq!(decode(b"03:abc"), Ok(bs("abc")));
}

#[test]
fn test_integer_remainder_position() {
    assert_eq!(
        decode_value(b"i1exyz", DEFAULT_MAX_DEPTH),
        Ok((Value::Integer(1), 3))
    );
}

#[test]
fn test_byte_string_remainder_position() {
    assert_eq!(
        decode_value(b"4:spamrest", DEFAULT_MAX_DEPTH),
        Ok((bs("spam"), 6))
    );
}

#[test]
fn test_trailing_input_discarded() {
    assert_eq!(decode(b"lei9e"), Ok(Value::List(vec![])));
}

#[test]
fn test_decode_sequence_flat() {
    assert_eq!(
        decode_sequence(b"i1e2:abe", DEFAULT_MAX_DEPTH),
        Ok((vec![Value::Integer(1), bs("ab")], 8))
    );
}

#[test]
fn test_decode_sequence_consumes_terminator() {
    assert_eq!(
        decode_sequence(b"exyz", DEFAULT_MAX_DEPTH),
        Ok((vec![], 1))
    );
}

#[test]
fn test_duplicate_keys_kept_in_order() {
    assert_eq!(
        decode(b"d1:ai1e1:ai2ee"),
        Ok(Value::Dictionary(vec![
            (bytes("a"), Value::Integer(1)),
            (bytes("a"), Value::Integer(2)),
        ]))
    );
}

#[test]
fn test_nesting_within_budget() {
    assert_eq!(
        decode_value(b"llee", 2),
        Ok((Value::List(vec![Value::List(vec![])]), 4))
    );
}

#[test]
fn test_sequence_positions_partition_input() {
    // each consumed count plus the remainder's length is the input's length
    let input = b"l5:helloi52e2:hil1:bed4:test2:okee";
    let (_, end) = decode_value(input, DEFAULT_MAX_DEPTH).unwrap();
    assert_eq!(end, input.len());
    let body = &input[1..];
    let (elems, used) = decode_sequence(body, DEFAULT_MAX_DEPTH).unwrap();
    assert_eq!(elems.len(), 5);
    assert_eq!(used + (body.len() - used), body.len());
    assert_eq!(used, body.len());
}
