use redis_server::resp::{decode, decode_at_end, encode, ProtocolError, Value};

fn bulk(s: &[u8]) -> Value {
    Value::BulkString(s.to_vec())
}

fn round_trip(v: &Value) -> Value {
    let bytes = encode(v);
    match decode(&bytes) {
        Ok(Some((back, n))) => {
            assert_eq!(n, bytes.len());
            back
        }
        other => panic!("decode failed: {:?}", other),
    }
}

#[test]
fn encodes_simple_string() {
    assert_eq!(encode(&Value::SimpleString(b"OK".to_vec())), b"+OK\r\n".to_vec());
}

#[test]
fn encodes_error() {
    assert_eq!(encode(&Value::Error(b"ERR x".to_vec())), b"-ERR x\r\n".to_vec());
}

#[test]
fn encodes_bulk_string() {
    assert_eq!(encode(&bulk(b"hello")), b"$5\r\nhello\r\n".to_vec());
    assert_eq!(encode(&bulk(b"")), b"$0\r\n\r\n".to_vec());
}

#[test]
fn encodes_nulls() {
    assert_eq!(encode(&Value::Null), b"$-1\r\n".to_vec());
    assert_eq!(encode(&Value::NullArray), b"*-1\r\n".to_vec());
}

#[test]
fn encodes_array() {
    let v = Value::Array(vec![bulk(b"ECHO"), bulk(b"hey")]);
    assert_eq!(encode(&v), b"*2\r\n$4\r\nECHO\r\n$3\r\nhey\r\n".to_vec());
    assert_eq!(encode(&Value::Array(vec![])), b"*0\r\n".to_vec());
}

#[test]
fn encodes_long_length_prefix() {
    let payload = vec![b'a'; 1234];
    let bytes = encode(&Value::BulkString(payload));
    assert_eq!(&bytes[..7], b"$1234\r\n");
    assert_eq!(bytes.len(), 7 + 1234 + 2);
}

#[test]
fn decodes_request() {
    let r = decode(b"*2\r\n$4\r\nECHO\r\n$3\r\nhey\r\n");
    assert_eq!(r, Ok(Some((Value::Array(vec![bulk(b"ECHO"), bulk(b"hey")]), 23))));
}

#[test]
fn decodes_and_reports_length_used() {
    let r = decode(b"+PONG\r\n+NEXT\r\n");
    assert_eq!(r, Ok(Some((Value::SimpleString(b"PONG".to_vec()), 7))));
}

#[test]
fn round_trip_keeps_every_kind() {
    let cases = vec![
        Value::SimpleString(b"OK".to_vec()),
        Value::SimpleString(vec![]),
        Value::Error(b"ERR bad".to_vec()),
        bulk(b"hello"),
        bulk(b""),
        Value::Null,
        Value::NullArray,
        Value::Array(vec![]),
        Value::Array(vec![bulk(b"a"), Value::Null, Value::Array(vec![Value::NullArray, bulk(b"")])]),
    ];
    for c in cases.iter() {
        assert_eq!(&round_trip(c), c);
    }
}

#[test]
fn null_empty_string_and_empty_array_stay_apart() {
    assert_eq!(round_trip(&Value::Null), Value::Null);
    assert_eq!(round_trip(&bulk(b"")), bulk(b""));
    assert_eq!(round_trip(&Value::Array(vec![])), Value::Array(vec![]));
    assert_eq!(round_trip(&Value::NullArray), Value::NullArray);
    assert_ne!(encode(&Value::Null), encode(&bulk(b"")));
}

#[test]
fn bulk_payload_with_crlf_is_binary_safe() {
    let payload = b"a\r\nb\r\n\x00\xff".to_vec();
    let bytes = encode(&Value::BulkString(payload.clone()));
    assert_eq!(bytes, b"$8\r\na\r\nb\r\n\x00\xff\r\n".to_vec());
    let back = decode(&bytes);
    assert_eq!(back, Ok(Some((Value::BulkString(payload.clone()), bytes.len()))));
    assert_eq!(encode(&back.unwrap().unwrap().0), bytes);
}

#[test]
fn incomplete_input_asks_for_more() {
    assert_eq!(decode(b""), Ok(None));
    assert_eq!(decode(b"*2\r\n$4\r\nECHO\r\n"), Ok(None));
    assert_eq!(decode(b"$5\r\nhel"), Ok(None));
    assert_eq!(decode(b"+OK\r"), Ok(None));
}

#[test]
fn end_of_input_before_a_message_is_orderly() {
    assert_eq!(decode_at_end(b""), Ok(None));
}

#[test]
fn end_of_input_inside_a_message_is_an_error() {
    assert_eq!(decode_at_end(b"*1\r\n"), Err(ProtocolError::Truncated));
    assert_eq!(decode_at_end(b"$3\r\nab"), Err(ProtocolError::Truncated));
    assert_eq!(decode_at_end(b"+OK\r\n"), Ok(Some((Value::SimpleString(b"OK".to_vec()), 5))));
}

#[test]
fn unknown_tag_is_an_error() {
    assert_eq!(decode(b"!x\r\n"), Err(ProtocolError::UnknownTag));
}

#[test]
fn bad_length_prefixes_are_errors() {
    assert_eq!(decode(b"$abc\r\n"), Err(ProtocolError::BadLength));
    assert_eq!(decode(b"$-2\r\n"), Err(ProtocolError::BadLength));
    assert_eq!(decode(b"*\r\n"), Err(ProtocolError::BadLength));
    assert_eq!(decode(b"$1234567890123456789\r\n"), Err(ProtocolError::BadLength));
}

#[test]
fn bad_line_endings_are_errors() {
    assert_eq!(decode(b"+OK\rX"), Err(ProtocolError::BadLineEnding));
    assert_eq!(decode(b"+O\nK\r\n"), Err(ProtocolError::BadLineEnding));
    assert_eq!(decode(b"$2\r\nabcd\r\n"), Err(ProtocolError::BadLineEnding));
}

#[test]
fn nesting_past_the_limit_is_an_error() {
    let mut deep = Vec::new();
    for _ in 0..33 {
        deep.extend_from_slice(b"*1\r\n");
    }
    deep.extend_from_slice(b"$-1\r\n");
    assert_eq!(decode(&deep), Err(ProtocolError::TooDeep));
    let ok = &deep[4..];
    assert!(matches!(decode(ok), Ok(Some(_))));
}
