use redis_server::command::{execute, extract_command, handle, handle_at, unpack_bulk_string};
use redis_server::resp::{ProtocolError, Value};
use redis_server::store::RedisValueStore;

const MS: u64 = 1_000_000;

fn bulk(s: &[u8]) -> Value {
    Value::BulkString(s.to_vec())
}

fn request(parts: &[&[u8]]) -> Value {
    Value::Array(parts.iter().map(|p| bulk(p)).collect())
}

#[test]
fn ping_answers_pong() {
    let mut s = RedisValueStore::new();
    assert_eq!(handle(request(&[b"PING"]), &mut s), Ok(Value::SimpleString(b"PONG".to_vec())));
    assert_eq!(handle(request(&[b"ping"]), &mut s), Ok(Value::SimpleString(b"PONG".to_vec())));
}

#[test]
fn echo_returns_its_argument() {
    let mut s = RedisValueStore::new();
    assert_eq!(handle_at(request(&[b"ECHO", b"a\r\nb"]), &mut s, 0), Ok(bulk(b"a\r\nb")));
    assert!(matches!(handle_at(request(&[b"echo"]), &mut s, 0), Ok(Value::Error(_))));
}

#[test]
fn set_and_get() {
    let mut s = RedisValueStore::new();
    assert_eq!(handle_at(request(&[b"SET", b"k", b"v"]), &mut s, 0), Ok(Value::SimpleString(b"OK".to_vec())));
    assert_eq!(handle_at(request(&[b"GET", b"k"]), &mut s, 5), Ok(bulk(b"v")));
    assert_eq!(handle_at(request(&[b"GET", b"nope"]), &mut s, 5), Ok(Value::Null));
}

#[test]
fn set_with_px_expires() {
    let mut s = RedisValueStore::new();
    assert_eq!(
        handle_at(request(&[b"set", b"k", b"v", b"PX", b"100"]), &mut s, 0),
        Ok(Value::SimpleString(b"OK".to_vec()))
    );
    assert_eq!(handle_at(request(&[b"get", b"k"]), &mut s, 100 * MS), Ok(bulk(b"v")));
    assert_eq!(handle_at(request(&[b"get", b"k"]), &mut s, 100 * MS + 1), Ok(Value::Null));
}

#[test]
fn set_with_bad_arguments_is_an_error_reply() {
    let mut s = RedisValueStore::new();
    assert!(matches!(handle_at(request(&[b"SET", b"k"]), &mut s, 0), Ok(Value::Error(_))));
    assert!(matches!(handle_at(request(&[b"SET", b"k", b"v", b"px", b"ten"]), &mut s, 0), Ok(Value::Error(_))));
    assert!(matches!(handle_at(request(&[b"SET", b"k", b"v", b"ex", b"10"]), &mut s, 0), Ok(Value::Error(_))));
    assert!(matches!(
        handle_at(request(&[b"SET", b"k", b"v", b"px", b"99999999999999999999"]), &mut s, 0),
        Ok(Value::Error(_))
    ));
    assert_eq!(handle_at(request(&[b"GET", b"k"]), &mut s, 0), Ok(Value::Null));
    assert!(matches!(handle_at(request(&[b"GET"]), &mut s, 0), Ok(Value::Error(_))));
}

#[test]
fn unknown_command_then_ping() {
    let mut s = RedisValueStore::new();
    assert_eq!(
        handle_at(request(&[b"FOO"]), &mut s, 0),
        Ok(Value::Error(b"ERR unknown command FOO".to_vec()))
    );
    assert_eq!(handle_at(request(&[b"PING"]), &mut s, 1), Ok(Value::SimpleString(b"PONG".to_vec())));
}

#[test]
fn unknown_command_name_loses_its_terminators() {
    let mut s = RedisValueStore::new();
    assert_eq!(
        handle_at(request(&[b"F\r\nO"]), &mut s, 0),
        Ok(Value::Error(b"ERR unknown command FO".to_vec()))
    );
}

#[test]
fn malformed_requests_are_protocol_errors() {
    let mut s = RedisValueStore::new();
    assert_eq!(handle_at(bulk(b"PING"), &mut s, 0), Err(ProtocolError::MalformedRequest));
    assert_eq!(handle_at(Value::Array(vec![]), &mut s, 0), Err(ProtocolError::MalformedRequest));
    assert_eq!(
        handle_at(Value::Array(vec![Value::SimpleString(b"PING".to_vec())]), &mut s, 0),
        Err(ProtocolError::MalformedRequest)
    );
    assert_eq!(handle_at(Value::NullArray, &mut s, 0), Err(ProtocolError::MalformedRequest));
}

#[test]
fn extract_command_splits_name_and_arguments() {
    let (name, args) = extract_command(request(&[b"SET", b"k", b"v"])).unwrap();
    assert_eq!(name, b"SET".to_vec());
    assert_eq!(args, vec![bulk(b"k"), bulk(b"v")]);
    assert_eq!(extract_command(Value::Null), Err(ProtocolError::MalformedRequest));
}

#[test]
fn unpack_bulk_string_takes_only_strings() {
    assert_eq!(unpack_bulk_string(bulk(b"x")), Ok(b"x".to_vec()));
    assert_eq!(unpack_bulk_string(Value::Null), Err(ProtocolError::MalformedRequest));
}

#[test]
fn execute_runs_against_the_store() {
    let mut s = RedisValueStore::new();
    let args = vec![bulk(b"k"), bulk(b"v")];
    assert_eq!(execute(b"Set", &args, &mut s, 0), Value::SimpleString(b"OK".to_vec()));
    assert_eq!(s.get_at(b"k", 0), Some(b"v".to_vec()));
}

#[test]
fn echo_of_the_absent_string_echoes_it() {
    let mut s = RedisValueStore::new();
    let req = Value::Array(vec![bulk(b"ECHO"), Value::Null]);
    assert_eq!(handle_at(req, &mut s, 0), Ok(Value::Null));
    let req = Value::Array(vec![bulk(b"ECHO"), bulk(b"")]);
    assert_eq!(handle_at(req, &mut s, 0), Ok(bulk(b"")));
}

#[test]
fn wrong_argument_counts_get_error_replies() {
    let mut s = RedisValueStore::new();
    assert!(matches!(handle_at(request(&[b"PING", b"x"]), &mut s, 0), Ok(Value::Error(_))));
    assert!(matches!(handle_at(request(&[b"ECHO", b"a", b"b"]), &mut s, 0), Ok(Value::Error(_))));
    assert!(matches!(handle_at(request(&[b"GET", b"a", b"b"]), &mut s, 0), Ok(Value::Error(_))));
    assert!(matches!(handle_at(request(&[b"SET", b"k", b"v", b"x"]), &mut s, 0), Ok(Value::Error(_))));
    assert!(matches!(
        handle_at(request(&[b"SET", b"k", b"v", b"px", b"1", b"y"]), &mut s, 0),
        Ok(Value::Error(_))
    ));
    let req = Value::Array(vec![bulk(b"SET"), bulk(b"k"), bulk(b"v"), Value::Null, bulk(b"10")]);
    assert!(matches!(handle_at(req, &mut s, 0), Ok(Value::Error(_))));
    let req = Value::Array(vec![bulk(b"GET"), Value::Null]);
    assert!(matches!(handle_at(req, &mut s, 0), Ok(Value::Error(_))));
    assert!(!s.contains_key(b"k"));
}

#[test]
fn request_elements_must_all_be_strings() {
    let mut s = RedisValueStore::new();
    let req = Value::Array(vec![bulk(b"ECHO"), Value::SimpleString(b"x".to_vec())]);
    assert_eq!(handle_at(req, &mut s, 0), Err(ProtocolError::MalformedRequest));
    let req = Value::Array(vec![bulk(b"ECHO"), Value::Array(vec![])]);
    assert_eq!(handle_at(req, &mut s, 0), Err(ProtocolError::MalformedRequest));
    let req = Value::Array(vec![Value::Null]);
    assert_eq!(handle_at(req, &mut s, 0), Err(ProtocolError::MalformedRequest));
}
