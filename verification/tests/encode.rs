use bytes::Bytes;
use mini_redis::protocol::{encode, RespValue};

#[test]
fn encodes_simple_string() {
    let out = encode(&RespValue::SimpleString("OK".into()));
    assert_eq!(&out[..], b"+OK\r\n");
}

#[test]
fn encodes_error() {
    let out = encode(&RespValue::Error("ERR something".into()));
    assert_eq!(&out[..], b"-ERR something\r\n");
}

#[test]
fn encodes_integer() {
    let out = encode(&RespValue::Integer(42));
    assert_eq!(&out[..], b":42\r\n");
}

#[test]
fn encodes_negative_integer() {
    let out = encode(&RespValue::Integer(-7));
    assert_eq!(&out[..], b":-7\r\n");
}

#[test]
fn encodes_bulk_string() {
    let out = encode(&RespValue::BulkString(Some(Bytes::from_static(b"hello"))));
    assert_eq!(&out[..], b"$5\r\nhello\r\n");
}

#[test]
fn encodes_empty_bulk_string() {
    let out = encode(&RespValue::BulkString(Some(Bytes::new())));
    assert_eq!(&out[..], b"$0\r\n\r\n");
}

#[test]
fn encodes_null_bulk_string() {
    let out = encode(&RespValue::BulkString(None));
    assert_eq!(&out[..], b"$-1\r\n");
}

#[test]
fn encodes_array() {
    let out = encode(&RespValue::Array(Some(vec![
        RespValue::BulkString(Some(Bytes::from_static(b"GET"))),
        RespValue::BulkString(Some(Bytes::from_static(b"foo"))),
    ])));
    assert_eq!(&out[..], b"*2\r\n$3\r\nGET\r\n$3\r\nfoo\r\n");
}

#[test]
fn encodes_empty_array() {
    let out = encode(&RespValue::Array(Some(vec![])));
    assert_eq!(&out[..], b"*0\r\n");
}

#[test]
fn encodes_null_array() {
    let out = encode(&RespValue::Array(None));
    assert_eq!(&out[..], b"*-1\r\n");
}

#[test]
fn encodes_nested_array() {
    let out = encode(&RespValue::Array(Some(vec![
        RespValue::Integer(1),
        RespValue::Array(Some(vec![RespValue::Integer(2)])),
    ])));
    assert_eq!(&out[..], b"*2\r\n:1\r\n*1\r\n:2\r\n");
}

// Further cases.

#[test]
fn encodes_extreme_integers() {
    assert_eq!(&encode(&RespValue::Integer(i64::MIN))[..], b":-9223372036854775808\r\n");
    assert_eq!(&encode(&RespValue::Integer(i64::MAX))[..], b":9223372036854775807\r\n");
    assert_eq!(&encode(&RespValue::Integer(0))[..], b":0\r\n");
}

#[test]
fn encodes_utf8_text_as_its_bytes() {
    let out = encode(&RespValue::SimpleString("héllo".into()));
    assert_eq!(&out[..], "+héllo\r\n".as_bytes());
}

#[test]
fn value_helpers() {
    assert_eq!(RespValue::ok(), RespValue::SimpleString("OK".into()));
    assert_eq!(RespValue::null_bulk(), RespValue::BulkString(None));
    assert_eq!(RespValue::error("ERR x".to_string()), RespValue::Error("ERR x".into()));
    let v = RespValue::Array(Some(vec![RespValue::Integer(3)]));
    assert_eq!(v.clone(), v);
}
