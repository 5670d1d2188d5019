use bytes::{Bytes, BytesMut};
use mini_redis::protocol::{parse, RespError, RespValue};

fn buf(s: &[u8]) -> BytesMut {
    BytesMut::from(s)
}

#[test]
fn parses_simple_string() {
    let mut b = buf(b"+OK\r\n");
    assert_eq!(parse(&mut b).unwrap(), RespValue::SimpleString("OK".into()));
    assert!(b.is_empty());
}

#[test]
fn parses_error() {
    let mut b = buf(b"-ERR boom\r\n");
    assert_eq!(parse(&mut b).unwrap(), RespValue::Error("ERR boom".into()));
}

#[test]
fn parses_integer() {
    let mut b = buf(b":42\r\n");
    assert_eq!(parse(&mut b).unwrap(), RespValue::Integer(42));
}

#[test]
fn parses_negative_integer() {
    let mut b = buf(b":-7\r\n");
    assert_eq!(parse(&mut b).unwrap(), RespValue::Integer(-7));
}

#[test]
fn parses_bulk_string() {
    let mut b = buf(b"$5\r\nhello\r\n");
    assert_eq!(
        parse(&mut b).unwrap(),
        RespValue::BulkString(Some(Bytes::from_static(b"hello")))
    );
}

#[test]
fn parses_empty_bulk_string() {
    let mut b = buf(b"$0\r\n\r\n");
    assert_eq!(
        parse(&mut b).unwrap(),
        RespValue::BulkString(Some(Bytes::new()))
    );
}

#[test]
fn parses_null_bulk_string() {
    let mut b = buf(b"$-1\r\n");
    assert_eq!(parse(&mut b).unwrap(), RespValue::BulkString(None));
}

#[test]
fn parses_array() {
    let mut b = buf(b"*2\r\n$3\r\nGET\r\n$3\r\nfoo\r\n");
    assert_eq!(
        parse(&mut b).unwrap(),
        RespValue::Array(Some(vec![
            RespValue::BulkString(Some(Bytes::from_static(b"GET"))),
            RespValue::BulkString(Some(Bytes::from_static(b"foo"))),
        ]))
    );
}

#[test]
fn parses_empty_array() {
    let mut b = buf(b"*0\r\n");
    assert_eq!(parse(&mut b).unwrap(), RespValue::Array(Some(vec![])));
}

#[test]
fn parses_null_array() {
    let mut b = buf(b"*-1\r\n");
    assert_eq!(parse(&mut b).unwrap(), RespValue::Array(None));
}

#[test]
fn incomplete_returns_incomplete_error() {
    let mut b = buf(b"$5\r\nhel");
    assert!(matches!(parse(&mut b), Err(RespError::Incomplete)));
}

#[test]
fn malformed_returns_malformed_error() {
    let mut b = buf(b"@not-resp\r\n");
    assert!(matches!(parse(&mut b), Err(RespError::Malformed(_))));
}

#[test]
fn parses_binary_safe_bulk_with_crlf_inside() {
    let mut b = buf(b"$8\r\nfoo\r\nbar\r\n");
    assert_eq!(
        parse(&mut b).unwrap(),
        RespValue::BulkString(Some(Bytes::from_static(b"foo\r\nbar")))
    );
}

// Further cases: errors, their messages and the buffer left behind.

#[test]
fn incomplete_leaves_buffer_unchanged() {
    let mut b = buf(b"*2\r\n$3\r\nGET\r\n");
    assert!(matches!(parse(&mut b), Err(RespError::Incomplete)));
    assert_eq!(&b[..], b"*2\r\n$3\r\nGET\r\n");
}

#[test]
fn empty_buffer_is_incomplete() {
    let mut b = buf(b"");
    assert!(matches!(parse(&mut b), Err(RespError::Incomplete)));
}

#[test]
fn leaves_following_frames_in_buffer() {
    let mut b = buf(b":1\r\n:2\r\n");
    assert_eq!(parse(&mut b).unwrap(), RespValue::Integer(1));
    assert_eq!(&b[..], b":2\r\n");
    assert_eq!(parse(&mut b).unwrap(), RespValue::Integer(2));
    assert!(b.is_empty());
}

#[test]
fn integer_out_of_range_is_integer_overflow() {
    let mut b = buf(b":9223372036854775808\r\n");
    assert!(matches!(parse(&mut b), Err(RespError::IntegerOverflow)));
    let mut b = buf(b":-9223372036854775808\r\n");
    assert_eq!(parse(&mut b).unwrap(), RespValue::Integer(i64::MIN));
    let mut b = buf(b":+5\r\n");
    assert_eq!(parse(&mut b).unwrap(), RespValue::Integer(5));
    let mut b = buf(b":abc\r\n");
    assert!(matches!(parse(&mut b), Err(RespError::IntegerOverflow)));
}

#[test]
fn bad_lengths_are_malformed() {
    let mut b = buf(b"$x\r\nabc\r\n");
    match parse(&mut b) {
        Err(RespError::Malformed(m)) => assert_eq!(m, "bulk length"),
        other => panic!("unexpected {:?}", other),
    }
    let mut b = buf(b"*-\r\n");
    match parse(&mut b) {
        Err(RespError::Malformed(m)) => assert_eq!(m, "array length"),
        other => panic!("unexpected {:?}", other),
    }
    let mut b = buf(b"$3\r\nabcXY");
    match parse(&mut b) {
        Err(RespError::Malformed(m)) => assert_eq!(m, "missing CRLF after bulk"),
        other => panic!("unexpected {:?}", other),
    }
}

#[test]
fn invalid_utf8_line_is_utf8_error() {
    let mut b = buf(b"+\xff\xfe\r\n");
    assert!(matches!(parse(&mut b), Err(RespError::Utf8)));
}

#[test]
fn error_messages_match_display() {
    assert_eq!(RespError::Incomplete.message(), "incomplete frame (need more bytes)");
    assert_eq!(RespError::Malformed("bulk length").message(), "malformed RESP: bulk length");
    assert_eq!(RespError::Utf8.message(), "invalid UTF-8 in simple string or error");
    assert_eq!(RespError::IntegerOverflow.message(), "integer out of range");
}
