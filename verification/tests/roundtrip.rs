use bytes::{Bytes, BytesMut};
use mini_redis::protocol::{encode, parse, RespValue};

fn roundtrip(val: RespValue) {
    let bytes = encode(&val);
    let mut buf = BytesMut::from(&bytes[..]);
    buf.extend_from_slice(b"+next\r\n");
    let parsed = parse(&mut buf).expect("parse must succeed");
    assert_eq!(parsed, val);
    assert_eq!(&buf[..], b"+next\r\n", "exactly the encoding is consumed");
}

#[test]
fn roundtrip_leaves() {
    roundtrip(RespValue::SimpleString("hello world".into()));
    roundtrip(RespValue::SimpleString("".into()));
    roundtrip(RespValue::SimpleString("lone \r and lone \n".into()));
    roundtrip(RespValue::Error("ERR ünïcode ✓".into()));
    roundtrip(RespValue::Integer(i64::MIN));
    roundtrip(RespValue::Integer(i64::MAX));
    roundtrip(RespValue::BulkString(Some(Bytes::from_static(b"\r\n\x00\xff"))));
    roundtrip(RespValue::BulkString(None));
    roundtrip(RespValue::Array(None));
}

#[test]
fn roundtrip_nested() {
    roundtrip(RespValue::Array(Some(vec![
        RespValue::Integer(1),
        RespValue::Array(Some(vec![
            RespValue::BulkString(None),
            RespValue::Array(Some(vec![])),
            RespValue::Error("e".into()),
        ])),
        RespValue::Array(None),
    ])));
}

#[test]
fn text_with_crlf_does_not_roundtrip() {
    let bytes = encode(&RespValue::SimpleString("a\r\nb".into()));
    let mut buf = BytesMut::from(&bytes[..]);
    assert_eq!(parse(&mut buf).unwrap(), RespValue::SimpleString("a".into()));
}

#[test]
fn every_strict_prefix_is_incomplete() {
    let val = RespValue::Array(Some(vec![
        RespValue::BulkString(Some(Bytes::from_static(b"SET"))),
        RespValue::Integer(-42),
        RespValue::SimpleString("ok".into()),
        RespValue::BulkString(None),
    ]));
    let bytes = encode(&val);
    for n in 0..bytes.len() {
        let mut buf = BytesMut::from(&bytes[..n]);
        assert!(matches!(parse(&mut buf), Err(mini_redis::protocol::RespError::Incomplete)));
        assert_eq!(&buf[..], &bytes[..n], "nothing is consumed");
    }
}
