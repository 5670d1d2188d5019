use bytes::BytesMut;
use mini_redis::conn::{handle_buffered, ConnStep};
use mini_redis::store::Store;

fn reply(step: ConnStep) -> Vec<u8> {
    match step {
        ConnStep::Reply(b) => b.to_vec(),
        ConnStep::ReadMore => panic!("expected a reply, got ReadMore"),
        ConnStep::OutOfRange => panic!("expected a reply, got OutOfRange"),
    }
}

#[test]
fn conn_runs_commands_in_order() {
    let mut store = Store::new();
    let mut buf = BytesMut::from(&b"*3\r\n$3\r\nSET\r\n$3\r\nfoo\r\n$3\r\nbar\r\n*2\r\n$3\r\nGET\r\n$3\r\nfoo\r\n"[..]);
    assert_eq!(reply(handle_buffered(&mut buf, &mut store, 10, false)), b"+OK\r\n");
    assert_eq!(reply(handle_buffered(&mut buf, &mut store, 10, false)), b"$3\r\nbar\r\n");
    assert!(buf.is_empty());
    assert!(matches!(handle_buffered(&mut buf, &mut store, 10, false), ConnStep::ReadMore));
}

#[test]
fn conn_waits_for_whole_frame() {
    let mut store = Store::new();
    let mut buf = BytesMut::from(&b"*1\r\n$4\r\nPI"[..]);
    assert!(matches!(handle_buffered(&mut buf, &mut store, 10, false), ConnStep::ReadMore));
    assert_eq!(&buf[..], b"*1\r\n$4\r\nPI");
    buf.extend_from_slice(b"NG\r\n");
    assert_eq!(reply(handle_buffered(&mut buf, &mut store, 10, false)), b"+PONG\r\n");
}

#[test]
fn conn_reports_command_errors() {
    let mut store = Store::new();
    let mut buf = BytesMut::from(&b"*1\r\n$4\r\nNOPE\r\n"[..]);
    assert_eq!(reply(handle_buffered(&mut buf, &mut store, 10, false)), b"-ERR unknown command 'NOPE'\r\n");
    let mut buf = BytesMut::from(&b":1\r\n"[..]);
    assert_eq!(
        reply(handle_buffered(&mut buf, &mut store, 10, false)),
        b"-ERR expected command as RESP array of bulk strings\r\n"
    );
}

#[test]
fn conn_drops_buffer_on_malformed_frame() {
    let mut store = Store::new();
    let mut buf = BytesMut::from(&b"@bad\r\n*1\r\n$4\r\nPING\r\n"[..]);
    assert_eq!(
        reply(handle_buffered(&mut buf, &mut store, 10, false)),
        b"-ERR malformed RESP: unknown type tag\r\n"
    );
    assert!(buf.is_empty());
}

#[test]
fn conn_refuses_out_of_range_deadline() {
    let mut store = Store::new();
    let mut buf = BytesMut::from(&b"*5\r\n$3\r\nSET\r\n$1\r\nk\r\n$1\r\nv\r\n$2\r\nEX\r\n$19\r\n9223372036854775807\r\n"[..]);
    assert!(matches!(handle_buffered(&mut buf, &mut store, u64::MAX - 5, false), ConnStep::OutOfRange));
}

#[test]
fn replica_refuses_writes_and_serves_reads() {
    let mut store = Store::new();
    let mut buf = BytesMut::from(&b"*3\r\n$3\r\nSET\r\n$8\r\nrejected\r\n$1\r\nx\r\n*2\r\n$3\r\nGET\r\n$8\r\nrejected\r\n*1\r\n$4\r\nPING\r\n"[..]);
    assert_eq!(
        reply(handle_buffered(&mut buf, &mut store, 10, true)),
        b"-READONLY You can't write against a read only replica.\r\n"
    );
    assert_eq!(reply(handle_buffered(&mut buf, &mut store, 10, true)), b"$-1\r\n");
    assert_eq!(reply(handle_buffered(&mut buf, &mut store, 10, true)), b"+PONG\r\n");
    assert!(matches!(handle_buffered(&mut buf, &mut store, 10, true), ConnStep::ReadMore));
}
