use bytes::Bytes;
use mini_redis::command::{parse_command, parse_i64, Command, CommandError, SetCond, Ttl};
use mini_redis::protocol::RespValue;

fn arr(items: &[&[u8]]) -> RespValue {
    RespValue::Array(Some(
        items
            .iter()
            .map(|b| RespValue::BulkString(Some(Bytes::copy_from_slice(b))))
            .collect(),
    ))
}

#[test]
fn parses_ping_no_arg() {
    assert_eq!(parse_command(arr(&[b"PING"])).unwrap(), Command::Ping(None));
}

#[test]
fn parses_get() {
    assert_eq!(
        parse_command(arr(&[b"GET", b"foo"])).unwrap(),
        Command::Get(Bytes::from_static(b"foo"))
    );
}

#[test]
fn parses_set_basic() {
    let cmd = parse_command(arr(&[b"SET", b"k", b"v"])).unwrap();
    assert_eq!(
        cmd,
        Command::SetKey {
            key: Bytes::from_static(b"k"),
            value: Bytes::from_static(b"v"),
            ttl: None,
            cond: SetCond::Always,
        }
    );
}

#[test]
fn parses_set_with_ex_and_nx() {
    let cmd = parse_command(arr(&[b"SET", b"k", b"v", b"EX", b"10", b"NX"])).unwrap();
    assert_eq!(
        cmd,
        Command::SetKey {
            key: Bytes::from_static(b"k"),
            value: Bytes::from_static(b"v"),
            ttl: Some(Ttl::from_secs(10)),
            cond: SetCond::IfAbsent,
        }
    );
}

#[test]
fn unknown_command_errors() {
    assert!(parse_command(arr(&[b"NOPE"])).is_err());
}

#[test]
fn case_insensitive_command_names() {
    assert_eq!(parse_command(arr(&[b"ping"])).unwrap(), Command::Ping(None));
    assert_eq!(parse_command(arr(&[b"PiNg"])).unwrap(), Command::Ping(None));
}

// Further cases: each command, each error, and the error texts.

fn err_text(v: RespValue) -> String {
    parse_command(v).unwrap_err().message()
}

#[test]
fn parses_each_command() {
    assert_eq!(
        parse_command(arr(&[b"ping", b"hi"])).unwrap(),
        Command::Ping(Some(Bytes::from_static(b"hi")))
    );
    assert_eq!(parse_command(arr(&[b"echo", b"x"])).unwrap(), Command::Echo(Bytes::from_static(b"x")));
    assert_eq!(
        parse_command(arr(&[b"DEL", b"a", b"b"])).unwrap(),
        Command::Del(vec![Bytes::from_static(b"a"), Bytes::from_static(b"b")])
    );
    assert_eq!(
        parse_command(arr(&[b"exists", b"a"])).unwrap(),
        Command::Exists(vec![Bytes::from_static(b"a")])
    );
    assert_eq!(parse_command(arr(&[b"incr", b"n"])).unwrap(), Command::Incr(Bytes::from_static(b"n")));
    assert_eq!(parse_command(arr(&[b"decr", b"n"])).unwrap(), Command::Decr(Bytes::from_static(b"n")));
    assert_eq!(
        parse_command(arr(&[b"expire", b"k", b"0"])).unwrap(),
        Command::Expire { key: Bytes::from_static(b"k"), ttl: Ttl::from_secs(0) }
    );
    assert_eq!(parse_command(arr(&[b"ttl", b"k"])).unwrap(), Command::Ttl(Bytes::from_static(b"k")));
    assert_eq!(parse_command(arr(&[b"keys", b"*"])).unwrap(), Command::Keys(Bytes::from_static(b"*")));
    assert_eq!(parse_command(arr(&[b"info", b"anything"])).unwrap(), Command::Info);
    assert_eq!(parse_command(arr(&[b"replicaof", b"no", b"One"])).unwrap(), Command::ReplicaOf(None));
    assert_eq!(
        parse_command(arr(&[b"REPLICAOF", b"127.0.0.1", b"6390"])).unwrap(),
        Command::ReplicaOf(Some(("127.0.0.1".to_string(), 6390)))
    );
}

#[test]
fn parses_set_options() {
    assert_eq!(
        parse_command(arr(&[b"set", b"k", b"v", b"px", b"1500", b"xx"])).unwrap(),
        Command::SetKey {
            key: Bytes::from_static(b"k"),
            value: Bytes::from_static(b"v"),
            ttl: Some(Ttl::from_millis(1500)),
            cond: SetCond::IfExists,
        }
    );
    assert_eq!(Ttl::from_millis(1500).as_secs(), 1);
    assert_eq!(err_text(arr(&[b"SET", b"k", b"v", b"EX"])), "wrong number of arguments for 'SET'");
    assert_eq!(err_text(arr(&[b"SET", b"k", b"v", b"EX", b"0"])), "invalid argument: EX must be > 0");
    assert_eq!(err_text(arr(&[b"SET", b"k", b"v", b"PX", b"-1"])), "invalid argument: PX must be > 0");
    assert_eq!(err_text(arr(&[b"SET", b"k", b"v", b"EX", b"ten"])), "value is not an integer or out of range");
    assert_eq!(err_text(arr(&[b"SET", b"k", b"v", b"KEEPTTL"])), "invalid argument: unknown SET option");
    assert_eq!(err_text(arr(&[b"SET", b"k", b"v", b"\xff"])), "invalid argument: SET option");
    assert_eq!(err_text(arr(&[b"SET", b"k"])), "wrong number of arguments for 'SET'");
}

#[test]
fn command_errors() {
    assert_eq!(err_text(arr(&[b"nope"])), "unknown command 'NOPE'");
    assert_eq!(err_text(arr(&[b"GET"])), "wrong number of arguments for 'GET'");
    assert_eq!(err_text(arr(&[b"PING", b"a", b"b"])), "wrong number of arguments for 'PING'");
    assert_eq!(err_text(arr(&[b"DEL"])), "wrong number of arguments for 'DEL'");
    assert_eq!(err_text(arr(&[b"EXPIRE", b"k", b"-1"])), "invalid argument: seconds must be >= 0");
    assert_eq!(err_text(arr(&[b"REPLICAOF", b"h", b"70000"])), "invalid argument: port not u16");
    assert_eq!(err_text(arr(&[b"REPLICAOF", b"\xff", b"1"])), "invalid argument: host");
    assert_eq!(err_text(arr(&[])), "expected command as RESP array of bulk strings");
    assert!(matches!(parse_command(RespValue::Integer(1)), Err(CommandError::BadFraming)));
    assert!(matches!(
        parse_command(RespValue::Array(Some(vec![RespValue::Integer(1)]))),
        Err(CommandError::BadFraming)
    ));
    assert!(matches!(parse_command(arr(&[b"\xff"])), Err(CommandError::BadFraming)));
}

#[test]
fn parse_i64_reads_decimal() {
    assert_eq!(parse_i64(b"-12").unwrap(), -12);
    assert_eq!(parse_i64(b"+7").unwrap(), 7);
    assert!(matches!(parse_i64(b""), Err(CommandError::NotInteger)));
    assert!(matches!(parse_i64(b"-"), Err(CommandError::NotInteger)));
    assert!(matches!(parse_i64(b"1 "), Err(CommandError::NotInteger)));
    assert!(matches!(parse_i64(b"9223372036854775808"), Err(CommandError::NotInteger)));
}
