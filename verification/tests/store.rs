use bytes::Bytes;
use mini_redis::command::{Command, SetCond, Ttl};
use mini_redis::protocol::RespValue;
use mini_redis::store::{glob_helper, glob_match, Entry, Store};

const NOW: u64 = 1_700_000_000;

fn b(s: &'static [u8]) -> Bytes {
    Bytes::from_static(s)
}

fn set(s: &mut Store, k: &'static [u8], v: &'static [u8]) -> RespValue {
    s.apply(
        &Command::SetKey { key: b(k), value: b(v), ttl: None, cond: SetCond::Always },
        NOW,
    )
}

#[test]
fn set_then_get() {
    let mut s = Store::new();
    set(&mut s, b"k", b"v");
    assert_eq!(s.apply(&Command::Get(b(b"k")), NOW), RespValue::BulkString(Some(b(b"v"))));
}

#[test]
fn get_missing_returns_null_bulk() {
    let mut s = Store::new();
    assert_eq!(s.apply(&Command::Get(b(b"nope")), NOW), RespValue::null_bulk());
}

#[test]
fn del_count() {
    let mut s = Store::new();
    set(&mut s, b"a", b"1");
    set(&mut s, b"b", b"2");
    assert_eq!(
        s.apply(&Command::Del(vec![b(b"a"), b(b"missing"), b(b"b")]), NOW),
        RespValue::Integer(2)
    );
}

#[test]
fn incr_creates_then_increments() {
    let mut s = Store::new();
    assert_eq!(s.apply(&Command::Incr(b(b"n")), NOW), RespValue::Integer(1));
    assert_eq!(s.apply(&Command::Incr(b(b"n")), NOW), RespValue::Integer(2));
    assert_eq!(s.apply(&Command::Decr(b(b"n")), NOW), RespValue::Integer(1));
}

#[test]
fn incr_on_non_integer_errors() {
    let mut s = Store::new();
    set(&mut s, b"k", b"abc");
    match s.apply(&Command::Incr(b(b"k")), NOW) {
        RespValue::Error(_) => {}
        other => panic!("expected error, got {:?}", other),
    }
}

#[test]
fn ttl_expires_value() {
    let mut s = Store::new();
    s.apply(
        &Command::SetKey { key: b(b"k"), value: b(b"v"), ttl: Some(Ttl::from_secs(1)), cond: SetCond::Always },
        NOW,
    );
    assert_eq!(s.apply(&Command::Get(b(b"k")), NOW), RespValue::BulkString(Some(b(b"v"))));
    assert_eq!(s.apply(&Command::Get(b(b"k")), NOW + 1), RespValue::null_bulk());
}

#[test]
fn nx_only_sets_if_absent() {
    let mut s = Store::new();
    let nx = |v: &'static [u8]| Command::SetKey { key: b(b"k"), value: b(v), ttl: None, cond: SetCond::IfAbsent };
    assert_eq!(s.apply(&nx(b"first"), NOW), RespValue::ok());
    assert_eq!(s.apply(&nx(b"second"), NOW), RespValue::null_bulk());
    assert_eq!(s.apply(&Command::Get(b(b"k")), NOW), RespValue::BulkString(Some(b(b"first"))));
}

#[test]
fn keys_glob_star() {
    let mut s = Store::new();
    for k in [b"user:1" as &'static [u8], b"user:2", b"order:9"] {
        set(&mut s, k, b"x");
    }
    match s.apply(&Command::Keys(b(b"user:*")), NOW) {
        RespValue::Array(Some(items)) => assert_eq!(items.len(), 2),
        other => panic!("expected array, got {:?}", other),
    }
}

// Further cases.

#[test]
fn xx_only_sets_if_present() {
    let mut s = Store::new();
    let xx = Command::SetKey { key: b(b"k"), value: b(b"v"), ttl: None, cond: SetCond::IfExists };
    assert_eq!(s.apply(&xx, NOW), RespValue::null_bulk());
    set(&mut s, b"k", b"old");
    assert_eq!(s.apply(&xx, NOW), RespValue::ok());
    assert_eq!(s.apply(&Command::Get(b(b"k")), NOW), RespValue::BulkString(Some(b(b"v"))));
}

#[test]
fn ping_echo_info_replicaof() {
    let mut s = Store::new();
    assert_eq!(s.apply(&Command::Ping(None), NOW), RespValue::SimpleString("PONG".into()));
    assert_eq!(s.apply(&Command::Ping(Some(b(b"hi"))), NOW), RespValue::BulkString(Some(b(b"hi"))));
    assert_eq!(s.apply(&Command::Echo(b(b"e")), NOW), RespValue::BulkString(Some(b(b"e"))));
    assert_eq!(
        s.apply(&Command::Info, NOW),
        RespValue::BulkString(Some(b(b"# Server\nrole:master\n")))
    );
    assert_eq!(s.apply(&Command::ReplicaOf(None), NOW), RespValue::ok());
}

#[test]
fn exists_counts_repeats() {
    let mut s = Store::new();
    set(&mut s, b"a", b"1");
    assert_eq!(
        s.apply(&Command::Exists(vec![b(b"a"), b(b"a"), b(b"z")]), NOW),
        RespValue::Integer(2)
    );
}

#[test]
fn expire_and_ttl() {
    let mut s = Store::new();
    assert_eq!(s.apply(&Command::Ttl(b(b"k")), NOW), RespValue::Integer(-2));
    set(&mut s, b"k", b"v");
    assert_eq!(s.apply(&Command::Ttl(b(b"k")), NOW), RespValue::Integer(-1));
    assert_eq!(s.apply(&Command::Expire { key: b(b"k"), ttl: Ttl::from_secs(100) }, NOW), RespValue::Integer(1));
    assert_eq!(s.apply(&Command::Ttl(b(b"k")), NOW + 40), RespValue::Integer(60));
    assert_eq!(s.apply(&Command::Ttl(b(b"k")), NOW + 100), RespValue::Integer(-2));
    assert_eq!(s.apply(&Command::Expire { key: b(b"k"), ttl: Ttl::from_secs(5) }, NOW + 100), RespValue::Integer(0));
    assert_eq!(s.apply(&Command::Expire { key: b(b"nope"), ttl: Ttl::from_secs(5) }, NOW), RespValue::Integer(0));
}

#[test]
fn del_of_expired_key_removes_without_counting() {
    let mut s = Store::new();
    s.apply(
        &Command::SetKey { key: b(b"k"), value: b(b"v"), ttl: Some(Ttl::from_secs(1)), cond: SetCond::Always },
        NOW,
    );
    assert_eq!(s.apply(&Command::Del(vec![b(b"k")]), NOW + 5), RespValue::Integer(0));
    // NX now succeeds: the key is gone, not just expired
    let nx = Command::SetKey { key: b(b"k"), value: b(b"w"), ttl: None, cond: SetCond::IfAbsent };
    assert_eq!(s.apply(&nx, NOW + 5), RespValue::ok());
}

#[test]
fn incr_errors_and_deadline_reset() {
    let mut s = Store::new();
    set(&mut s, b"max", b"9223372036854775807");
    assert_eq!(
        s.apply(&Command::Incr(b(b"max")), NOW),
        RespValue::Error("ERR increment would overflow".into())
    );
    set(&mut s, b"t", b"abc");
    assert_eq!(
        s.apply(&Command::Decr(b(b"t")), NOW),
        RespValue::Error("ERR value is not an integer or out of range".into())
    );
    s.apply(
        &Command::SetKey { key: b(b"c"), value: b(b"41"), ttl: Some(Ttl::from_secs(10)), cond: SetCond::Always },
        NOW,
    );
    assert_eq!(s.apply(&Command::Incr(b(b"c")), NOW), RespValue::Integer(42));
    assert_eq!(s.apply(&Command::Ttl(b(b"c")), NOW), RespValue::Integer(-1));
    assert_eq!(s.apply(&Command::Get(b(b"c")), NOW), RespValue::BulkString(Some(b(b"42"))));
}

#[test]
fn keys_lists_live_matching_keys_in_order() {
    let mut s = Store::new();
    set(&mut s, b"b", b"1");
    set(&mut s, b"a", b"1");
    s.apply(
        &Command::SetKey { key: b(b"ab"), value: b(b"1"), ttl: Some(Ttl::from_secs(1)), cond: SetCond::Always },
        NOW,
    );
    assert_eq!(
        s.apply(&Command::Keys(b(b"*")), NOW + 2),
        RespValue::Array(Some(vec![
            RespValue::BulkString(Some(b(b"b"))),
            RespValue::BulkString(Some(b(b"a"))),
        ]))
    );
}

#[test]
fn sweep_snapshot_load() {
    let mut s = Store::new();
    set(&mut s, b"keep", b"1");
    s.apply(
        &Command::SetKey { key: b(b"gone"), value: b(b"2"), ttl: Some(Ttl::from_secs(1)), cond: SetCond::Always },
        NOW,
    );
    s.sweep_expired(NOW + 1);
    let snap = s.snapshot();
    assert_eq!(snap.len(), 1);
    assert_eq!(snap[0].0, b(b"keep"));
    let mut t = Store::new();
    t.load(vec![
        (b(b"x"), Entry { value: b(b"1"), expires_at: None }),
        (b(b"x"), Entry { value: b(b"2"), expires_at: None }),
    ]);
    assert_eq!(t.apply(&Command::Get(b(b"x")), NOW), RespValue::BulkString(Some(b(b"2"))));
    assert_eq!(t.snapshot().len(), 1);
}

#[test]
fn entry_deadline() {
    let e = Entry::new(b(b"v"), Some(Ttl::from_secs(10)), 100);
    assert_eq!(e.expires_at, Some(110));
    assert!(!e.is_expired(109));
    assert!(e.is_expired(110));
    assert!(!Entry::new(b(b"v"), None, 100).is_expired(u64::MAX));
}

#[test]
fn fits_rejects_deadline_overflow() {
    let s = Store::new();
    let c = Command::SetKey { key: b(b"k"), value: b(b"v"), ttl: Some(Ttl::from_secs(u64::MAX)), cond: SetCond::Always };
    assert!(!s.fits(&c, 1));
    assert!(s.fits(&c, 0));
}

#[test]
fn glob_patterns() {
    assert!(glob_match("user:*", "user:1"));
    assert!(!glob_match("user:*", "order:9"));
    assert!(glob_match("h?llo", "hello"));
    assert!(glob_match("h[ae]llo", "hallo"));
    assert!(!glob_match("h[ae]llo", "hillo"));
    assert!(!glob_match("h[ae", "hallo"));
    assert!(glob_match("*", ""));
    assert!(glob_match("a*b*c", "axxbyyc"));
    assert!(!glob_match("a*b*c", "axxbyy"));
    assert!(glob_match("*", "*x"));
    assert!(glob_match("?", "*"));
    assert!(glob_match("[*]x", "*x"));
    assert!(!glob_match("[ab]", "["));
    assert!(glob_match("a*", "a"));
    assert!(glob_match("*a*", "bab"));
    assert!(!glob_match("*a*", "bbb"));
    assert!(glob_helper(b"*[xy]", b"aay"));
}

#[test]
fn del_counts_each_live_key_once() {
    let mut s = Store::new();
    set(&mut s, b"a", b"1");
    set(&mut s, b"b", b"2");
    s.apply(
        &Command::SetKey { key: b(b"old"), value: b(b"x"), ttl: Some(Ttl::from_secs(1)), cond: SetCond::Always },
        NOW - 10,
    );
    assert_eq!(
        s.apply(&Command::Del(vec![b(b"a"), b(b"a"), b(b"old"), b(b"b"), b(b"a")]), NOW),
        RespValue::Integer(2)
    );
    assert_eq!(s.apply(&Command::Exists(vec![b(b"a"), b(b"b"), b(b"old")]), NOW), RespValue::Integer(0));
}

#[test]
fn sub_second_ttl_outlives_its_start() {
    let mut s = Store::new();
    s.apply(
        &Command::SetKey { key: b(b"k"), value: b(b"v"), ttl: Some(Ttl::from_millis(500)), cond: SetCond::Always },
        NOW,
    );
    assert_eq!(s.apply(&Command::Get(b(b"k")), NOW), RespValue::BulkString(Some(b(b"v"))));
    assert_eq!(s.apply(&Command::Ttl(b(b"k")), NOW), RespValue::Integer(1));
    assert_eq!(s.apply(&Command::Get(b(b"k")), NOW + 1), RespValue::null_bulk());
    let e = Entry::new(b(b"v"), Some(Ttl::from_millis(1500)), NOW);
    assert_eq!(e.expires_at, Some(NOW + 1));
    assert!(!e.is_expired(NOW));
    assert!(e.is_expired(NOW + 1));
    assert_eq!(Entry::new(b(b"v"), Some(Ttl::from_millis(999)), NOW).expires_at, Some(NOW + 1));
    assert_eq!(Entry::new(b(b"v"), Some(Ttl::from_millis(0)), NOW).expires_at, Some(NOW));
}

#[test]
fn set_nx_treats_expired_key_as_absent() {
    let mut s = Store::new();
    s.apply(
        &Command::SetKey { key: b(b"k"), value: b(b"old"), ttl: Some(Ttl::from_secs(1)), cond: SetCond::Always },
        NOW - 10,
    );
    assert_eq!(
        s.apply(&Command::SetKey { key: b(b"k"), value: b(b"new"), ttl: None, cond: SetCond::IfAbsent }, NOW),
        RespValue::ok()
    );
    assert_eq!(s.apply(&Command::Get(b(b"k")), NOW), RespValue::BulkString(Some(b(b"new"))));
    assert_eq!(s.apply(&Command::Ttl(b(b"k")), NOW), RespValue::Integer(-1));
    s.apply(
        &Command::SetKey { key: b(b"gone"), value: b(b"x"), ttl: Some(Ttl::from_secs(1)), cond: SetCond::Always },
        NOW - 10,
    );
    assert_eq!(
        s.apply(&Command::SetKey { key: b(b"gone"), value: b(b"y"), ttl: None, cond: SetCond::IfExists }, NOW),
        RespValue::null_bulk()
    );
}
