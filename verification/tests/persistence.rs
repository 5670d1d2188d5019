use bytes::Bytes;
use mini_redis::command::{Command, SetCond, Ttl};
use mini_redis::persistence::{frame, split_frames, WalRecord};
use mini_redis::protocol::RespValue;
use mini_redis::store::Store;

#[test]
fn records_of_mutating_commands() {
    let k = Bytes::from_static(b"k");
    assert_eq!(
        WalRecord::from_command(&Command::SetKey {
            key: k.clone(),
            value: Bytes::from_static(b"v"),
            ttl: Some(Ttl::from_millis(2500)),
            cond: SetCond::IfAbsent,
        }),
        Some(WalRecord::SetKey { key: b"k".to_vec(), value: b"v".to_vec(), ttl_secs: Some(2) })
    );
    assert_eq!(
        WalRecord::from_command(&Command::Del(vec![k.clone(), Bytes::from_static(b"j")])),
        Some(WalRecord::Del { keys: vec![b"k".to_vec(), b"j".to_vec()] })
    );
    assert_eq!(
        WalRecord::from_command(&Command::Expire { key: k.clone(), ttl: Ttl::from_secs(9) }),
        Some(WalRecord::Expire { key: b"k".to_vec(), ttl_secs: 9 })
    );
    assert_eq!(
        WalRecord::from_command(&Command::Incr(k.clone())),
        Some(WalRecord::Incr { key: b"k".to_vec(), delta: 1 })
    );
    assert_eq!(
        WalRecord::from_command(&Command::Decr(k.clone())),
        Some(WalRecord::Incr { key: b"k".to_vec(), delta: -1 })
    );
    assert_eq!(
        WalRecord::from_command(&Command::SetKey {
            key: k.clone(),
            value: Bytes::from_static(b"v"),
            ttl: Some(Ttl::from_millis(500)),
            cond: SetCond::Always,
        }),
        Some(WalRecord::SetKey { key: b"k".to_vec(), value: b"v".to_vec(), ttl_secs: Some(1) })
    );
    assert_eq!(WalRecord::from_command(&Command::Get(k.clone())), None);
    assert_eq!(WalRecord::from_command(&Command::Ping(None)), None);
}

#[test]
fn records_replay_as_commands() {
    assert_eq!(
        WalRecord::SetKey { key: b"k".to_vec(), value: b"v".to_vec(), ttl_secs: Some(60) }.to_command(),
        Command::SetKey {
            key: Bytes::from_static(b"k"),
            value: Bytes::from_static(b"v"),
            ttl: Some(Ttl::from_secs(60)),
            cond: SetCond::Always,
        }
    );
    assert_eq!(
        WalRecord::Incr { key: b"n".to_vec(), delta: -3 }.to_command(),
        Command::Decr(Bytes::from_static(b"n"))
    );
    assert_eq!(
        WalRecord::Incr { key: b"n".to_vec(), delta: 0 }.to_command(),
        Command::Incr(Bytes::from_static(b"n"))
    );
    assert_eq!(
        WalRecord::Del { keys: vec![b"a".to_vec()] }.to_command(),
        Command::Del(vec![Bytes::from_static(b"a")])
    );
}

#[test]
fn frames_are_length_prefixed() {
    assert_eq!(frame(b"abc"), vec![0, 0, 0, 3, b'a', b'b', b'c']);
    assert_eq!(frame(b""), vec![0, 0, 0, 0]);
    let big = vec![7u8; 300];
    let f = frame(&big);
    assert_eq!(&f[..4], &[0, 0, 1, 44]);
    assert_eq!(f.len(), 304);
}

#[test]
fn split_frames_reads_back_appends() {
    let payloads: Vec<Vec<u8>> = vec![b"one".to_vec(), b"".to_vec(), b"three".to_vec()];
    let mut log = Vec::new();
    for p in &payloads {
        log.extend_from_slice(&frame(p));
    }
    assert_eq!(split_frames(&log), payloads);
}

#[test]
fn split_frames_drops_torn_tail() {
    let mut log = frame(b"kept");
    log.extend_from_slice(&[0, 0, 0, 42]);
    assert_eq!(split_frames(&log), vec![b"kept".to_vec()]);
    let mut log = frame(b"kept");
    log.extend_from_slice(&[0, 0]);
    assert_eq!(split_frames(&log), vec![b"kept".to_vec()]);
    assert_eq!(split_frames(&[]), Vec::<Vec<u8>>::new());
}

#[test]
fn replica_replaying_records_matches_leader() {
    let k = |s: &'static [u8]| Bytes::from_static(s);
    let now = 1_700_000_000u64;
    let ops = vec![
        Command::SetKey { key: k(b"a"), value: k(b"1"), ttl: None, cond: SetCond::Always },
        Command::SetKey { key: k(b"t"), value: k(b"x"), ttl: Some(Ttl::from_millis(2500)), cond: SetCond::Always },
        Command::SetKey { key: k(b"p"), value: k(b"y"), ttl: Some(Ttl::from_millis(500)), cond: SetCond::Always },
        Command::Incr(k(b"a")),
        Command::Get(k(b"a")),
        Command::Decr(k(b"c")),
        Command::Expire { key: k(b"a"), ttl: Ttl::from_secs(100) },
        Command::Del(vec![k(b"c"), k(b"gone")]),
        Command::Incr(k(b"c")),
    ];
    let mut leader = Store::new();
    let mut replica = Store::new();
    for cmd in &ops {
        leader.apply(cmd, now);
        if let Some(rec) = WalRecord::from_command(cmd) {
            replica.apply(&rec.to_command(), now);
        }
    }
    for key in [&b"a"[..], b"t", b"p", b"c", b"gone"] {
        let get = Command::Get(Bytes::copy_from_slice(key));
        let ttl = Command::Ttl(Bytes::copy_from_slice(key));
        assert_eq!(leader.apply(&get, now), replica.apply(&get, now));
        assert_eq!(leader.apply(&ttl, now), replica.apply(&ttl, now));
    }
    assert_eq!(replica.apply(&Command::Get(k(b"a")), now), RespValue::BulkString(Some(k(b"2"))));
    assert_eq!(replica.apply(&Command::Ttl(k(b"t")), now), RespValue::Integer(2));
    assert_eq!(replica.apply(&Command::Ttl(k(b"p")), now), RespValue::Integer(1));
    assert_eq!(replica.apply(&Command::Get(k(b"c")), now), RespValue::BulkString(Some(k(b"1"))));
}

#[test]
fn record_of_whole_second_command_replays_it() {
    let cmds = vec![
        Command::SetKey {
            key: Bytes::from_static(b"k"),
            value: Bytes::from_static(b"v"),
            ttl: Some(Ttl::from_secs(60)),
            cond: SetCond::Always,
        },
        Command::SetKey { key: Bytes::from_static(b"k"), value: Bytes::from_static(b"v"), ttl: None, cond: SetCond::Always },
        Command::Del(vec![Bytes::from_static(b"a"), Bytes::from_static(b"b")]),
        Command::Expire { key: Bytes::from_static(b"k"), ttl: Ttl::from_secs(5) },
        Command::Incr(Bytes::from_static(b"n")),
        Command::Decr(Bytes::from_static(b"n")),
    ];
    for cmd in cmds {
        let rec = WalRecord::from_command(&cmd).expect("a write has a record");
        assert_eq!(rec.to_command(), cmd);
    }
}

#[test]
fn complete_records_stop_at_first_bad_payload() {
    let a = WalRecord::Incr { key: b"n".to_vec(), delta: 1 };
    let b = WalRecord::Del { keys: vec![b"x".to_vec()] };
    let c = WalRecord::Expire { key: b"k".to_vec(), ttl_secs: 3 };
    assert_eq!(
        mini_redis::persistence::complete_records(vec![Some(a.clone()), Some(b.clone()), None, Some(c.clone())]),
        vec![a.clone(), b.clone()]
    );
    assert_eq!(
        mini_redis::persistence::complete_records(vec![Some(a.clone()), Some(c.clone())]),
        vec![a.clone(), c]
    );
    assert_eq!(mini_redis::persistence::complete_records(vec![None, Some(a)]), Vec::<WalRecord>::new());
    assert_eq!(mini_redis::persistence::complete_records(vec![]), Vec::<WalRecord>::new());
}
