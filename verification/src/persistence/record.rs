use crate::buffers::{bytes_from_vec, bytes_view};
use crate::command::types::{bytes_seq, Command, CommandModel, SetCond, Ttl};
use crate::store::apply::{apply_fits, apply_spec, keyspace_after, keyspace_fits, live, Keyspace};
use crate::store::keyspace::Store;
use bytes::Bytes;
use vstd::prelude::*;
use vstd::slice::slice_to_vec;

verus! {

/// What goes in the WAL — the durable form of a mutating command.
#[derive(Debug, Clone, PartialEq, Eq)]
pub enum WalRecord {
    SetKey { key: Vec<u8>, value: Vec<u8>, ttl_secs: Option<u64> },
    Del { keys: Vec<Vec<u8>> },
    Expire { key: Vec<u8>, ttl_secs: u64 },
    Incr { key: Vec<u8>, delta: i64 },
}

/// The content of a `WalRecord`.
pub enum RecordModel {
    SetKey { key: Seq<u8>, value: Seq<u8>, ttl_secs: Option<u64> },
    Del { keys: Seq<Seq<u8>> },
    Expire { key: Seq<u8>, ttl_secs: u64 },
    Incr { key: Seq<u8>, delta: i64 },
}

/// The contents of a list of byte vectors.
pub open spec fn vecs_seq(v: Seq<Vec<u8>>) -> Seq<Seq<u8>> {
    v.map_values(|b: Vec<u8>| b@)
}

/// The seconds a record keeps of a span: those its deadline counts (see
/// `Ttl::span_secs`), at most `u64::MAX`.
pub open spec fn record_secs(d: Ttl) -> u64 {
    if d.span_secs() <= u64::MAX {
        d.span_secs() as u64
    } else {
        u64::MAX
    }
}

/// The record of a mutating command; read-only commands have none.
pub open spec fn record_of(c: CommandModel) -> Option<RecordModel> {
    match c {
        CommandModel::SetKey { key, value, ttl, .. } => Some(
            RecordModel::SetKey {
                key,
                value,
                ttl_secs: match ttl {
                    Some(d) => Some(record_secs(d)),
                    None => None,
                },
            },
        ),
        CommandModel::Del(keys) => Some(RecordModel::Del { keys }),
        CommandModel::Expire { key, ttl } => Some(RecordModel::Expire { key, ttl_secs: record_secs(ttl) }),
        CommandModel::Incr(key) => Some(RecordModel::Incr { key, delta: 1i64 }),
        CommandModel::Decr(key) => Some(RecordModel::Incr { key, delta: -1i64 }),
        _ => None,
    }
}

/// The command that a record replays: `SET` always writes, and an increment
/// of zero or more replays as `INCR`, a negative one as `DECR`.
pub open spec fn command_of_record(r: RecordModel) -> CommandModel {
    match r {
        RecordModel::SetKey { key, value, ttl_secs } => CommandModel::SetKey {
            key,
            value,
            ttl: match ttl_secs {
                Some(s) => Some(Ttl::of_secs(s)),
                None => None,
            },
            cond: SetCond::Always,
        },
        RecordModel::Del { keys } => CommandModel::Del(keys),
        RecordModel::Expire { key, ttl_secs } => CommandModel::Expire {
            key,
            ttl: Ttl::of_secs(ttl_secs),
        },
        RecordModel::Incr { key, delta } => if delta >= 0 {
            CommandModel::Incr(key)
        } else {
            CommandModel::Decr(key)
        },
    }
}

/// The seconds a record keeps of a span.
fn record_secs_of(d: &Ttl) -> (r: u64)
    ensures
        r == record_secs(*d),
{
    let s = d.deadline_secs();
    if s > u64::MAX as u128 {
        u64::MAX
    } else {
        s as u64
    }
}

/// A copy of the bytes as a vector.
fn bytes_to_vec(b: &Bytes) -> (r: Vec<u8>)
    ensures
        r@ == bytes_view(*b),
{
    slice_to_vec(&**b)
}

/// A handle over a copy of the vector's bytes.
fn vec_to_bytes(v: &Vec<u8>) -> (r: Bytes)
    ensures
        bytes_view(r) == v@,
{
    bytes_from_vec(slice_to_vec(v.as_slice()))
}

impl WalRecord {
    pub open spec fn model(&self) -> RecordModel {
        match self {
            WalRecord::SetKey { key, value, ttl_secs } => RecordModel::SetKey {
                key: key@,
                value: value@,
                ttl_secs: *ttl_secs,
            },
            WalRecord::Del { keys } => RecordModel::Del { keys: vecs_seq(keys@) },
            WalRecord::Expire { key, ttl_secs } => RecordModel::Expire { key: key@, ttl_secs: *ttl_secs },
            WalRecord::Incr { key, delta } => RecordModel::Incr { key: key@, delta: *delta },
        }
    }

    /// The record of a mutating command; `None` for a read-only one.
    pub fn from_command(cmd: &Command) -> (r: Option<Self>)
        ensures
            match record_of(cmd.model()) {
                Some(m) => r matches Some(rec) && rec.model() == m,
                None => r is None,
            },
    {
        match cmd {
            Command::SetKey { key, value, ttl, .. } => Some(
                WalRecord::SetKey {
                    key: bytes_to_vec(key),
                    value: bytes_to_vec(value),
                    ttl_secs: match ttl {
                        Some(d) => Some(record_secs_of(d)),
                        None => None,
                    },
                },
            ),
            Command::Del(keys) => {
                let mut out: Vec<Vec<u8>> = Vec::new();
                let mut i: usize = 0;
                while i < keys.len()
                    invariant
                        i <= keys.len(),
                        vecs_seq(out@) == bytes_seq(keys@).take(i as int),
                    decreases keys.len() - i,
                {
                    let ghost before = vecs_seq(out@);
                    let v = bytes_to_vec(&keys[i]);
                    out.push(v);
                    assert(vecs_seq(out@) =~= before.push(bytes_seq(keys@)[i as int]));
                    assert(bytes_seq(keys@).take(i + 1) =~= bytes_seq(keys@).take(i as int).push(
                        bytes_seq(keys@)[i as int],
                    ));
                    i = i + 1;
                }
                assert(bytes_seq(keys@).take(i as int) =~= bytes_seq(keys@));
                Some(WalRecord::Del { keys: out })
            },
            Command::Expire { key, ttl } => Some(
                WalRecord::Expire { key: bytes_to_vec(key), ttl_secs: record_secs_of(ttl) },
            ),
            Command::Incr(key) => Some(WalRecord::Incr { key: bytes_to_vec(key), delta: 1 }),
            Command::Decr(key) => Some(WalRecord::Incr { key: bytes_to_vec(key), delta: -1 }),
            _ => None,
        }
    }

    /// The command that replays this record.
    pub fn to_command(&self) -> (r: Command)
        ensures
            r.model() == command_of_record(self.model()),
    {
        match self {
            WalRecord::SetKey { key, value, ttl_secs } => Command::SetKey {
                key: vec_to_bytes(key),
                value: vec_to_bytes(value),
                ttl: match ttl_secs {
                    Some(s) => Some(Ttl::from_secs(*s)),
                    None => None,
                },
                cond: SetCond::Always,
            },
            WalRecord::Del { keys } => {
                let mut out: Vec<Bytes> = Vec::new();
                let mut i: usize = 0;
                while i < keys.len()
                    invariant
                        i <= keys.len(),
                        bytes_seq(out@) == vecs_seq(keys@).take(i as int),
                    decreases keys.len() - i,
                {
                    let ghost before = bytes_seq(out@);
                    let b = vec_to_bytes(&keys[i]);
                    out.push(b);
                    assert(bytes_seq(out@) =~= before.push(vecs_seq(keys@)[i as int]));
                    assert(vecs_seq(keys@).take(i + 1) =~= vecs_seq(keys@).take(i as int).push(
                        vecs_seq(keys@)[i as int],
                    ));
                    i = i + 1;
                }
                assert(vecs_seq(keys@).take(i as int) =~= vecs_seq(keys@));
                Command::Del(out)
            },
            WalRecord::Expire { key, ttl_secs } => Command::Expire {
                key: vec_to_bytes(key),
                ttl: Ttl::from_secs(*ttl_secs),
            },
            WalRecord::Incr { key, delta } => {
                if *delta >= 0 {
                    Command::Incr(vec_to_bytes(key))
                } else {
                    Command::Decr(vec_to_bytes(key))
                }
            },
        }
    }
}

/// The records of a log whose payloads were decoded in order: those before
/// the first payload that did not decode (`None`); replay stops there, since
/// nothing after a bad record can be trusted.
pub fn complete_records(decoded: Vec<Option<WalRecord>>) -> (r: Vec<WalRecord>)
    ensures
        r.len() <= decoded.len(),
        forall|i: int| 0 <= i < r.len() ==> decoded@[i] == Some(#[trigger] r@[i]),
        r.len() < decoded.len() ==> decoded@[r.len() as int] is None,
{
    let ghost d = decoded@;
    let mut k: usize = 0;
    while k < decoded.len() && decoded[k].is_some()
        invariant
            k <= decoded.len(),
            decoded@ == d,
            forall|i: int| 0 <= i < k ==> (#[trigger] d[i]) is Some,
        decreases decoded.len() - k,
    {
        k = k + 1;
    }
    let mut rest = decoded;
    rest.truncate(k);
    // Taken from the back, the records come out last first.
    let mut rev: Vec<WalRecord> = Vec::new();
    while rest.len() > 0
        invariant
            k <= d.len(),
            forall|i: int| 0 <= i < k ==> (#[trigger] d[i]) is Some,
            rest.len() + rev.len() == k,
            forall|i: int| 0 <= i < rest.len() ==> #[trigger] rest@[i] == d[i],
            forall|j: int| 0 <= j < rev.len() ==> d[k - 1 - j] == Some(#[trigger] rev@[j]),
        decreases rest.len(),
    {
        let ghost at = rest.len() - 1;
        let last = rest.pop();
        match last {
            Some(Some(rec)) => {
                rev.push(rec);
            },
            _ => {
                assert(d[at] is Some);
            },
        }
    }
    let mut out: Vec<WalRecord> = Vec::new();
    while rev.len() > 0
        invariant
            out.len() + rev.len() == k,
            forall|j: int| 0 <= j < rev.len() ==> d[k - 1 - j] == Some(#[trigger] rev@[j]),
            forall|i: int| 0 <= i < out.len() ==> d[i] == Some(#[trigger] out@[i]),
        decreases rev.len(),
    {
        let ghost at = rev.len() - 1;
        let last = rev.pop();
        match last {
            Some(rec) => {
                assert(d[k - 1 - at] == Some(rec));
                out.push(rec);
            },
            None => {},
        }
    }
    out
}

/// Every span the command carries is a whole number of seconds.
pub open spec fn whole_second_spans(c: CommandModel) -> bool {
    match c {
        CommandModel::SetKey { ttl, .. } => ttl matches Some(d) ==> d.millis % 1000 == 0,
        CommandModel::Expire { ttl, .. } => ttl.millis % 1000 == 0,
        _ => true,
    }
}

/// The command is a `SET` with `NX` or `XX`.
pub open spec fn is_conditional(c: CommandModel) -> bool {
    c matches CommandModel::SetKey { cond, .. } && cond != SetCond::Always
}

/// Every span the command carries counts at most `u64::MAX` seconds.
pub open spec fn spans_fit(c: CommandModel) -> bool {
    match c {
        CommandModel::SetKey { ttl, .. } => ttl matches Some(d) ==> d.secs() <= u64::MAX,
        CommandModel::Expire { ttl, .. } => ttl.secs() <= u64::MAX,
        _ => true,
    }
}

/// A span of whole seconds is the span its record's seconds give back.
proof fn lemma_whole_span(d: Ttl)
    requires
        d.millis % 1000 == 0,
        d.secs() <= u64::MAX,
    ensures
        Ttl::of_secs(record_secs(d)) == d,
{
    let s = record_secs(d);
    assert(s == d.millis / 1000);
    assert((s as nat * 1000) == d.millis) by (nonlinear_arith)
        requires
            s == d.millis / 1000,
            d.millis % 1000 == 0,
    ;
}

/// The seconds a record keeps of a span give back a span whose deadline
/// counts as many seconds, whenever those fit in a `u64`.
proof fn lemma_record_span(d: Ttl)
    requires
        d.span_secs() <= u64::MAX,
    ensures
        Ttl::of_secs(record_secs(d)).span_secs() == d.span_secs(),
{
    let s = record_secs(d);
    let t = Ttl::of_secs(s);
    assert(t.millis == s as nat * 1000);
    assert((s as nat * 1000) / 1000 == s as nat);
    assert(t.secs() == s);
}

/// Replaying the record of a command re-issues the command itself, for every
/// mutating command that is no conditional `SET` (whose record replays as an
/// unconditional one) and whose spans are whole seconds (of at most
/// `u64::MAX` seconds), since a record keeps seconds only.
pub proof fn law_record_replays_command(cmd: CommandModel, rec: RecordModel)
    requires
        record_of(cmd) == Some(rec),
        !is_conditional(cmd),
        whole_second_spans(cmd),
        spans_fit(cmd),
    ensures
        command_of_record(rec) == cmd,
{
    match cmd {
        CommandModel::SetKey { key, value, ttl, cond } => {
            if let Some(d) = ttl {
                lemma_whole_span(d);
            }
        },
        CommandModel::Expire { key, ttl } => {
            lemma_whole_span(ttl);
        },
        _ => {},
    }
}

/// Replaying the record of a command has the command's effect and gives its
/// reply, for every mutating command but a conditional `SET` (whose record
/// replays as an unconditional one).
pub proof fn law_replay_repeats_command(s: Store, cmd: CommandModel, rec: RecordModel, now: u64)
    requires
        s.wf(),
        record_of(cmd) == Some(rec),
        !is_conditional(cmd),
        apply_fits(s.pairs(), cmd, now),
    ensures
        apply_spec(s.pairs(), command_of_record(rec), now) == apply_spec(s.pairs(), cmd, now),
{
    s.lemma_view();
    lemma_replay_step(s@, cmd, now);
    crate::store::apply::law_apply_depends_on_keyspace(s.pairs(), cmd, now);
}

/// The keyspace after running each command of `ops` in turn, each at the
/// time paired with it.
pub open spec fn run(m: Keyspace, ops: Seq<(CommandModel, u64)>) -> Keyspace
    decreases ops.len(),
{
    if ops.len() == 0 {
        m
    } else {
        run(keyspace_after(m, ops[0].0, ops[0].1), ops.drop_first())
    }
}

/// Each command of `ops` stays in range where it runs.
pub open spec fn run_fits(m: Keyspace, ops: Seq<(CommandModel, u64)>) -> bool
    decreases ops.len(),
{
    ops.len() == 0 || (keyspace_fits(m, ops[0].0, ops[0].1) && run_fits(
        keyspace_after(m, ops[0].0, ops[0].1),
        ops.drop_first(),
    ))
}

/// The keyspace after replaying the records of the commands of `ops` in
/// turn, each at the time of its command; a command without a record is
/// skipped.
pub open spec fn replay(m: Keyspace, ops: Seq<(CommandModel, u64)>) -> Keyspace
    decreases ops.len(),
{
    if ops.len() == 0 {
        m
    } else {
        let next = match record_of(ops[0].0) {
            Some(rec) => keyspace_after(m, command_of_record(rec), ops[0].1),
            None => m,
        };
        replay(next, ops.drop_first())
    }
}

/// No command of `ops` is a conditional `SET`.
pub open spec fn unconditional(ops: Seq<(CommandModel, u64)>) -> bool {
    forall|i: int| 0 <= i < ops.len() ==> !is_conditional((#[trigger] ops[i]).0)
}

/// One step: the record of a command changes the keyspace as the command
/// does and gives its reply, and a command without a record leaves the
/// keyspace as it was.
proof fn lemma_replay_step(m: Keyspace, cmd: CommandModel, now: u64)
    requires
        keyspace_fits(m, cmd, now),
        !is_conditional(cmd),
    ensures
        match record_of(cmd) {
            Some(rec) => keyspace_after(m, command_of_record(rec), now) == keyspace_after(m, cmd, now),
            None => keyspace_after(m, cmd, now) == m,
        },
{
    match cmd {
        CommandModel::SetKey { key, value, ttl, cond } => {
            if let Some(d) = ttl {
                lemma_record_span(d);
            }
        },
        CommandModel::Expire { key, ttl } => {
            if live(m, key, now) {
                lemma_record_span(ttl);
            }
        },
        _ => {},
    }
}

/// A replica that replays the records of a leader's commands, each at the
/// time the leader ran it, ends with the leader's keyspace, whatever the
/// commands were, as long as none is a conditional `SET`.
pub proof fn law_replica_matches_leader(m: Keyspace, ops: Seq<(CommandModel, u64)>)
    requires
        run_fits(m, ops),
        unconditional(ops),
    ensures
        replay(m, ops) == run(m, ops),
    decreases ops.len(),
{
    if ops.len() > 0 {
        let op = ops[0];
        assert(unconditional(ops.drop_first())) by {
            assert forall|i: int| 0 <= i < ops.drop_first().len() implies !is_conditional(
                (#[trigger] ops.drop_first()[i]).0,
            ) by {
                assert(ops.drop_first()[i] == ops[i + 1]);
            }
        }
        lemma_replay_step(m, op.0, op.1);
        law_replica_matches_leader(keyspace_after(m, op.0, op.1), ops.drop_first());
    }
}

} // verus!
