use crate::buffers::{bytes_mut_view, bytes_view};
use crate::command::types::{bytes_seq, owned, Command, CommandModel, SetCond, Ttl};
use crate::protocol::decimal::{decimal, i64_from_ascii, i64_from_decimal, put_decimal};
use crate::protocol::value::{RespModel, RespValue};
use crate::store::entry::{deadline, deadline_fits, expired, Entry, EntryModel};
use crate::store::glob::{glob_helper, glob_spec};
use crate::store::keyspace::{pairs_map, Pairs, Store};
use crate::text::str_from_utf8;
use bytes::{Bytes, BytesMut};
use vstd::prelude::*;
use vstd::string::StringSliceAdditionalSpecFns;
use vstd::utf8::valid_utf8;

verus! {

/// A keyspace as a map from key bytes to entries.
pub type Keyspace = Map<Seq<u8>, EntryModel>;

/// `k` is held and its deadline has not been reached at `now`.
pub open spec fn live(m: Keyspace, k: Seq<u8>, now: u64) -> bool {
    m.contains_key(k) && !expired(m[k], now)
}

/// `DEL`: each key in turn is removed; those that were live are counted.
pub open spec fn del_fold(m: Keyspace, keys: Seq<Seq<u8>>, now: u64) -> (Keyspace, int)
    decreases keys.len(),
{
    if keys.len() == 0 {
        (m, 0)
    } else {
        let c: int = if live(m, keys[0], now) { 1 } else { 0 };
        let rest = del_fold(m.remove(keys[0]), keys.drop_first(), now);
        (rest.0, c + rest.1)
    }
}

/// `EXISTS`: how many of the keys (counting repeats) are live.
pub open spec fn count_live(m: Keyspace, keys: Seq<Seq<u8>>, now: u64) -> int
    decreases keys.len(),
{
    if keys.len() == 0 {
        0
    } else {
        (if live(m, keys[0], now) { 1int } else { 0int }) + count_live(m, keys.drop_first(), now)
    }
}

/// `KEYS`: the live keys that are UTF-8 and match the pattern, in store order.
pub open spec fn matching_keys(s: Pairs, pat: Seq<u8>, now: u64) -> Seq<RespModel>
    decreases s.len(),
{
    if s.len() == 0 {
        Seq::empty()
    } else {
        let rest = matching_keys(s.drop_last(), pat, now);
        let p = s.last();
        if !expired(p.1, now) && valid_utf8(p.0) && glob_spec(pat, p.0) {
            rest.push(RespModel::Bulk(Some(p.0)))
        } else {
            rest
        }
    }
}

/// The pattern of `KEYS` as matched: its bytes if they are UTF-8, else empty.
pub open spec fn keys_pattern(p: Seq<u8>) -> Seq<u8> {
    if valid_utf8(p) {
        p
    } else {
        Seq::empty()
    }
}

/// `INCR`/`DECR`: the live value read as an integer (absent counts as 0),
/// moved by `delta`; the result replaces the entry, without a deadline.
pub open spec fn incr_spec(m: Keyspace, key: Seq<u8>, delta: int, now: u64) -> (Keyspace, RespModel) {
    let current: Option<int> = if live(m, key, now) {
        match i64_from_decimal(m[key].value) {
            Some(n) => Some(n as int),
            None => None,
        }
    } else {
        Some(0)
    };
    match current {
        None => (m, RespModel::Error("ERR value is not an integer or out of range"@)),
        Some(n) => if i64::MIN <= n + delta <= i64::MAX {
            (
                m.insert(key, EntryModel { value: decimal(n + delta), expires_at: None }),
                RespModel::Integer(n + delta),
            )
        } else {
            (m, RespModel::Error("ERR increment would overflow"@))
        },
    }
}

/// The reply to `SET` and the keyspace after it. An expired key counts as
/// absent, as it does for every read.
pub open spec fn set_spec(
    m: Keyspace,
    key: Seq<u8>,
    value: Seq<u8>,
    ttl: Option<Ttl>,
    cond: SetCond,
    now: u64,
) -> (Keyspace, RespModel) {
    let exists = live(m, key, now);
    if (cond == SetCond::IfAbsent && exists) || (cond == SetCond::IfExists && !exists) {
        (m, RespModel::Bulk(None))
    } else {
        (
            m.insert(key, EntryModel { value, expires_at: deadline(ttl, now) }),
            RespModel::Simple("OK"@),
        )
    }
}

/// The keyspace after a command and the reply to it, at time `now`, from a
/// keyspace whose pairs (in store order) are `s`.
pub open spec fn apply_spec(s: Pairs, cmd: CommandModel, now: u64) -> (Keyspace, RespModel) {
    let m = pairs_map(s);
    match cmd {
        CommandModel::Ping(None) => (m, RespModel::Simple("PONG"@)),
        CommandModel::Ping(Some(b)) => (m, RespModel::Bulk(Some(b))),
        CommandModel::Echo(b) => (m, RespModel::Bulk(Some(b))),
        CommandModel::Get(k) => (
            m,
            if live(m, k, now) {
                RespModel::Bulk(Some(m[k].value))
            } else {
                RespModel::Bulk(None)
            },
        ),
        CommandModel::SetKey { key, value, ttl, cond } => set_spec(m, key, value, ttl, cond, now),
        CommandModel::Del(keys) => {
            let r = del_fold(m, keys, now);
            (r.0, RespModel::Integer(r.1))
        },
        CommandModel::Exists(keys) => (m, RespModel::Integer(count_live(m, keys, now))),
        CommandModel::Incr(k) => incr_spec(m, k, 1, now),
        CommandModel::Decr(k) => incr_spec(m, k, -1, now),
        CommandModel::Expire { key, ttl } => if live(m, key, now) {
            (
                m.insert(key, EntryModel { value: m[key].value, expires_at: deadline(Some(ttl), now) }),
                RespModel::Integer(1),
            )
        } else {
            (m, RespModel::Integer(0))
        },
        CommandModel::Ttl(k) => (
            m,
            if !live(m, k, now) {
                RespModel::Integer(-2)
            } else {
                match m[k].expires_at {
                    None => RespModel::Integer(-1),
                    Some(at) => RespModel::Integer(((at - now) as i64) as int),
                }
            },
        ),
        CommandModel::Keys(p) => (
            m,
            RespModel::Array(Some(matching_keys(s, keys_pattern(p), now))),
        ),
        CommandModel::Info => (m, RespModel::Bulk(Some("# Server\nrole:master\n".spec_bytes()))),
        CommandModel::ReplicaOf(_) => (m, RespModel::Simple("OK"@)),
    }
}

/// The arithmetic of a command stays in range at `now`: a deadline it sets
/// fits in a `u64`, and a count it makes fits in an `i64`.
pub open spec fn apply_fits(s: Pairs, cmd: CommandModel, now: u64) -> bool {
    match cmd {
        CommandModel::SetKey { ttl, .. } => deadline_fits(ttl, now),
        CommandModel::Expire { key, ttl } => live(pairs_map(s), key, now) ==> deadline_fits(
            Some(ttl),
            now,
        ),
        CommandModel::Del(keys) => keys.len() <= i64::MAX,
        CommandModel::Exists(keys) => keys.len() <= i64::MAX,
        _ => true,
    }
}

/// The keyspace after a command at `now`, from the keyspace `m`: only the
/// writes change it.
pub open spec fn keyspace_after(m: Keyspace, cmd: CommandModel, now: u64) -> Keyspace {
    match cmd {
        CommandModel::SetKey { key, value, ttl, cond } => set_spec(m, key, value, ttl, cond, now).0,
        CommandModel::Del(keys) => del_fold(m, keys, now).0,
        CommandModel::Incr(k) => incr_spec(m, k, 1, now).0,
        CommandModel::Decr(k) => incr_spec(m, k, -1, now).0,
        CommandModel::Expire { key, ttl } => if live(m, key, now) {
            m.insert(key, EntryModel { value: m[key].value, expires_at: deadline(Some(ttl), now) })
        } else {
            m
        },
        _ => m,
    }
}

/// What `apply` asks of a command at `now`, judged on the keyspace `m` alone.
pub open spec fn keyspace_fits(m: Keyspace, cmd: CommandModel, now: u64) -> bool {
    match cmd {
        CommandModel::SetKey { ttl, .. } => deadline_fits(ttl, now),
        CommandModel::Expire { key, ttl } => live(m, key, now) ==> deadline_fits(Some(ttl), now),
        CommandModel::Del(keys) => keys.len() <= i64::MAX,
        CommandModel::Exists(keys) => keys.len() <= i64::MAX,
        _ => true,
    }
}

/// The keyspace that `apply` leaves, and whether it may run, depend on the
/// keyspace alone, not on the order in which the store holds its pairs.
pub proof fn law_apply_depends_on_keyspace(s: Pairs, cmd: CommandModel, now: u64)
    ensures
        apply_spec(s, cmd, now).0 == keyspace_after(pairs_map(s), cmd, now),
        apply_fits(s, cmd, now) == keyspace_fits(pairs_map(s), cmd, now),
{
}

/// Whether a deadline `ttl` after `now` fits in a `u64`.
fn deadline_fits_exec(ttl: Option<Ttl>, now: u64) -> (r: bool)
    ensures
        r == deadline_fits(ttl, now),
{
    match ttl {
        Some(d) => (now as u128) + d.deadline_secs() <= u64::MAX as u128,
        None => true,
    }
}

fn null_bulk() -> (r: RespValue)
    ensures
        r.model() == RespModel::Bulk(None),
{
    RespValue::BulkString(None)
}

impl Store {
    /// Runs a command at time `now` (seconds since the epoch) and gives its
    /// reply. Expired entries are ignored by reads and replaced by writes.
    pub fn apply(&mut self, cmd: &Command, now: u64) -> (r: RespValue)
        requires
            old(self).wf(),
            apply_fits(old(self).pairs(), cmd.model(), now),
        ensures
            final(self).wf(),
            final(self)@ == apply_spec(old(self).pairs(), cmd.model(), now).0,
            r.model() == apply_spec(old(self).pairs(), cmd.model(), now).1,
    {
        proof {
            self.lemma_view();
        }
        match cmd {
            Command::Ping(arg) => match arg {
                Some(b) => RespValue::BulkString(Some(b.clone())),
                None => RespValue::SimpleString(owned("PONG")),
            },
            Command::Echo(b) => RespValue::BulkString(Some(b.clone())),
            Command::Get(key) => self.do_get(key, now),
            Command::SetKey { key, value, ttl, cond } => self.do_set(
                key.clone(),
                value.clone(),
                *ttl,
                *cond,
                now,
            ),
            Command::Del(keys) => self.do_del(keys, now),
            Command::Exists(keys) => self.do_exists(keys, now),
            Command::Incr(key) => self.do_incr(key.clone(), 1, now),
            Command::Decr(key) => self.do_incr(key.clone(), -1, now),
            Command::Expire { key, ttl } => self.do_expire(key, *ttl, now),
            Command::Ttl(key) => self.do_ttl(key, now),
            Command::Keys(pattern) => self.do_keys(pattern, now),
            Command::Info => RespValue::BulkString(
                Some(Bytes::copy_from_slice("# Server\nrole:master\n".as_bytes())),
            ),
            Command::ReplicaOf(_) => RespValue::SimpleString(owned("OK")),
        }
    }

    /// Whether `apply` may run `cmd` at `now`: what it computes stays in range.
    pub fn fits(&self, cmd: &Command, now: u64) -> (r: bool)
        requires
            self.wf(),
        ensures
            r == apply_fits(self.pairs(), cmd.model(), now),
    {
        proof {
            self.lemma_view();
        }
        match cmd {
            Command::SetKey { ttl, .. } => deadline_fits_exec(*ttl, now),
            Command::Expire { key, ttl } => {
                let is_live = match self.get(&**key) {
                    Some(e) => !e.is_expired(now),
                    None => false,
                };
                !is_live || deadline_fits_exec(Some(*ttl), now)
            },
            Command::Del(keys) => keys.len() as u64 <= i64::MAX as u64,
            Command::Exists(keys) => keys.len() as u64 <= i64::MAX as u64,
            _ => true,
        }
    }

    fn do_get(&self, key: &Bytes, now: u64) -> (r: RespValue)
        requires
            self.wf(),
        ensures
            r.model() == apply_spec(self.pairs(), CommandModel::Get(bytes_view(*key)), now).1,
    {
        proof {
            self.lemma_view();
        }
        match self.get(&**key) {
            Some(e) => {
                if !e.is_expired(now) {
                    RespValue::BulkString(Some(e.value.clone()))
                } else {
                    null_bulk()
                }
            },
            None => null_bulk(),
        }
    }

    fn do_set(&mut self, key: Bytes, value: Bytes, ttl: Option<Ttl>, cond: SetCond, now: u64) -> (r:
        RespValue)
        requires
            old(self).wf(),
            deadline_fits(ttl, now),
        ensures
            final(self).wf(),
            (final(self)@, r.model()) == set_spec(
                old(self)@,
                bytes_view(key),
                bytes_view(value),
                ttl,
                cond,
                now,
            ),
    {
        let exists = match self.get(&*key) {
            Some(e) => !e.is_expired(now),
            None => false,
        };
        match cond {
            SetCond::IfAbsent => {
                if exists {
                    return null_bulk();
                }
            },
            SetCond::IfExists => {
                if !exists {
                    return null_bulk();
                }
            },
            SetCond::Always => {},
        }
        self.put(key, Entry::new(value, ttl, now));
        RespValue::SimpleString(owned("OK"))
    }

    fn do_del(&mut self, keys: &Vec<Bytes>, now: u64) -> (r: RespValue)
        requires
            old(self).wf(),
            keys.len() <= i64::MAX,
        ensures
            final(self).wf(),
            (final(self)@, r.model()) == ({
                let d = del_fold(old(self)@, bytes_seq(keys@), now);
                (d.0, RespModel::Integer(d.1))
            }),
    {
        let ghost ks = bytes_seq(keys@);
        let ghost m0 = self@;
        let mut count: i64 = 0;
        let mut i: usize = 0;
        assert(ks.skip(0) =~= ks);
        while i < keys.len()
            invariant
                i <= keys.len(),
                keys.len() <= i64::MAX,
                0 <= count <= i,
                ks == bytes_seq(keys@),
                self.wf(),
                del_fold(m0, ks, now) == ({
                    let d = del_fold(self@, ks.skip(i as int), now);
                    (d.0, count + d.1)
                }),
            decreases keys.len() - i,
        {
            let ghost before = self@;
            proof {
                assert(ks.skip(i as int).drop_first() =~= ks.skip(i + 1));
                assert(ks.skip(i as int)[0] == bytes_view(keys@[i as int]));
            }
            match self.take(&*keys[i]) {
                Some(e) => {
                    if !e.is_expired(now) {
                        count = count + 1;
                    }
                },
                None => {},
            }
            i = i + 1;
        }
        assert(ks.skip(i as int) =~= Seq::<Seq<u8>>::empty());
        RespValue::Integer(count)
    }

    fn do_exists(&self, keys: &Vec<Bytes>, now: u64) -> (r: RespValue)
        requires
            self.wf(),
            keys.len() <= i64::MAX,
        ensures
            r.model() == RespModel::Integer(count_live(self@, bytes_seq(keys@), now)),
    {
        let ghost ks = bytes_seq(keys@);
        let mut count: i64 = 0;
        let mut i: usize = 0;
        assert(ks.skip(0) =~= ks);
        while i < keys.len()
            invariant
                i <= keys.len(),
                keys.len() <= i64::MAX,
                0 <= count <= i,
                ks == bytes_seq(keys@),
                self.wf(),
                count_live(self@, ks, now) == count + count_live(self@, ks.skip(i as int), now),
            decreases keys.len() - i,
        {
            proof {
                assert(ks.skip(i as int).drop_first() =~= ks.skip(i + 1));
                assert(ks.skip(i as int)[0] == bytes_view(keys@[i as int]));
            }
            match self.get(&*keys[i]) {
                Some(e) => {
                    if !e.is_expired(now) {
                        count = count + 1;
                    }
                },
                None => {},
            }
            i = i + 1;
        }
        assert(ks.skip(i as int) =~= Seq::<Seq<u8>>::empty());
        RespValue::Integer(count)
    }

    fn do_incr(&mut self, key: Bytes, delta: i64, now: u64) -> (r: RespValue)
        requires
            old(self).wf(),
        ensures
            final(self).wf(),
            (final(self)@, r.model()) == incr_spec(old(self)@, bytes_view(key), delta as int, now),
    {
        let current: i64 = match self.get(&*key) {
            Some(e) => {
                if !e.is_expired(now) {
                    match i64_from_ascii(&*e.value) {
                        Some(n) => n,
                        None => {
                            return RespValue::Error(
                                owned("ERR value is not an integer or out of range"),
                            );
                        },
                    }
                } else {
                    0
                }
            },
            None => 0,
        };
        let next = match current.checked_add(delta) {
            Some(n) => n,
            None => return RespValue::Error(owned("ERR increment would overflow")),
        };
        let mut text = BytesMut::with_capacity(20);
        put_decimal(&mut text, next);
        let value = text.freeze();
        assert(bytes_view(value) =~= decimal(next as int));
        self.put(key, Entry::new(value, None, now));
        RespValue::Integer(next)
    }

    fn do_expire(&mut self, key: &Bytes, ttl: Ttl, now: u64) -> (r: RespValue)
        requires
            old(self).wf(),
            live(old(self)@, bytes_view(*key), now) ==> deadline_fits(Some(ttl), now),
        ensures
            final(self).wf(),
            (final(self)@, r.model()) == apply_spec(
                old(self).pairs(),
                CommandModel::Expire { key: bytes_view(*key), ttl },
                now,
            ),
    {
        proof {
            self.lemma_view();
        }
        let live_value: Option<Bytes> = match self.get(&**key) {
            Some(e) => {
                if !e.is_expired(now) {
                    Some(e.value.clone())
                } else {
                    None
                }
            },
            None => None,
        };
        match live_value {
            Some(value) => {
                let entry = Entry::new(value, Some(ttl), now);
                self.put(key.clone(), entry);
                RespValue::Integer(1)
            },
            None => RespValue::Integer(0),
        }
    }

    fn do_ttl(&self, key: &Bytes, now: u64) -> (r: RespValue)
        requires
            self.wf(),
        ensures
            r.model() == apply_spec(self.pairs(), CommandModel::Ttl(bytes_view(*key)), now).1,
    {
        proof {
            self.lemma_view();
        }
        match self.get(&**key) {
            None => RespValue::Integer(-2),
            Some(e) => {
                if e.is_expired(now) {
                    RespValue::Integer(-2)
                } else {
                    match e.expires_at {
                        None => RespValue::Integer(-1),
                        Some(at) => RespValue::Integer((at - now) as i64),
                    }
                }
            },
        }
    }

    fn do_keys(&self, pattern: &Bytes, now: u64) -> (r: RespValue)
        requires
            self.wf(),
        ensures
            r.model() == apply_spec(self.pairs(), CommandModel::Keys(bytes_view(*pattern)), now).1,
    {
        let raw: &[u8] = &**pattern;
        let empty: Vec<u8> = Vec::new();
        let pat: &[u8] = match str_from_utf8(raw) {
            Some(_) => raw,
            None => empty.as_slice(),
        };
        assert(pat@ =~= keys_pattern(bytes_view(*pattern)));
        let mut out: Vec<RespValue> = Vec::new();
        let mut i: usize = 0;
        while i < self.len()
            invariant
                i <= self.pairs().len(),
                pat@ == keys_pattern(bytes_view(*pattern)),
                out@.map_values(|v: RespValue| v.model()) == matching_keys(
                    self.pairs().take(i as int),
                    pat@,
                    now,
                ),
            decreases self.pairs().len() - i,
        {
            let ghost before = out@.map_values(|v: RespValue| v.model());
            let ghost p = self.pairs()[i as int];
            assert(self.pairs().take(i + 1).drop_last() =~= self.pairs().take(i as int));
            assert(self.pairs().take(i + 1).last() == p);
            let (k, e) = self.pair_at(i);
            if !e.is_expired(now) {
                match str_from_utf8(&**k) {
                    Some(_) => {
                        if glob_helper(pat, &**k) {
                            out.push(RespValue::BulkString(Some(k.clone())));
                            assert(out@.map_values(|v: RespValue| v.model()) =~= before.push(
                                RespModel::Bulk(Some(p.0)),
                            ));
                        }
                    },
                    None => {},
                }
            }
            i = i + 1;
        }
        assert(self.pairs().take(i as int) =~= self.pairs());
        let r = RespValue::Array(Some(out));
        assert(r.model()->Array_0->Some_0 =~= out@.map_values(|v: RespValue| v.model()));
        r
    }
}

} // verus!
