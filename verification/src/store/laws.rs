//! What the keyspace promises across commands.

use crate::command::types::{CommandModel, SetCond, Ttl};
use crate::protocol::decimal::decimal;
use crate::protocol::value::RespModel;
use crate::store::apply::{apply_spec, del_fold, incr_spec, keys_pattern, live, matching_keys, Keyspace};
use crate::store::entry::{deadline, expired};
use crate::store::glob::glob_spec;
use vstd::utf8::valid_utf8;
use crate::store::entry::{deadline_fits, EntryModel};
use crate::store::keyspace::{
    insert_all, keys_distinct, lemma_pairs_map_at, lemma_pairs_push, live_part, pairs_map, has_key,
    Pairs, Store,
};
use vstd::prelude::*;

verus! {

/// Reading a key after writing it gives the value written, at any time
/// before the write's deadline.
pub proof fn law_get_after_set(
    before: Store,
    after: Store,
    key: Seq<u8>,
    value: Seq<u8>,
    ttl: Option<Ttl>,
    now: u64,
    later: u64,
)
    requires
        before.wf(),
        after.wf(),
        deadline_fits(ttl, now),
        after@ == apply_spec(
            before.pairs(),
            CommandModel::SetKey { key, value, ttl, cond: SetCond::Always },
            now,
        ).0,
        ttl matches Some(d) ==> later < now + d.span_secs(),
    ensures
        apply_spec(after.pairs(), CommandModel::Get(key), later).1 == RespModel::Bulk(Some(value)),
{
    after.lemma_view();
    before.lemma_view();
}

/// Once the deadline of a write has been reached, the key reads as absent.
pub proof fn law_value_expires(
    before: Store,
    after: Store,
    key: Seq<u8>,
    value: Seq<u8>,
    ttl: Ttl,
    now: u64,
    later: u64,
)
    requires
        before.wf(),
        after.wf(),
        deadline_fits(Some(ttl), now),
        after@ == apply_spec(
            before.pairs(),
            CommandModel::SetKey { key, value, ttl: Some(ttl), cond: SetCond::Always },
            now,
        ).0,
        later >= now + ttl.span_secs(),
    ensures
        apply_spec(after.pairs(), CommandModel::Get(key), later).1 == RespModel::Bulk(None),
{
    after.lemma_view();
    before.lemma_view();
}

/// `SET ... NX` on a live key changes nothing and answers null; on a key that
/// is absent or expired it writes and answers `OK`.
pub proof fn law_set_if_absent_keeps_existing(
    s: Store,
    key: Seq<u8>,
    value: Seq<u8>,
    ttl: Option<Ttl>,
    now: u64,
)
    requires
        s.wf(),
    ensures
        apply_spec(s.pairs(), CommandModel::SetKey { key, value, ttl, cond: SetCond::IfAbsent }, now)
            == if live(s@, key, now) {
            (s@, RespModel::Bulk(None))
        } else {
            (
                s@.insert(key, EntryModel { value, expires_at: deadline(ttl, now) }),
                RespModel::Simple("OK"@),
            )
        },
{
    s.lemma_view();
}

/// `INCR` on a key that is not live creates the counter 1; a `DECR` right after
/// an `INCR` that answered `n` answers `n - 1`.
pub proof fn law_incr_then_decr(before: Store, after: Store, key: Seq<u8>, n: int, now: u64)
    requires
        before.wf(),
        after.wf(),
        apply_spec(before.pairs(), CommandModel::Incr(key), now) == (after@, RespModel::Integer(n)),
    ensures
        !live(before@, key, now) ==> n == 1,
        apply_spec(after.pairs(), CommandModel::Decr(key), now).1 == RespModel::Integer(n - 1),
{
    before.lemma_view();
    after.lemma_view();
    crate::protocol::laws::lemma_decimal_reads_back(n);
}

/// After `DEL`, none of the keys is held.
pub proof fn law_deleted_keys_are_gone(s: Store, keys: Seq<Seq<u8>>, now: u64)
    requires
        s.wf(),
    ensures
        forall|i: int|
            0 <= i < keys.len() ==> !(#[trigger] apply_spec(s.pairs(), CommandModel::Del(keys), now).0.contains_key(
                keys[i],
            )),
{
    s.lemma_view();
    lemma_del_removes(s@, keys, now);
}

proof fn lemma_del_removes(m: Keyspace, keys: Seq<Seq<u8>>, now: u64)
    ensures
        forall|i: int|
            0 <= i < keys.len() ==> !(#[trigger] del_fold(m, keys, now).0.contains_key(keys[i])),
        forall|k: Seq<u8>| !m.contains_key(k) ==> !(#[trigger] del_fold(m, keys, now).0.contains_key(k)),
    decreases keys.len(),
{
    if keys.len() > 0 {
        let rest = keys.drop_first();
        lemma_del_removes(m.remove(keys[0]), rest, now);
        assert(del_fold(m, keys, now).0 == del_fold(
            m.remove(keys[0]),
            rest,
            now,
        ).0);
        assert(!m.remove(keys[0]).contains_key(keys[0]));
        assert forall|k: Seq<u8>| !m.contains_key(k) implies !(#[trigger] m.remove(keys[0]).contains_key(k)) by {}
        assert forall|i: int| 0 <= i < keys.len() implies !(#[trigger] del_fold(m, keys, now).0.contains_key(keys[i])) by {
            if i > 0 {
                assert(keys[i] == rest[i - 1]);
            } else {
                assert(!m.remove(keys[0]).contains_key(keys[0]));
            }
        }
    }
}

/// `DEL` answers how many distinct keys of its list were live, however often
/// a key is repeated in the list.
pub proof fn law_del_counts_distinct_live(s: Store, keys: Seq<Seq<u8>>, now: u64)
    requires
        s.wf(),
    ensures
        apply_spec(s.pairs(), CommandModel::Del(keys), now).1 == RespModel::Integer(
            keys.to_set().filter(|k: Seq<u8>| live(s@, k, now)).len() as int,
        ),
{
    s.lemma_view();
    lemma_del_count(s@, keys, now);
}

proof fn lemma_del_count(m: Keyspace, keys: Seq<Seq<u8>>, now: u64)
    ensures
        keys.to_set().filter(|k: Seq<u8>| live(m, k, now)).finite(),
        del_fold(m, keys, now).1 == keys.to_set().filter(|k: Seq<u8>| live(m, k, now)).len(),
    decreases keys.len(),
{
    let b = keys.to_set().filter(|k: Seq<u8>| live(m, k, now));
    vstd::seq_lib::seq_to_set_is_finite(keys);
    keys.to_set().lemma_len_filter(|k: Seq<u8>| live(m, k, now));
    if keys.len() == 0 {
        assert(b =~= Set::empty());
    } else {
        let k0 = keys[0];
        let rest = keys.drop_first();
        let m2 = m.remove(k0);
        lemma_del_count(m2, rest, now);
        let a = rest.to_set().filter(|k: Seq<u8>| live(m2, k, now));
        assert(a =~= b.remove(k0)) by {
            assert forall|k: Seq<u8>| a.contains(k) <==> b.remove(k0).contains(k) by {
                if a.contains(k) {
                    let i = choose|i: int| 0 <= i < rest.len() && rest[i] == k;
                    assert(keys[i + 1] == k);
                }
                if b.remove(k0).contains(k) {
                    let i = choose|i: int| 0 <= i < keys.len() && keys[i] == k;
                    assert(i != 0);
                    assert(rest[i - 1] == k);
                }
            }
        }
        if live(m, k0, now) {
            assert(keys.to_set().contains(k0)) by {
                assert(keys[0] == k0);
            }
            assert(b.contains(k0));
        } else {
            assert(b.remove(k0) =~= b);
        }
    }
}

/// Active expiry is invisible to reads: after a sweep at `now`, every key is
/// live exactly when it was, with the same entry.
pub proof fn law_sweep_keeps_reads(before: Store, after: Store, now: u64, key: Seq<u8>)
    requires
        before.wf(),
        after.wf(),
        after@ == live_part(before@, now),
    ensures
        live(after@, key, now) == live(before@, key, now),
        live(before@, key, now) ==> after@[key] == before@[key],
        apply_spec(after.pairs(), CommandModel::Get(key), now).1 == apply_spec(
            before.pairs(),
            CommandModel::Get(key),
            now,
        ).1,
{
    before.lemma_view();
    after.lemma_view();
}

/// Storing distinct pairs one after the other gives the map they spell.
proof fn lemma_insert_all_distinct(s: Pairs)
    requires
        keys_distinct(s),
    ensures
        insert_all(Map::empty(), s) == pairs_map(s),
    decreases s.len(),
{
    if s.len() == 0 {
        assert(pairs_map(s) =~= Map::<Seq<u8>, EntryModel>::empty());
    } else {
        let init = s.drop_last();
        assert(keys_distinct(init));
        lemma_insert_all_distinct(init);
        if has_key(init, s.last().0) {
            let j = choose|j: int| 0 <= j < init.len() && init[j].0 == s.last().0;
            assert(s[j].0 == s[s.len() - 1].0);
        }
        lemma_pairs_push(init, s.last().0, s.last().1);
        assert(init.push(s.last()) =~= s);
    }
}

/// Loading a snapshot of a keyspace gives that keyspace back.
pub proof fn law_load_restores_snapshot(s: Store, snapshot: Pairs)
    requires
        s.wf(),
        snapshot == s.pairs(),
    ensures
        insert_all(Map::empty(), snapshot) == s@,
{
    s.lemma_view();
    lemma_insert_all_distinct(snapshot);
}

/// Pair `j` is live at `now`, UTF-8 and matched by `pat`.
pub open spec fn listed(s: Pairs, j: int, pat: Seq<u8>, now: u64) -> bool {
    !expired(s[j].1, now) && valid_utf8(s[j].0) && glob_spec(pat, s[j].0)
}

proof fn lemma_matching_keys(s: Pairs, pat: Seq<u8>, now: u64)
    requires
        keys_distinct(s),
    ensures
        forall|i: int|
            0 <= i < matching_keys(s, pat, now).len() ==> exists|j: int|
                0 <= j < s.len() && listed(s, j, pat, now) && #[trigger] matching_keys(s, pat, now)[i]
                    == RespModel::Bulk(Some(s[j].0)),
        forall|j: int|
            0 <= j < s.len() && #[trigger] listed(s, j, pat, now) ==> matching_keys(s, pat, now).contains(
                RespModel::Bulk(Some(s[j].0)),
            ),
        forall|a: int, b: int|
            0 <= a < b < matching_keys(s, pat, now).len() ==> matching_keys(s, pat, now)[a]
                != matching_keys(s, pat, now)[b],
    decreases s.len(),
{
    if s.len() > 0 {
        let init = s.drop_last();
        let last = s.len() - 1;
        assert(keys_distinct(init));
        lemma_matching_keys(init, pat, now);
        let mi = matching_keys(init, pat, now);
        let m = matching_keys(s, pat, now);
        assert forall|i: int| 0 <= i < m.len() implies exists|j: int|
            0 <= j < s.len() && listed(s, j, pat, now) && #[trigger] m[i] == RespModel::Bulk(
                Some(s[j].0),
            ) by {
            if i < mi.len() {
                assert(m[i] == mi[i]);
                let j = choose|j: int|
                    0 <= j < init.len() && listed(init, j, pat, now) && mi[i] == RespModel::Bulk(
                        Some(init[j].0),
                    );
                assert(s[j] == init[j]);
                assert(listed(s, j, pat, now));
                assert(0 <= j < s.len() && listed(s, j, pat, now) && m[i] == RespModel::Bulk(Some(s[j].0)));
            } else {
                assert(listed(s, last, pat, now));
                assert(m[i] == RespModel::Bulk(Some(s[last].0)));
            }
        }
        assert forall|j: int| 0 <= j < s.len() && #[trigger] listed(s, j, pat, now) implies m.contains(
            RespModel::Bulk(Some(s[j].0)),
        ) by {
            if j < last {
                assert(init[j] == s[j]);
                assert(listed(init, j, pat, now));
                let i = choose|i: int| 0 <= i < mi.len() && mi[i] == RespModel::Bulk(Some(init[j].0));
                assert(m[i] == mi[i]);
            } else {
                assert(m[m.len() - 1] == RespModel::Bulk(Some(s[last].0)));
            }
        }
        assert forall|a: int, b: int| 0 <= a < b < m.len() implies m[a] != m[b] by {
            if b >= mi.len() {
                let j = choose|j: int|
                    0 <= j < init.len() && listed(init, j, pat, now) && mi[a] == RespModel::Bulk(
                        Some(init[j].0),
                    );
                assert(s[j] == init[j]);
                assert(m[a] == mi[a]);
                assert(j != last);
            } else {
                assert(m[a] == mi[a] && m[b] == mi[b]);
            }
        }
    }
}

/// `KEYS` lists every key that is live, UTF-8 and matched by the pattern
/// (read as empty when it is not UTF-8), each once, and nothing else.
pub proof fn law_keys_lists_live_matches(s: Store, pattern: Seq<u8>, now: u64, k: Seq<u8>)
    requires
        s.wf(),
    ensures
        apply_spec(s.pairs(), CommandModel::Keys(pattern), now).1 matches RespModel::Array(
            Some(items),
        ) && (items.contains(RespModel::Bulk(Some(k))) <==> (live(s@, k, now) && valid_utf8(k)
            && glob_spec(keys_pattern(pattern), k))) && (forall|a: int, b: int|
            0 <= a < b < items.len() ==> items[a] != items[b]) && (forall|i: int|
            0 <= i < items.len() ==> (#[trigger] items[i]) is Bulk),
{
    s.lemma_view();
    let pairs = s.pairs();
    let pat = keys_pattern(pattern);
    lemma_matching_keys(pairs, pat, now);
    let items = matching_keys(pairs, pat, now);
    if items.contains(RespModel::Bulk(Some(k))) {
        let i = choose|i: int| 0 <= i < items.len() && items[i] == RespModel::Bulk(Some(k));
        let j = choose|j: int|
            0 <= j < pairs.len() && listed(pairs, j, pat, now) && items[i] == RespModel::Bulk(
                Some(pairs[j].0),
            );
        lemma_pairs_map_at(pairs, j);
    }
    if live(s@, k, now) && valid_utf8(k) && glob_spec(pat, k) {
        let j = choose|j: int| 0 <= j < pairs.len() && pairs[j].0 == k;
        lemma_pairs_map_at(pairs, j);
        assert(listed(pairs, j, pat, now));
    }
    assert forall|i: int| 0 <= i < items.len() implies (#[trigger] items[i]) is Bulk by {
        let j = choose|j: int|
            0 <= j < pairs.len() && listed(pairs, j, pat, now) && items[i] == RespModel::Bulk(
                Some(pairs[j].0),
            );
    }
}


/// `EXISTS` of one key agrees with `GET` at the same time: it answers 1
/// exactly when `GET` finds a value, and 0 when `GET` answers null (a key
/// whose deadline has been reached counts as absent for both).
pub proof fn law_exists_agrees_with_get(s: Store, key: Seq<u8>, now: u64)
    requires
        s.wf(),
    ensures
        apply_spec(s.pairs(), CommandModel::Exists(seq![key]), now).1 == RespModel::Integer(
            if apply_spec(s.pairs(), CommandModel::Get(key), now).1 matches RespModel::Bulk(Some(_)) {
                1
            } else {
                0
            },
        ),
        apply_spec(s.pairs(), CommandModel::Get(key), now).1 matches RespModel::Bulk(Some(_))
            || apply_spec(s.pairs(), CommandModel::Get(key), now).1 == RespModel::Bulk(None),
{
    let m = pairs_map(s.pairs());
    assert(seq![key].drop_first() =~= Seq::<Seq<u8>>::empty());
    assert(crate::store::apply::count_live(m, Seq::<Seq<u8>>::empty(), now) == 0);
}

proof fn lemma_count_live_concat(m: Keyspace, a: Seq<Seq<u8>>, b: Seq<Seq<u8>>, now: u64)
    ensures
        crate::store::apply::count_live(m, a + b, now) == crate::store::apply::count_live(m, a, now)
            + crate::store::apply::count_live(m, b, now),
    decreases a.len(),
{
    if a.len() > 0 {
        assert((a + b).drop_first() =~= a.drop_first() + b);
        assert((a + b)[0] == a[0]);
        lemma_count_live_concat(m, a.drop_first(), b, now);
    } else {
        assert(a + b =~= b);
    }
}

/// `EXISTS` counts key by key: on a list made of two lists it answers the sum
/// of its answers on each, so with `law_exists_agrees_with_get` it counts
/// the keys of the list (repeats included) that `GET` finds.
pub proof fn law_exists_adds_up(s: Store, a: Seq<Seq<u8>>, b: Seq<Seq<u8>>, now: u64)
    requires
        s.wf(),
    ensures
        apply_spec(s.pairs(), CommandModel::Exists(a + b), now).1 matches RespModel::Integer(n)
            && apply_spec(s.pairs(), CommandModel::Exists(a), now).1 matches RespModel::Integer(x)
            && apply_spec(s.pairs(), CommandModel::Exists(b), now).1 matches RespModel::Integer(y)
            && n == x + y,
{
    lemma_count_live_concat(pairs_map(s.pairs()), a, b, now);
}


/// `EXPIRE` on a key that `GET` finds always sets its deadline, whatever the
/// deadline was before: it answers 1, keeps the value, makes the deadline the
/// span's seconds after `now`, leaves every other key alone, and `TTL` then
/// answers the span's seconds (when they fit in an `i64`).
pub proof fn law_expire_sets_deadline(before: Store, after: Store, key: Seq<u8>, d: Ttl, now: u64)
    requires
        before.wf(),
        after.wf(),
        apply_spec(before.pairs(), CommandModel::Get(key), now).1 matches RespModel::Bulk(Some(_)),
        now + d.span_secs() <= u64::MAX,
        after@ == apply_spec(before.pairs(), CommandModel::Expire { key, ttl: d }, now).0,
    ensures
        apply_spec(before.pairs(), CommandModel::Expire { key, ttl: d }, now).1 == RespModel::Integer(
            1,
        ),
        after@.contains_key(key),
        after@[key].value == before@[key].value,
        after@[key].expires_at == Some((now + d.span_secs()) as u64),
        after@.remove(key) == before@.remove(key),
        0 < d.span_secs() <= i64::MAX ==> apply_spec(after.pairs(), CommandModel::Ttl(key), now).1
            == RespModel::Integer(d.span_secs() as int),
{
    before.lemma_view();
    after.lemma_view();
    lemma_ttl_reply(now, d.span_secs());
    assert(after@.remove(key) =~= before@.remove(key));
}

/// A `SET` that writes replaces the whole entry, whatever its condition: when
/// it answers `OK`, the key holds exactly the new value, with no deadline when
/// no span was given (so `GET` finds it and `TTL` answers -1) and otherwise
/// the span's seconds after `now` (which `TTL` then answers, when they fit in
/// an `i64`); every other key is left alone.
pub proof fn law_set_replaces_entry(
    before: Store,
    after: Store,
    key: Seq<u8>,
    value: Seq<u8>,
    ttl: Option<Ttl>,
    cond: SetCond,
    now: u64,
)
    requires
        before.wf(),
        after.wf(),
        ttl matches Some(d) ==> now + d.span_secs() <= u64::MAX,
        apply_spec(before.pairs(), CommandModel::SetKey { key, value, ttl, cond }, now).1
            == RespModel::Simple("OK"@),
        after@ == apply_spec(before.pairs(), CommandModel::SetKey { key, value, ttl, cond }, now).0,
    ensures
        after@ == before@.insert(
            key,
            EntryModel {
                value,
                expires_at: match ttl {
                    None => None,
                    Some(d) => Some((now + d.span_secs()) as u64),
                },
            },
        ),
        ttl is None ==> apply_spec(after.pairs(), CommandModel::Ttl(key), now).1
            == RespModel::Integer(-1),
        ttl is None ==> apply_spec(after.pairs(), CommandModel::Get(key), now).1 == RespModel::Bulk(
            Some(value),
        ),
        forall|d: Ttl|
            ttl == Some(d) && 0 < d.span_secs() <= i64::MAX ==> #[trigger] apply_spec(
                after.pairs(),
                CommandModel::Ttl(key),
                now,
            ).1 == RespModel::Integer(d.span_secs() as int),
{
    before.lemma_view();
    after.lemma_view();
    reveal_strlit("OK");
    if let Some(d) = ttl {
        lemma_ttl_reply(now, d.span_secs());
    }
}

/// The seconds left on a deadline `span` seconds after `now`, as `TTL`
/// computes them, are `span` when it fits in an `i64`.
proof fn lemma_ttl_reply(now: u64, span: nat)
    ensures
        now + span <= u64::MAX && span <= i64::MAX ==> ((((now + span) as u64) - now) as i64) as int
            == span,
{
}


/// `TTL` agrees with `GET`: a key that `GET` does not find (absent, or past
/// its deadline) has `TTL` -2; one that `GET` finds has -1 when it has no
/// deadline, and otherwise the seconds left, which are positive (when they
/// fit in an `i64`).
pub proof fn law_ttl_agrees_with_get(s: Store, key: Seq<u8>, now: u64)
    requires
        s.wf(),
    ensures
        apply_spec(s.pairs(), CommandModel::Get(key), now).1 == RespModel::Bulk(None) ==> apply_spec(
            s.pairs(),
            CommandModel::Ttl(key),
            now,
        ).1 == RespModel::Integer(-2),
        apply_spec(s.pairs(), CommandModel::Get(key), now).1 matches RespModel::Bulk(Some(_)) ==> (
        s@[key].expires_at is None ==> apply_spec(s.pairs(), CommandModel::Ttl(key), now).1
            == RespModel::Integer(-1)),
        apply_spec(s.pairs(), CommandModel::Get(key), now).1 matches RespModel::Bulk(Some(_)) ==> (
        forall|at: u64|
            s@[key].expires_at == Some(at) && at - now <= i64::MAX ==> #[trigger] apply_spec(
                s.pairs(),
                CommandModel::Ttl(key),
                now,
            ).1 == RespModel::Integer(at - now) && at - now > 0),
{
    s.lemma_view();
}


/// `DEL` of one key agrees with `GET`: it answers 1 exactly when `GET` finds
/// the key at that time and 0 otherwise, and afterwards `GET` finds nothing
/// there while every other key is left alone.
pub proof fn law_del_agrees_with_get(before: Store, after: Store, key: Seq<u8>, now: u64)
    requires
        before.wf(),
        after.wf(),
        after@ == apply_spec(before.pairs(), CommandModel::Del(seq![key]), now).0,
    ensures
        apply_spec(before.pairs(), CommandModel::Del(seq![key]), now).1 == RespModel::Integer(
            if apply_spec(before.pairs(), CommandModel::Get(key), now).1 matches RespModel::Bulk(
                Some(_),
            ) {
                1
            } else {
                0
            },
        ),
        apply_spec(after.pairs(), CommandModel::Get(key), now).1 == RespModel::Bulk(None),
        after@ == before@.remove(key),
{
    before.lemma_view();
    after.lemma_view();
    let m = before@;
    assert(seq![key].drop_first() =~= Seq::<Seq<u8>>::empty());
    assert(del_fold(m.remove(key), Seq::<Seq<u8>>::empty(), now) == (m.remove(key), 0int));
}


/// `INCR` adds one to the counter that `GET` reads: when `GET` finds the
/// decimal text of `n` (below `i64::MAX`), `INCR` answers `n + 1` and `GET`
/// then finds the decimal text of `n + 1`, with no deadline (`TTL` -1); when
/// `GET` finds nothing, `INCR` answers 1 and `GET` then finds `1`.
pub proof fn law_incr_adds_one(before: Store, after: Store, key: Seq<u8>, n: int, now: u64)
    requires
        before.wf(),
        after.wf(),
        i64::MIN <= n < i64::MAX,
        after@ == apply_spec(before.pairs(), CommandModel::Incr(key), now).0,
    ensures
        apply_spec(before.pairs(), CommandModel::Get(key), now).1 == RespModel::Bulk(Some(decimal(n)))
            ==> apply_spec(before.pairs(), CommandModel::Incr(key), now).1 == RespModel::Integer(n + 1)
            && apply_spec(after.pairs(), CommandModel::Get(key), now).1 == RespModel::Bulk(
            Some(decimal(n + 1)),
        ) && apply_spec(after.pairs(), CommandModel::Ttl(key), now).1 == RespModel::Integer(-1),
        apply_spec(before.pairs(), CommandModel::Get(key), now).1 == RespModel::Bulk(None)
            ==> apply_spec(before.pairs(), CommandModel::Incr(key), now).1 == RespModel::Integer(1)
            && apply_spec(after.pairs(), CommandModel::Get(key), now).1 == RespModel::Bulk(
            Some(decimal(1)),
        ),
{
    before.lemma_view();
    after.lemma_view();
    crate::protocol::laws::lemma_decimal_reads_back(n);
}

} // verus!
