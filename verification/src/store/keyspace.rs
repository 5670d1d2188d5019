use crate::buffers::bytes_view;
use crate::store::entry::{expired, Entry, EntryModel};
use crate::text::bytes_eq;
use bytes::Bytes;
use vstd::prelude::*;

verus! {

/// Key/entry pairs, in store order.
pub type Pairs = Seq<(Seq<u8>, EntryModel)>;

/// No key occurs twice.
pub open spec fn keys_distinct(s: Pairs) -> bool {
    forall|i: int, j: int| 0 <= i < s.len() && 0 <= j < s.len() && i != j ==> s[i].0 != s[j].0
}

/// Some pair has key `k`.
pub open spec fn has_key(s: Pairs, k: Seq<u8>) -> bool {
    exists|i: int| 0 <= i < s.len() && s[i].0 == k
}

/// The map that the pairs spell.
pub open spec fn pairs_map(s: Pairs) -> Map<Seq<u8>, EntryModel> {
    Map::new(
        |k: Seq<u8>| has_key(s, k),
        |k: Seq<u8>| s[choose|i: int| 0 <= i < s.len() && s[i].0 == k].1,
    )
}

/// With distinct keys, the map holds each pair.
pub proof fn lemma_pairs_map_at(s: Pairs, i: int)
    requires
        keys_distinct(s),
        0 <= i < s.len(),
    ensures
        pairs_map(s).contains_key(s[i].0),
        pairs_map(s)[s[i].0] == s[i].1,
{
    let k = s[i].0;
    assert(has_key(s, k));
    let j = choose|j: int| 0 <= j < s.len() && s[j].0 == k;
    assert(j == i);
}

/// Adding a pair with a new key adds it to the map.
pub proof fn lemma_pairs_push(s: Pairs, k: Seq<u8>, v: EntryModel)
    requires
        keys_distinct(s),
        !has_key(s, k),
    ensures
        keys_distinct(s.push((k, v))),
        pairs_map(s.push((k, v))) == pairs_map(s).insert(k, v),
{
    let t = s.push((k, v));
    assert(keys_distinct(t));
    assert forall|x: Seq<u8>| #[trigger] pairs_map(t).contains_key(x) == pairs_map(s).insert(
        k,
        v,
    ).contains_key(x) by {
        if has_key(s, x) {
            let i = choose|i: int| 0 <= i < s.len() && s[i].0 == x;
            assert(t[i].0 == x);
        }
        if has_key(t, x) && x != k {
            let i = choose|i: int| 0 <= i < t.len() && t[i].0 == x;
            assert(s[i].0 == x);
        }
        if x == k {
            assert(t[s.len() as int].0 == k);
        }
    }
    assert forall|x: Seq<u8>| pairs_map(t).contains_key(x) implies pairs_map(t)[x] == pairs_map(
        s,
    ).insert(k, v)[x] by {
        let i = choose|i: int| 0 <= i < t.len() && t[i].0 == x;
        lemma_pairs_map_at(t, i);
        if x != k {
            assert(s[i].0 == x);
            lemma_pairs_map_at(s, i);
        }
    }
    assert(pairs_map(t) =~= pairs_map(s).insert(k, v));
}

/// Replacing the entry of a pair replaces it in the map.
pub proof fn lemma_pairs_update(s: Pairs, i: int, v: EntryModel)
    requires
        keys_distinct(s),
        0 <= i < s.len(),
    ensures
        keys_distinct(s.update(i, (s[i].0, v))),
        pairs_map(s.update(i, (s[i].0, v))) == pairs_map(s).insert(s[i].0, v),
{
    let k = s[i].0;
    let t = s.update(i, (k, v));
    assert(keys_distinct(t));
    assert forall|x: Seq<u8>| #[trigger] pairs_map(t).contains_key(x) == pairs_map(s).insert(
        k,
        v,
    ).contains_key(x) by {
        if has_key(s, x) {
            let j = choose|j: int| 0 <= j < s.len() && s[j].0 == x;
            assert(t[j].0 == x);
        }
        if has_key(t, x) {
            let j = choose|j: int| 0 <= j < t.len() && t[j].0 == x;
            assert(s[j].0 == x);
        }
    }
    assert forall|x: Seq<u8>| pairs_map(t).contains_key(x) implies pairs_map(t)[x] == pairs_map(
        s,
    ).insert(k, v)[x] by {
        let j = choose|j: int| 0 <= j < t.len() && t[j].0 == x;
        lemma_pairs_map_at(t, j);
        if x != k {
            assert(s[j].0 == x);
            lemma_pairs_map_at(s, j);
        }
    }
    assert(pairs_map(t) =~= pairs_map(s).insert(k, v));
}

/// Removing a pair removes its key from the map.
pub proof fn lemma_pairs_remove(s: Pairs, i: int)
    requires
        keys_distinct(s),
        0 <= i < s.len(),
    ensures
        keys_distinct(s.remove(i)),
        pairs_map(s.remove(i)) == pairs_map(s).remove(s[i].0),
{
    let k = s[i].0;
    let t = s.remove(i);
    assert forall|a: int, b: int| 0 <= a < t.len() && 0 <= b < t.len() && a != b implies t[a].0
        != t[b].0 by {
        let a2 = if a < i { a } else { a + 1 };
        let b2 = if b < i { b } else { b + 1 };
        assert(t[a] == s[a2] && t[b] == s[b2]);
    }
    assert forall|x: Seq<u8>| #[trigger] pairs_map(t).contains_key(x) == pairs_map(s).remove(
        k,
    ).contains_key(x) by {
        if has_key(s, x) && x != k {
            let j = choose|j: int| 0 <= j < s.len() && s[j].0 == x;
            if j < i {
                assert(t[j].0 == x);
            } else {
                assert(j != i);
                assert(t[j - 1].0 == x);
            }
        }
        if has_key(t, x) {
            let j = choose|j: int| 0 <= j < t.len() && t[j].0 == x;
            let j2 = if j < i { j } else { j + 1 };
            assert(s[j2].0 == x);
            assert(j2 != i);
        }
    }
    assert forall|x: Seq<u8>| pairs_map(t).contains_key(x) implies pairs_map(t)[x] == pairs_map(
        s,
    ).remove(k)[x] by {
        let j = choose|j: int| 0 <= j < t.len() && t[j].0 == x;
        lemma_pairs_map_at(t, j);
        let j2 = if j < i { j } else { j + 1 };
        assert(s[j2] == t[j]);
        lemma_pairs_map_at(s, j2);
    }
    assert(pairs_map(t) =~= pairs_map(s).remove(k));
}

/// The map with the entries that have expired at `now` left out.
pub open spec fn live_part(m: Map<Seq<u8>, EntryModel>, now: u64) -> Map<Seq<u8>, EntryModel> {
    Map::new(|k: Seq<u8>| m.contains_key(k) && !expired(m[k], now), |k: Seq<u8>| m[k])
}

/// The map that results from storing the pairs one after the other (a later
/// pair wins over an earlier one with the same key).
pub open spec fn insert_all(m: Map<Seq<u8>, EntryModel>, s: Pairs) -> Map<Seq<u8>, EntryModel>
    decreases s.len(),
{
    if s.len() == 0 {
        m
    } else {
        insert_all(m, s.drop_last()).insert(s.last().0, s.last().1)
    }
}

/// The keyspace: key/entry pairs, each key at most once.
pub struct Store {
    entries: Vec<(Bytes, Entry)>,
}

impl Store {
    /// The pairs, as models, in store order.
    pub closed spec fn pairs(&self) -> Pairs {
        self.entries@.map_values(|p: (Bytes, Entry)| (bytes_view(p.0), p.1.model()))
    }

    /// The store's invariant: no key is held twice.
    pub closed spec fn wf(&self) -> bool {
        keys_distinct(self.pairs())
    }

    /// The keyspace as a map from key bytes to entries.
    pub closed spec fn view(&self) -> Map<Seq<u8>, EntryModel> {
        pairs_map(self.pairs())
    }

    /// The keyspace's invariant in terms of its pairs, and the map it spells.
    pub proof fn lemma_view(&self)
        ensures
            self.wf() == keys_distinct(self.pairs()),
            self@ == pairs_map(self.pairs()),
    {
    }

    /// The number of keys held.
    pub(crate) fn len(&self) -> (r: usize)
        ensures
            r == self.pairs().len(),
    {
        self.entries.len()
    }

    /// The `i`-th pair in store order.
    pub(crate) fn pair_at(&self, i: usize) -> (r: (&Bytes, &Entry))
        requires
            i < self.pairs().len(),
        ensures
            (bytes_view(*r.0), r.1.model()) == self.pairs()[i as int],
    {
        let p = &self.entries[i];
        (&p.0, &p.1)
    }

    /// An empty keyspace.
    pub fn new() -> (r: Store)
        ensures
            r.wf(),
            r@ == Map::<Seq<u8>, EntryModel>::empty(),
    {
        let r = Store { entries: Vec::new() };
        assert(r@ =~= Map::<Seq<u8>, EntryModel>::empty());
        r
    }

    /// The index of the pair with key `key`, if any.
    pub(crate) fn find(&self, key: &[u8]) -> (r: Option<usize>)
        requires
            self.wf(),
        ensures
            match r {
                Some(i) => i < self.pairs().len() && self.pairs()[i as int].0 == key@
                    && self@.contains_key(key@),
                None => !self@.contains_key(key@),
            },
    {
        let mut i: usize = 0;
        while i < self.entries.len()
            invariant
                i <= self.entries.len(),
                self.wf(),
                forall|j: int| 0 <= j < i ==> self.pairs()[j].0 != key@,
            decreases self.entries.len() - i,
        {
            if bytes_eq(&*self.entries[i].0, key) {
                proof {
                    lemma_pairs_map_at(self.pairs(), i as int);
                }
                return Some(i);
            }
            i = i + 1;
        }
        proof {
            if has_key(self.pairs(), key@) {
                let j = choose|j: int| 0 <= j < self.pairs().len() && self.pairs()[j].0 == key@;
                assert(false);
            }
        }
        None
    }

    /// The entry stored under `key`.
    pub(crate) fn get(&self, key: &[u8]) -> (r: Option<&Entry>)
        requires
            self.wf(),
        ensures
            match r {
                Some(e) => self@.contains_key(key@) && self@[key@] == e.model(),
                None => !self@.contains_key(key@),
            },
    {
        match self.find(key) {
            Some(i) => {
                proof {
                    lemma_pairs_map_at(self.pairs(), i as int);
                }
                Some(&self.entries[i].1)
            },
            None => None,
        }
    }

    /// Stores `e` under `key`, replacing any entry it had.
    pub(crate) fn put(&mut self, key: Bytes, e: Entry)
        requires
            old(self).wf(),
        ensures
            final(self).wf(),
            final(self)@ == old(self)@.insert(bytes_view(key), e.model()),
    {
        let ghost s = self.pairs();
        match self.find(&*key) {
            Some(i) => {
                proof {
                    lemma_pairs_update(s, i as int, e.model());
                }
                self.entries.set(i, (key, e));
                assert(self.pairs() =~= s.update(i as int, (s[i as int].0, e.model())));
            },
            None => {
                proof {
                    if has_key(s, bytes_view(key)) {
                        let j = choose|j: int| 0 <= j < s.len() && s[j].0 == bytes_view(key);
                        lemma_pairs_map_at(s, j);
                    }
                    lemma_pairs_push(s, bytes_view(key), e.model());
                }
                self.entries.push((key, e));
                assert(self.pairs() =~= s.push((bytes_view(key), e.model())));
            },
        }
    }

    /// Removes the entry stored under `key` and hands it back.
    pub(crate) fn take(&mut self, key: &[u8]) -> (r: Option<Entry>)
        requires
            old(self).wf(),
        ensures
            final(self).wf(),
            final(self)@ == old(self)@.remove(key@),
            match r {
                Some(e) => old(self)@.contains_key(key@) && old(self)@[key@] == e.model(),
                None => !old(self)@.contains_key(key@),
            },
    {
        let ghost s = self.pairs();
        match self.find(key) {
            Some(i) => {
                proof {
                    lemma_pairs_map_at(s, i as int);
                    lemma_pairs_remove(s, i as int);
                }
                let (_, e) = self.entries.remove(i);
                assert(self.pairs() =~= s.remove(i as int));
                Some(e)
            },
            None => {
                assert(self@.remove(key@) =~= self@);
                None
            },
        }
    }
}

impl Store {
    /// Active expiry: drops every entry whose deadline `now` has reached.
    pub fn sweep_expired(&mut self, now: u64)
        requires
            old(self).wf(),
        ensures
            final(self).wf(),
            final(self)@ == live_part(old(self)@, now),
    {
        let ghost s = self.pairs();
        let mut kept: Vec<(Bytes, Entry)> = Vec::new();
        let mut i: usize = 0;
        while i < self.entries.len()
            invariant
                i <= self.entries.len(),
                s == self.pairs(),
                keys_distinct(s),
                keys_distinct(kept@.map_values(|p: (Bytes, Entry)| (bytes_view(p.0), p.1.model()))),
                pairs_map(kept@.map_values(|p: (Bytes, Entry)| (bytes_view(p.0), p.1.model())))
                    == live_part(pairs_map(s.take(i as int)), now),
            decreases self.entries.len() - i,
        {
            let ghost before = kept@.map_values(|p: (Bytes, Entry)| (bytes_view(p.0), p.1.model()));
            let ghost k = s[i as int].0;
            let ghost v = s[i as int].1;
            proof {
                assert(s.take(i + 1) =~= s.take(i as int).push((k, v)));
                assert(keys_distinct(s.take(i as int)));
                if has_key(s.take(i as int), k) {
                    let j = choose|j: int| 0 <= j < s.take(i as int).len() && s.take(i as int)[j].0 == k;
                    assert(s[j].0 == k);
                }
                lemma_pairs_push(s.take(i as int), k, v);
            }
            let (key, entry) = self.pair_at(i);
            if !entry.is_expired(now) {
                let copy = Entry { value: entry.value.clone(), expires_at: entry.expires_at };
                proof {
                    if has_key(before, k) {
                        let j = choose|j: int| 0 <= j < before.len() && before[j].0 == k;
                        lemma_pairs_map_at(before, j);
                    }
                    lemma_pairs_push(before, k, v);
                }
                kept.push((key.clone(), copy));
                proof {
                    let after = kept@.map_values(|p: (Bytes, Entry)| (bytes_view(p.0), p.1.model()));
                    assert(after =~= before.push((k, v)));
                    assert(live_part(pairs_map(s.take(i + 1)), now) =~= live_part(
                        pairs_map(s.take(i as int)),
                        now,
                    ).insert(k, v));
                }
            } else {
                proof {
                    assert(live_part(pairs_map(s.take(i + 1)), now) =~= live_part(
                        pairs_map(s.take(i as int)),
                        now,
                    ));
                }
            }
            i = i + 1;
        }
        assert(s.take(i as int) =~= s);
        self.entries = kept;
    }

    /// A copy of every key and entry, in store order.
    pub fn snapshot(&self) -> (r: Vec<(Bytes, Entry)>)
        ensures
            r@.map_values(|p: (Bytes, Entry)| (bytes_view(p.0), p.1.model())) == self.pairs(),
    {
        let mut out: Vec<(Bytes, Entry)> = Vec::new();
        let mut i: usize = 0;
        while i < self.entries.len()
            invariant
                i <= self.entries.len(),
                out@.map_values(|p: (Bytes, Entry)| (bytes_view(p.0), p.1.model())) == self.pairs().take(i as int),
            decreases self.entries.len() - i,
        {
            let ghost before = out@.map_values(|p: (Bytes, Entry)| (bytes_view(p.0), p.1.model()));
            let (key, entry) = self.pair_at(i);
            let copy = (key.clone(), Entry { value: entry.value.clone(), expires_at: entry.expires_at });
            assert((bytes_view(copy.0), copy.1.model()) == self.pairs()[i as int]);
            out.push(copy);
            assert(out@.map_values(|p: (Bytes, Entry)| (bytes_view(p.0), p.1.model())) =~= before.push(self.pairs()[i as int]));
            assert(self.pairs().take(i + 1) =~= self.pairs().take(i as int).push(self.pairs()[i as int]));
            i = i + 1;
        }
        assert(self.pairs().take(i as int) =~= self.pairs());
        out
    }

    /// Replaces the whole keyspace with the given pairs (a later pair wins
    /// over an earlier one with the same key).
    pub fn load(&mut self, data: Vec<(Bytes, Entry)>)
        ensures
            final(self).wf(),
            final(self)@ == insert_all(
                Map::empty(),
                data@.map_values(|p: (Bytes, Entry)| (bytes_view(p.0), p.1.model())),
            ),
    {
        let ghost d = data@.map_values(|p: (Bytes, Entry)| (bytes_view(p.0), p.1.model()));
        *self = Store::new();
        let mut i: usize = 0;
        while i < data.len()
            invariant
                i <= data.len(),
                d == data@.map_values(|p: (Bytes, Entry)| (bytes_view(p.0), p.1.model())),
                self.wf(),
                self@ == insert_all(Map::empty(), d.take(i as int)),
            decreases data.len() - i,
        {
            let key = data[i].0.clone();
            let entry = Entry { value: data[i].1.value.clone(), expires_at: data[i].1.expires_at };
            self.put(key, entry);
            assert(d.take(i + 1).drop_last() =~= d.take(i as int));
            i = i + 1;
        }
        assert(d.take(i as int) =~= d);
    }
}

} // verus!
