//! The executable cache engine. Every public operation is proved to refine
//! the transition functions of [`crate::model`] and to preserve the
//! cross-structure invariants [`crate::model::wf`].
use vstd::prelude::*;

use crate::clock::now_millis;
use crate::model::{
    contains_key, empty_model, entry_of, index_contains, insert_pair, insert_pos, lemma_delete_wf,
    lemma_entry_idx, lemma_evict_step_eq, lemma_gc_props, lemma_gc_step_eq, lemma_insert_pos,
    lemma_pair_idx, lemma_set_props, lemma_total_size_nonneg, lemma_total_size_remove,
    remove_pair, spec_delete, spec_evict, spec_gc, spec_get, spec_insert, spec_set,
    unique_pair_keys, wf, CacheModel, EntryModel, PairModel,
};

verus! {

/// One stored entry: the owned key, the value bytes, the insertion instant
/// and the optional expiry instant (milliseconds).
pub struct Entry {
    key: String,
    data: Vec<u8>,
    touch: u64,
    expiry: Option<u64>,
}

impl View for Entry {
    type V = EntryModel;

    closed spec fn view(&self) -> EntryModel {
        EntryModel {
            key: self.key@,
            data: self.data@,
            touch: self.touch as int,
            expiry: match self.expiry {
                Some(t) => Some(t as int),
                None => None,
            },
        }
    }
}

/// One element of a secondary index: an instant and the key it points at.
pub struct IndexPair {
    instant: u64,
    key: String,
}

impl View for IndexPair {
    type V = PairModel;

    closed spec fn view(&self) -> PairModel {
        PairModel { instant: self.instant as int, key: self.key@ }
    }
}

/// The cache: the primary table, the recency index (ascending insertion
/// instant, ties in insertion order), the expiry index (ascending expiry
/// instant), the capacity and the byte counter.
pub struct Memcached {
    limit: usize,
    current_size: usize,
    cache: Vec<Entry>,
    keys_by_touch: Vec<IndexPair>,
    keys_by_ttl: Vec<IndexPair>,
}

impl View for Memcached {
    type V = CacheModel;

    closed spec fn view(&self) -> CacheModel {
        CacheModel {
            limit: self.limit as int,
            size: self.current_size as int,
            entries: self.cache@.map_values(|e: Entry| e@),
            by_touch: self.keys_by_touch@.map_values(|p: IndexPair| p@),
            by_ttl: self.keys_by_ttl@.map_values(|p: IndexPair| p@),
        }
    }
}

impl Memcached {
    /// A fresh, empty cache with the given byte capacity.
    pub fn new(limit: usize) -> (r: Memcached)
        ensures
            r@ == empty_model(limit as int),
            wf(r@),
    {
        let r = Memcached {
            limit,
            current_size: 0,
            cache: Vec::new(),
            keys_by_touch: Vec::new(),
            keys_by_ttl: Vec::new(),
        };
        proof {
            assert(r@.entries =~= empty_model(limit as int).entries);
            assert(r@.by_touch =~= empty_model(limit as int).by_touch);
            assert(r@.by_ttl =~= empty_model(limit as int).by_ttl);
            assert(r@ =~= empty_model(limit as int));
        }
        r
    }

    /// The index of the entry holding `key`, if any.
    fn find_entry(&self, key: &String) -> (r: Option<usize>)
        ensures
            match r {
                Some(i) => i < self.cache@.len() && self@.entries[i as int].key == key@,
                None => !contains_key(self@.entries, key@),
            },
    {
        let ghost entries = self@.entries;
        let n: usize = self.cache.len();
        for i in 0..n
            invariant
                n == self.cache@.len(),
                entries == self@.entries,
                forall|j: int| 0 <= j < i ==> entries[j].key != key@,
        {
            if self.cache[i].key.eq(key) {
                return Some(i);
            }
        }
        None
    }

    /// Removes the entry for `key` from the table, both indexes and the size
    /// counter, returning its value bytes; absence changes nothing.
    pub fn delete(&mut self, key: &str) -> (r: Option<Vec<u8>>)
        requires
            wf(old(self)@),
        ensures
            wf(final(self)@),
            final(self)@ == spec_delete(old(self)@, key@).0,
            r.deep_view() == spec_delete(old(self)@, key@).1,
    {
        let ghost m0 = self@;
        proof {
            lemma_delete_wf(m0, key@);
        }
        let k: String = key.to_owned();
        match self.find_entry(&k) {
            None => {
                proof {
                    assert(spec_delete(m0, key@).0 =~= m0);
                }
                None
            },
            Some(i) => {
                proof {
                    lemma_entry_idx(m0.entries, i as int);
                    lemma_total_size_remove(m0.entries, i as int);
                    lemma_total_size_nonneg(m0.entries.remove(i as int));
                }
                let e: Entry = self.cache.remove(i);
                proof {
                    assert(self.cache@.map_values(|en: Entry| en@) =~= m0.entries.remove(
                        i as int,
                    ));
                    assert(e@ == m0.entries[i as int]);
                }
                self.remove_from_touch(&k);
                if e.expiry.is_some() {
                    self.remove_from_ttl(&k);
                }
                self.current_size = self.current_size - e.data.len();
                proof {
                    assert(self@ =~= spec_delete(m0, key@).0);
                    assert(e.data.deep_view() =~= e.data@);
                }
                Some(e.data)
            },
        }
    }

    /// Removes `key`'s pair from the recency index.
    fn remove_from_touch(&mut self, key: &String)
        requires
            unique_pair_keys(old(self)@.by_touch),
        ensures
            final(self)@.by_touch == remove_pair(old(self)@.by_touch, key@),
            final(self)@.limit == old(self)@.limit,
            final(self)@.size == old(self)@.size,
            final(self)@.entries == old(self)@.entries,
            final(self)@.by_ttl == old(self)@.by_ttl,
    {
        remove_pair_by_key(&mut self.keys_by_touch, key);
    }

    /// Removes `key`'s pair from the expiry index.
    fn remove_from_ttl(&mut self, key: &String)
        requires
            unique_pair_keys(old(self)@.by_ttl),
        ensures
            final(self)@.by_ttl == remove_pair(old(self)@.by_ttl, key@),
            final(self)@.limit == old(self)@.limit,
            final(self)@.size == old(self)@.size,
            final(self)@.entries == old(self)@.entries,
            final(self)@.by_touch == old(self)@.by_touch,
    {
        remove_pair_by_key(&mut self.keys_by_ttl, key);
    }

    /// The value bytes under `key` as visible at instant `now`: the entry
    /// must be resident and not yet expired. Reads mutate nothing.
    pub fn get_at(&self, key: &str, now: u64) -> (r: Option<Vec<u8>>)
        requires
            wf(self@),
        ensures
            r.deep_view() == spec_get(self@, key@, now as int),
    {
        let k: String = key.to_owned();
        match self.find_entry(&k) {
            None => None,
            Some(i) => {
                proof {
                    lemma_entry_idx(self@.entries, i as int);
                }
                let e: &Entry = &self.cache[i];
                if let Some(t) = e.expiry {
                    if t < now {
                        return None;
                    }
                }
                let out = copy_bytes(e.data.as_slice());
                proof {
                    assert(out.deep_view() =~= entry_of(self@.entries, key@).data);
                }
                Some(out)
            },
        }
    }

    /// The value bytes under `key`, judged against the clock sampled at the
    /// call: absent when the key is not resident or its expiry has passed.
    pub fn get(&self, key: &str) -> (r: Option<Vec<u8>>)
        requires
            wf(self@),
        ensures
            exists|now: int| r.deep_view() == spec_get(self@, key@, now),
            !contains_key(self@.entries, key@) ==> r is None,
            r matches Some(v) ==> contains_key(self@.entries, key@) && v@ == entry_of(
                self@.entries,
                key@,
            ).data,
            contains_key(self@.entries, key@) && entry_of(self@.entries, key@).expiry is None
                ==> (r matches Some(v) && v@ == entry_of(self@.entries, key@).data),
    {
        let now: u64 = now_millis();
        let r = self.get_at(key, now);
        proof {
            assert(r.deep_view() == spec_get(self@, key@, now as int));
            assert(exists|n: int| r.deep_view() == spec_get(self@, key@, n));
            if r is Some {
                assert(r.deep_view() == Some(r->0.deep_view()));
                assert(r->0.deep_view() =~= r->0@);
            }
        }
        r
    }
}

impl Memcached {
    /// The sum of the value lengths of all resident entries, in bytes.
    pub fn current_size(&self) -> (r: usize)
        ensures
            r as int == self@.size,
    {
        self.current_size
    }

    /// The configured capacity, in bytes.
    pub fn limit(&self) -> (r: usize)
        ensures
            r as int == self@.limit,
    {
        self.limit
    }

    /// How many entries are resident (expired-but-uncollected ones
    /// included).
    pub fn store_len(&self) -> (r: usize)
        ensures
            r as int == self@.entries.len(),
    {
        self.cache.len()
    }

    /// How many pairs the recency index holds.
    pub fn touch_index_len(&self) -> (r: usize)
        ensures
            r as int == self@.by_touch.len(),
    {
        self.keys_by_touch.len()
    }

    /// How many pairs the expiry index holds.
    pub fn ttl_index_len(&self) -> (r: usize)
        ensures
            r as int == self@.by_ttl.len(),
    {
        self.keys_by_ttl.len()
    }

    /// The insertion instant recorded for `key`, if the key is resident.
    pub fn entry_touch(&self, key: &str) -> (r: Option<u64>)
        requires
            wf(self@),
        ensures
            match r {
                Some(t) => contains_key(self@.entries, key@) && entry_of(
                    self@.entries,
                    key@,
                ).touch == t as int,
                None => !contains_key(self@.entries, key@),
            },
    {
        let k: String = key.to_owned();
        match self.find_entry(&k) {
            Some(i) => {
                proof {
                    lemma_entry_idx(self@.entries, i as int);
                }
                Some(self.cache[i].touch)
            },
            None => None,
        }
    }

    /// The expiry instant recorded for `key`: absent when the key is not
    /// resident or was stored without a time-to-live.
    pub fn entry_expiry(&self, key: &str) -> (r: Option<u64>)
        requires
            wf(self@),
        ensures
            match r {
                Some(t) => contains_key(self@.entries, key@) && entry_of(
                    self@.entries,
                    key@,
                ).expiry == Some(t as int),
                None => !contains_key(self@.entries, key@) || entry_of(
                    self@.entries,
                    key@,
                ).expiry is None,
            },
    {
        let k: String = key.to_owned();
        match self.find_entry(&k) {
            Some(i) => {
                proof {
                    lemma_entry_idx(self@.entries, i as int);
                }
                self.cache[i].expiry
            },
            None => None,
        }
    }

    /// The pair at position `i` of the recency index, oldest first.
    pub fn touch_index_entry(&self, i: usize) -> (r: Option<(u64, String)>)
        ensures
            match r {
                Some(p) => i < self@.by_touch.len() && self@.by_touch[i as int]
                    == (PairModel { instant: p.0 as int, key: p.1@ }),
                None => i >= self@.by_touch.len(),
            },
    {
        if i < self.keys_by_touch.len() {
            let p: &IndexPair = &self.keys_by_touch[i];
            Some((p.instant, p.key.clone()))
        } else {
            None
        }
    }

    /// The pair at position `i` of the expiry index, soonest first.
    pub fn ttl_index_entry(&self, i: usize) -> (r: Option<(u64, String)>)
        ensures
            match r {
                Some(p) => i < self@.by_ttl.len() && self@.by_ttl[i as int]
                    == (PairModel { instant: p.0 as int, key: p.1@ }),
                None => i >= self@.by_ttl.len(),
            },
    {
        if i < self.keys_by_ttl.len() {
            let p: &IndexPair = &self.keys_by_ttl[i];
            Some((p.instant, p.key.clone()))
        } else {
            None
        }
    }
}

/// The ghost image of an optional time-to-live given in milliseconds.
pub open spec fn ttl_view(ttl: Option<u64>) -> Option<int> {
    match ttl {
        Some(d) => Some(d as int),
        None => None,
    }
}

impl Memcached {
    /// Evicts the single oldest entry — the first key of the recency index —
    /// through the full delete path; reports whether anything was evicted
    /// (false only when the cache is empty).
    fn remove_oldest(&mut self) -> (r: bool)
        requires
            wf(old(self)@),
        ensures
            wf(final(self)@),
            old(self)@.by_touch.len() == 0 ==> final(self)@ == old(self)@ && !r,
            old(self)@.by_touch.len() > 0 ==> final(self)@ == spec_delete(
                old(self)@,
                old(self)@.by_touch[0].key,
            ).0 && r,
    {
        let ghost m0 = self@;
        if self.keys_by_touch.len() == 0 {
            return false;
        }
        let k: String = self.keys_by_touch[0].key.clone();
        proof {
            assert(k@ == m0.by_touch[0].key);
            assert(contains_key(m0.entries, m0.by_touch[0].key));
        }
        let r = self.delete(k.as_str());
        proof {
            if r is None {
                assert(spec_delete(m0, k@).1 is Some);
            }
        }
        r.is_some()
    }

    /// Reclaims every entry whose expiry instant lies strictly before `now`:
    /// the expired prefix of the expiry index is drained, each key deleted
    /// in full; entries expiring at or after `now` are untouched.
    pub fn collect_garbage_at(&mut self, now: u64)
        requires
            wf(old(self)@),
        ensures
            wf(final(self)@),
            final(self)@ == spec_gc(old(self)@, now as int),
    {
        let ghost m0 = self@;
        loop
            invariant
                wf(self@),
                spec_gc(self@, now as int) == spec_gc(m0, now as int),
            ensures
                wf(self@),
                spec_gc(self@, now as int) == spec_gc(m0, now as int),
                self@.by_ttl.len() == 0 || self@.by_ttl[0].instant >= now as int,
            decreases self.keys_by_ttl@.len(),
        {
            if self.keys_by_ttl.len() == 0 {
                break ;
            }
            if self.keys_by_ttl[0].instant >= now {
                break ;
            }
            let ghost m = self@;
            let k: String = self.keys_by_ttl[0].key.clone();
            proof {
                assert(k@ == m.by_ttl[0].key);
                lemma_gc_step_eq(m);
                assert(entry_of(m.entries, k@).expiry is Some);
            }
            let _ = self.delete(k.as_str());
            proof {
                assert(self@ == crate::model::gc_step(m));
                assert(self@.by_ttl.len() == m.by_ttl.len() - 1);
            }
        }
        proof {
            assert(spec_gc(self@, now as int) == self@);
        }
    }

    /// Reclaims every entry already expired at the clock sampled at the
    /// call. Idempotent while nothing else mutates the cache.
    pub fn collect_garbage(&mut self)
        requires
            wf(old(self)@),
        ensures
            wf(final(self)@),
            exists|now: int| final(self)@ == spec_gc(old(self)@, now),
            final(self)@.limit == old(self)@.limit,
            final(self)@.size <= old(self)@.size,
    {
        let ghost m0 = self@;
        let now: u64 = now_millis();
        proof {
            lemma_gc_props(m0, now as int);
        }
        self.collect_garbage_at(now);
        proof {
            assert(exists|n: int| self@ == spec_gc(m0, n)) by {
                assert(self@ == spec_gc(m0, now as int));
            }
        }
    }

    /// Stores `value` under `key` at instant `now` with an optional
    /// time-to-live in milliseconds. If the value does not fit beside
    /// everything resident, expired entries are collected once and then
    /// oldest entries are evicted one at a time; if the value alone is over
    /// the capacity it is rejected (`false`), everything evicted in the
    /// attempt staying gone. Otherwise any previous entry for `key` is
    /// deleted in full and the new entry joins all three structures.
    pub fn set_at(&mut self, key: &str, value: &[u8], ttl: Option<u64>, now: u64) -> (r: bool)
        requires
            wf(old(self)@),
        ensures
            wf(final(self)@),
            final(self)@ == spec_set(old(self)@, key@, value@, ttl_view(ttl), now as int).0,
            r == spec_set(old(self)@, key@, value@, ttl_view(ttl), now as int).1,
    {
        let ghost m0 = self@;
        let need: usize = value.len();
        if need > self.limit - self.current_size {
            self.collect_garbage_at(now);
        }
        let ghost m1 = self@;
        proof {
            assert(m1 == if m0.size + value@.len() > m0.limit {
                spec_gc(m0, now as int)
            } else {
                m0
            });
        }
        loop
            invariant
                wf(self@),
                need == value@.len(),
                self@.limit == m1.limit,
                spec_evict(self@, need as int) == spec_evict(m1, need as int),
            ensures
                wf(self@),
                self@ == spec_evict(m1, need as int),
            decreases self.keys_by_touch@.len(),
        {
            if need <= self.limit - self.current_size {
                proof {
                    assert(spec_evict(self@, need as int) == self@);
                }
                break ;
            }
            if self.keys_by_touch.len() == 0 {
                proof {
                    assert(spec_evict(self@, need as int) == self@);
                }
                break ;
            }
            let ghost m = self@;
            proof {
                lemma_evict_step_eq(m);
            }
            let _ = self.remove_oldest();
            proof {
                assert(self@ == crate::model::evict_step(m));
            }
        }
        let ghost m2 = self@;
        if need > self.limit - self.current_size {
            proof {
                assert(m2.size + value@.len() > m2.limit);
                assert(spec_set(m0, key@, value@, ttl_view(ttl), now as int) == (m2, false));
            }
            return false;
        }
        proof {
            assert(m2.size + value@.len() <= m2.limit);
            lemma_delete_wf(m2, key@);
        }
        let _ = self.delete(key);
        let ghost m3 = self@;
        let expiry: Option<u64> = match ttl {
            Some(d) => Some(
                if d > u64::MAX - now {
                    u64::MAX
                } else {
                    now + d
                },
            ),
            None => None,
        };
        let k: String = key.to_owned();
        let data: Vec<u8> = copy_bytes(value);
        insert_pair_at_pos(&mut self.keys_by_touch, now, &k);
        if let Some(t) = expiry {
            insert_pair_at_pos(&mut self.keys_by_ttl, t, &k);
        }
        let e = Entry { key: k, data, touch: now, expiry };
        proof {
            assert(e@ == (EntryModel {
                key: key@,
                data: value@,
                touch: now as int,
                expiry: crate::model::expiry_of(ttl_view(ttl), now as int),
            }));
        }
        self.cache.push(e);
        self.current_size = self.current_size + need;
        proof {
            crate::model::lemma_insert_wf(m2, key@, value@, ttl_view(ttl), now as int);
            let ins = spec_insert(m2, key@, value@, ttl_view(ttl), now as int);
            assert(self.cache@.map_values(|en: Entry| en@) =~= m3.entries.push(e@));
            assert(self@.entries == ins.entries);
            assert(self@.by_touch == ins.by_touch);
            assert(self@.by_ttl == ins.by_ttl);
            assert(self@ =~= ins);
            assert(spec_set(m0, key@, value@, ttl_view(ttl), now as int) == (ins, true));
        }
        true
    }

    /// Stores `value` under `key` with an optional time-to-live in
    /// milliseconds, judged against the clock sampled at the call. Admission
    /// succeeds exactly when the value alone fits under the capacity.
    pub fn set(&mut self, key: &str, value: &[u8], ttl: Option<u64>) -> (r: bool)
        requires
            wf(old(self)@),
        ensures
            wf(final(self)@),
            exists|now: int|
                #![trigger spec_set(old(self)@, key@, value@, ttl_view(ttl), now)]
                0 <= now <= u64::MAX && final(self)@ == spec_set(
                    old(self)@,
                    key@,
                    value@,
                    ttl_view(ttl),
                    now,
                ).0 && r == spec_set(old(self)@, key@, value@, ttl_view(ttl), now).1,
            r <==> value@.len() <= old(self)@.limit,
            final(self)@.limit == old(self)@.limit,
            r ==> contains_key(final(self)@.entries, key@) && entry_of(
                final(self)@.entries,
                key@,
            ).data == value@,
            !r ==> final(self)@.size == 0 && final(self)@.entries.len() == 0,
    {
        let ghost m0 = self@;
        let now: u64 = now_millis();
        proof {
            lemma_set_props(m0, key@, value@, ttl_view(ttl), now as int);
        }
        let r = self.set_at(key, value, ttl, now);
        proof {
            assert(0 <= now as int <= u64::MAX && self@ == spec_set(
                m0,
                key@,
                value@,
                ttl_view(ttl),
                now as int,
            ).0 && r == spec_set(m0, key@, value@, ttl_view(ttl), now as int).1);
        }
        r
    }
}

/// A fresh copy of the given bytes.
fn copy_bytes(v: &[u8]) -> (r: Vec<u8>)
    ensures
        r@ == v@,
{
    let mut r: Vec<u8> = Vec::new();
    let n: usize = v.len();
    for i in 0..n
        invariant
            n == v@.len(),
            r@ =~= v@.subrange(0, i as int),
    {
        r.push(v[i]);
    }
    proof {
        assert(r@ =~= v@);
    }
    r
}

/// The position of the pair holding `key`, if any.
fn find_pair(ps: &Vec<IndexPair>, key: &String) -> (r: Option<usize>)
    ensures
        match r {
            Some(i) => i < ps@.len() && ps@[i as int].key@ == key@,
            None => forall|j: int| 0 <= j < ps@.len() ==> ps@[j].key@ != key@,
        },
{
    let n: usize = ps.len();
    for i in 0..n
        invariant
            n == ps@.len(),
            forall|j: int| 0 <= j < i ==> ps@[j].key@ != key@,
    {
        if ps[i].key.eq(key) {
            return Some(i);
        }
    }
    None
}

/// Removes the pair holding `key` from an index, leaving it unchanged when
/// the key is absent.
fn remove_pair_by_key(ps: &mut Vec<IndexPair>, key: &String)
    requires
        unique_pair_keys(old(ps)@.map_values(|p: IndexPair| p@)),
    ensures
        final(ps)@.map_values(|p: IndexPair| p@) == remove_pair(
            old(ps)@.map_values(|p: IndexPair| p@),
            key@,
        ),
{
    let ghost vs = ps@.map_values(|p: IndexPair| p@);
    match find_pair(ps, key) {
        Some(i) => {
            proof {
                assert(vs[i as int].key == key@);
                lemma_pair_idx(vs, i as int);
                assert(index_contains(vs, key@));
            }
            let _ = ps.remove(i);
            proof {
                assert(ps@.map_values(|p: IndexPair| p@) =~= vs.remove(i as int));
            }
        },
        None => {
            proof {
                if index_contains(vs, key@) {
                    let q: int = choose|q: int| 0 <= q < vs.len() && vs[q].key == key@;
                    assert(ps@[q].key@ == key@);
                }
            }
        },
    }
}

/// Inserts a pair at its ordered position: after every pair whose instant is
/// `<= instant`, so ties keep insertion order.
fn insert_pair_at_pos(ps: &mut Vec<IndexPair>, instant: u64, key: &String)
    ensures
        final(ps)@.map_values(|p: IndexPair| p@) == insert_pair(
            old(ps)@.map_values(|p: IndexPair| p@),
            instant as int,
            key@,
        ),
{
    let ghost vs = ps@.map_values(|p: IndexPair| p@);
    let n: usize = ps.len();
    let mut idx: usize = 0;
    loop
        invariant
            idx <= n,
            n == ps@.len(),
            vs == ps@.map_values(|p: IndexPair| p@),
            forall|j: int| 0 <= j < idx ==> vs[j].instant <= instant as int,
        ensures
            idx <= n,
            n == ps@.len(),
            vs == ps@.map_values(|p: IndexPair| p@),
            forall|j: int| 0 <= j < idx ==> vs[j].instant <= instant as int,
            idx == n || vs[idx as int].instant > instant as int,
        decreases n - idx,
    {
        if idx == n {
            break ;
        }
        if ps[idx].instant > instant {
            break ;
        }
        idx = idx + 1;
    }
    proof {
        lemma_insert_pos(vs, instant as int);
        let pos: int = insert_pos(vs, instant as int);
        if pos < idx as int {
            assert(vs[pos].instant <= instant as int);
        }
        if (idx as int) < pos {
            assert(vs[idx as int].instant <= instant as int);
        }
        assert(pos == idx as int);
    }
    ps.insert(idx, IndexPair { instant, key: key.clone() });
    proof {
        assert(ps@.map_values(|p: IndexPair| p@) =~= vs.insert(
            insert_pos(vs, instant as int),
            PairModel { instant: instant as int, key: key@ },
        ));
    }
}

} // verus!
