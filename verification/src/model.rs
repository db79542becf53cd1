//! The mathematical model of the cache: an abstract state made of the entry
//! table, the two time-ordered secondary indexes and the size counter, a
//! well-formedness predicate tying them together, and the transition
//! functions that the executable engine is proved to refine.
use vstd::prelude::*;

verus! {

/// One stored entry: the key, the value bytes, the instant of insertion
/// (`touch`) and the optional expiry instant. Instants are in milliseconds.
#[verifier::ext_equal]
pub ghost struct EntryModel {
    pub key: Seq<char>,
    pub data: Seq<u8>,
    pub touch: int,
    pub expiry: Option<int>,
}

/// One element of a secondary index: an instant paired with a key.
#[verifier::ext_equal]
pub ghost struct PairModel {
    pub instant: int,
    pub key: Seq<char>,
}

/// The abstract state of the whole cache.
#[verifier::ext_equal]
pub ghost struct CacheModel {
    /// The configured capacity, in bytes.
    pub limit: int,
    /// The sum of the value lengths of all resident entries.
    pub size: int,
    /// The primary table; keys are unique.
    pub entries: Seq<EntryModel>,
    /// The recency index: pairs sorted ascending by `touch`, ties kept in
    /// insertion order. One pair per resident entry.
    pub by_touch: Seq<PairModel>,
    /// The expiry index: pairs sorted ascending by expiry instant, ties in
    /// insertion order. One pair per resident entry that has an expiry.
    pub by_ttl: Seq<PairModel>,
}

pub open spec fn contains_key(entries: Seq<EntryModel>, k: Seq<char>) -> bool {
    exists|i: int| 0 <= i < entries.len() && entries[i].key == k
}

pub open spec fn entry_idx(entries: Seq<EntryModel>, k: Seq<char>) -> int {
    choose|i: int| 0 <= i < entries.len() && entries[i].key == k
}

/// The entry stored under key `k`; meaningful only when `contains_key` holds.
pub open spec fn entry_of(entries: Seq<EntryModel>, k: Seq<char>) -> EntryModel {
    entries[entry_idx(entries, k)]
}

pub open spec fn index_contains(ps: Seq<PairModel>, k: Seq<char>) -> bool {
    exists|i: int| 0 <= i < ps.len() && ps[i].key == k
}

pub open spec fn pair_idx(ps: Seq<PairModel>, k: Seq<char>) -> int {
    choose|i: int| 0 <= i < ps.len() && ps[i].key == k
}

/// Whether the index holds the pair (`t`, `k`).
pub open spec fn index_has(ps: Seq<PairModel>, t: int, k: Seq<char>) -> bool {
    exists|i: int| 0 <= i < ps.len() && ps[i].instant == t && ps[i].key == k
}

/// Removing a key's pair from an index; the index is unchanged when the key
/// is not there.
pub open spec fn remove_pair(ps: Seq<PairModel>, k: Seq<char>) -> Seq<PairModel> {
    if index_contains(ps, k) {
        ps.remove(pair_idx(ps, k))
    } else {
        ps
    }
}

/// The position at which a pair with instant `t` is inserted: after every
/// pair whose instant is `<= t`, so that ties keep insertion order.
pub open spec fn insert_pos(ps: Seq<PairModel>, t: int) -> int
    decreases ps.len(),
{
    if ps.len() == 0 {
        0
    } else if ps[0].instant <= t {
        1 + insert_pos(ps.drop_first(), t)
    } else {
        0
    }
}

pub open spec fn insert_pair(ps: Seq<PairModel>, t: int, k: Seq<char>) -> Seq<PairModel> {
    ps.insert(insert_pos(ps, t), PairModel { instant: t, key: k })
}

pub open spec fn sorted_pairs(ps: Seq<PairModel>) -> bool {
    forall|i: int, j: int| 0 <= i < j < ps.len() ==> ps[i].instant <= ps[j].instant
}

pub open spec fn unique_entry_keys(entries: Seq<EntryModel>) -> bool {
    forall|i: int, j: int| 0 <= i < j < entries.len() ==> entries[i].key != entries[j].key
}

pub open spec fn unique_pair_keys(ps: Seq<PairModel>) -> bool {
    forall|i: int, j: int| 0 <= i < j < ps.len() ==> ps[i].key != ps[j].key
}

/// The sum of the value lengths of the entries.
pub open spec fn total_size(entries: Seq<EntryModel>) -> int
    decreases entries.len(),
{
    if entries.len() == 0 {
        0
    } else {
        entries[0].data.len() + total_size(entries.drop_first())
    }
}

/// The cross-structure invariants: every entry is indexed once by its touch
/// instant, every entry with an expiry once by its expiry instant, every
/// index pair points back at a resident entry, keys are unique everywhere,
/// both indexes are sorted ascending, and the size counter equals the sum of
/// the resident value lengths and stays within the capacity.
pub open spec fn wf(m: CacheModel) -> bool {
    &&& 0 <= m.size <= m.limit
    &&& m.limit <= usize::MAX
    &&& unique_entry_keys(m.entries)
    &&& unique_pair_keys(m.by_touch)
    &&& unique_pair_keys(m.by_ttl)
    &&& sorted_pairs(m.by_touch)
    &&& sorted_pairs(m.by_ttl)
    &&& forall|i: int|
        0 <= i < m.entries.len() ==> index_has(
            m.by_touch,
            m.entries[i].touch,
            #[trigger] m.entries[i].key,
        )
    &&& forall|i: int|
        0 <= i < m.entries.len() ==> match m.entries[i].expiry {
            Some(t) => index_has(m.by_ttl, t, #[trigger] m.entries[i].key),
            None => !index_contains(m.by_ttl, m.entries[i].key),
        }
    &&& forall|i: int|
        0 <= i < m.by_touch.len() ==> {
            &&& contains_key(m.entries, #[trigger] m.by_touch[i].key)
            &&& entry_of(m.entries, m.by_touch[i].key).touch == m.by_touch[i].instant
        }
    &&& forall|i: int|
        0 <= i < m.by_ttl.len() ==> {
            &&& contains_key(m.entries, #[trigger] m.by_ttl[i].key)
            &&& entry_of(m.entries, m.by_ttl[i].key).expiry == Some(m.by_ttl[i].instant)
        }
    &&& m.by_touch.len() == m.entries.len()
    &&& m.size == total_size(m.entries)
}

/// The empty cache with the given capacity.
pub open spec fn empty_model(limit: int) -> CacheModel {
    CacheModel {
        limit: limit,
        size: 0,
        entries: Seq::empty(),
        by_touch: Seq::empty(),
        by_ttl: Seq::empty(),
    }
}

/// Whether the entry is visible at instant `now`: an entry is hidden once
/// `now` is strictly past its expiry.
pub open spec fn live_at(e: EntryModel, now: int) -> bool {
    match e.expiry {
        Some(t) => now <= t,
        None => true,
    }
}

/// The result of a read at instant `now`: the stored bytes if the key is
/// resident and not yet expired, absent otherwise. Reads never mutate.
pub open spec fn spec_get(m: CacheModel, k: Seq<char>, now: int) -> Option<Seq<u8>> {
    if contains_key(m.entries, k) && live_at(entry_of(m.entries, k), now) {
        Some(entry_of(m.entries, k).data)
    } else {
        None
    }
}

/// Deleting a key: the entry leaves the table and both indexes, and the size
/// counter drops by its value length; the removed bytes are returned. A
/// missing key changes nothing.
pub open spec fn spec_delete(m: CacheModel, k: Seq<char>) -> (CacheModel, Option<Seq<u8>>) {
    if !contains_key(m.entries, k) {
        (m, None)
    } else {
        let i: int = entry_idx(m.entries, k);
        let e = m.entries[i];
        (
            CacheModel {
                limit: m.limit,
                size: m.size - e.data.len(),
                entries: m.entries.remove(i),
                by_touch: remove_pair(m.by_touch, k),
                by_ttl: if e.expiry is Some {
                    remove_pair(m.by_ttl, k)
                } else {
                    m.by_ttl
                },
            },
            Some(e.data),
        )
    }
}

/// Instants saturate at the largest representable value, so a time-to-live
/// that would overflow the clock never wraps around.
pub open spec fn sat_add(a: int, b: int) -> int {
    if a + b > u64::MAX {
        u64::MAX as int
    } else {
        a + b
    }
}

/// Storing an entry (steps 5-8 of admission): any pre-existing entry for the
/// key is first deleted in full, then the new entry joins the table, the
/// recency index at `now`, and, when a time-to-live is given, the expiry
/// index at `now + ttl`.
pub open spec fn spec_insert(
    m: CacheModel,
    k: Seq<char>,
    v: Seq<u8>,
    ttl: Option<int>,
    now: int,
) -> CacheModel {
    let m1 = spec_delete(m, k).0;
    let expiry: Option<int> = match ttl {
        Some(d) => Some(sat_add(now, d)),
        None => None,
    };
    CacheModel {
        limit: m.limit,
        size: m1.size + v.len(),
        entries: m1.entries.push(
            EntryModel { key: k, data: v, touch: now, expiry: expiry },
        ),
        by_touch: insert_pair(m1.by_touch, now, k),
        by_ttl: match expiry {
            Some(t) => insert_pair(m1.by_ttl, t, k),
            None => m1.by_ttl,
        },
    }
}

/// One eviction step: the oldest entry — the key of the first recency pair —
/// is deleted in full. The recency index is forced to lose its head so that
/// the step always shrinks it; under `wf` this agrees with `spec_delete`.
pub open spec fn evict_step(m: CacheModel) -> CacheModel {
    let d = spec_delete(m, m.by_touch[0].key).0;
    CacheModel { by_touch: m.by_touch.drop_first(), ..d }
}

/// The eviction loop: oldest entries leave one at a time until `need` more
/// bytes fit under the capacity or nothing is left to evict.
pub open spec fn spec_evict(m: CacheModel, need: int) -> CacheModel
    decreases m.by_touch.len(),
{
    if m.size + need <= m.limit || m.by_touch.len() == 0 {
        m
    } else {
        spec_evict(evict_step(m), need)
    }
}

/// One collection step: the key of the first expiry pair is deleted in full.
/// The expiry index is forced to lose its head so that the step always
/// shrinks it; under `wf` this agrees with `spec_delete`.
pub open spec fn gc_step(m: CacheModel) -> CacheModel {
    let d = spec_delete(m, m.by_ttl[0].key).0;
    CacheModel { by_ttl: m.by_ttl.drop_first(), ..d }
}

/// Garbage collection at instant `now`: the prefix of the expiry index whose
/// instants are strictly before `now` is drained, each key deleted in full;
/// pairs at or after `now` are untouched.
pub open spec fn spec_gc(m: CacheModel, now: int) -> CacheModel
    decreases m.by_ttl.len(),
{
    if m.by_ttl.len() == 0 || m.by_ttl[0].instant >= now {
        m
    } else {
        spec_gc(gc_step(m), now)
    }
}

/// Admission at instant `now` (the deterministic ordering of §admission):
/// if the value does not fit with everything resident, collect garbage once;
/// then evict oldest entries while it still does not fit; if it cannot fit
/// even then, reject, keeping whatever was reclaimed; otherwise store the
/// entry.
pub open spec fn spec_set(
    m: CacheModel,
    k: Seq<char>,
    v: Seq<u8>,
    ttl: Option<int>,
    now: int,
) -> (CacheModel, bool) {
    let m1 = if m.size + v.len() > m.limit {
        spec_gc(m, now)
    } else {
        m
    };
    let m2 = spec_evict(m1, v.len() as int);
    if m2.size + v.len() > m2.limit {
        (m2, false)
    } else {
        (spec_insert(m2, k, v, ttl, now), true)
    }
}

pub proof fn lemma_total_size_nonneg(s: Seq<EntryModel>)
    ensures
        total_size(s) >= 0,
    decreases s.len(),
{
    if s.len() > 0 {
        lemma_total_size_nonneg(s.drop_first());
    }
}

pub proof fn lemma_total_size_remove(s: Seq<EntryModel>, i: int)
    requires
        0 <= i < s.len(),
    ensures
        total_size(s.remove(i)) == total_size(s) - s[i].data.len(),
    decreases s.len(),
{
    if i == 0 {
        assert(s.remove(0) =~= s.drop_first());
    } else {
        lemma_total_size_remove(s.drop_first(), i - 1);
        assert(s.remove(i).drop_first() =~= s.drop_first().remove(i - 1));
        assert(s.remove(i)[0] == s[0]);
    }
}

pub proof fn lemma_total_size_push(s: Seq<EntryModel>, e: EntryModel)
    ensures
        total_size(s.push(e)) == total_size(s) + e.data.len(),
    decreases s.len(),
{
    if s.len() == 0 {
        assert(s.push(e).drop_first() =~= Seq::<EntryModel>::empty());
        assert(total_size(Seq::<EntryModel>::empty()) == 0);
        assert(s.push(e)[0] == e);
        assert(total_size(s.push(e)) == e.data.len() + total_size(s.push(e).drop_first()));
        assert(total_size(s) == 0);
    } else {
        lemma_total_size_push(s.drop_first(), e);
        assert(s.push(e).drop_first() =~= s.drop_first().push(e));
        assert(s.push(e)[0] == s[0]);
    }
}

/// With unique keys, the chosen index of an entry's own key is that entry's
/// position.
pub proof fn lemma_entry_idx(entries: Seq<EntryModel>, j: int)
    requires
        unique_entry_keys(entries),
        0 <= j < entries.len(),
    ensures
        contains_key(entries, entries[j].key),
        entry_idx(entries, entries[j].key) == j,
        entry_of(entries, entries[j].key) == entries[j],
{
    let k = entries[j].key;
    assert(contains_key(entries, k));
    let i: int = entry_idx(entries, k);
    assert(0 <= i < entries.len() && entries[i].key == k);
    if i != j {
        if i < j {
            assert(entries[i].key != entries[j].key);
        } else {
            assert(entries[j].key != entries[i].key);
        }
    }
}

/// With unique keys, the chosen index of a pair's own key is that pair's
/// position.
pub proof fn lemma_pair_idx(ps: Seq<PairModel>, j: int)
    requires
        unique_pair_keys(ps),
        0 <= j < ps.len(),
    ensures
        index_contains(ps, ps[j].key),
        pair_idx(ps, ps[j].key) == j,
{
    let k = ps[j].key;
    assert(index_contains(ps, k));
    let i: int = pair_idx(ps, k);
    assert(0 <= i < ps.len() && ps[i].key == k);
    if i != j {
        if i < j {
            assert(ps[i].key != ps[j].key);
        } else {
            assert(ps[j].key != ps[i].key);
        }
    }
}

/// The insertion position splits the index into a prefix of instants `<= t`
/// and a suffix of instants `> t` (the latter under sortedness).
pub proof fn lemma_insert_pos(ps: Seq<PairModel>, t: int)
    ensures
        0 <= insert_pos(ps, t) <= ps.len(),
        forall|j: int| 0 <= j < insert_pos(ps, t) ==> ps[j].instant <= t,
        insert_pos(ps, t) < ps.len() ==> ps[insert_pos(ps, t)].instant > t,
    decreases ps.len(),
{
    if ps.len() > 0 && ps[0].instant <= t {
        lemma_insert_pos(ps.drop_first(), t);
        assert(forall|j: int|
            0 <= j < insert_pos(ps, t) ==> ps[j].instant <= t) by {
            assert(forall|j: int|
                1 <= j < insert_pos(ps, t) ==> ps[j].instant == ps.drop_first()[j - 1].instant
                    && ps.drop_first()[j - 1].instant <= t);
        }
    }
}

/// What insertion does to an index: membership grows by exactly the new
/// pair, order and key-uniqueness survive.
pub proof fn lemma_index_insert(ps: Seq<PairModel>, t: int, k: Seq<char>)
    ensures
        insert_pair(ps, t, k).len() == ps.len() + 1,
        index_has(insert_pair(ps, t, k), t, k),
        forall|t2: int, k2: Seq<char>|
            #[trigger] index_has(insert_pair(ps, t, k), t2, k2) <==> ((t2 == t && k2 == k)
                || index_has(ps, t2, k2)),
        forall|k2: Seq<char>|
            #[trigger] index_contains(insert_pair(ps, t, k), k2) <==> (k2 == k || index_contains(
                ps,
                k2,
            )),
        sorted_pairs(ps) ==> sorted_pairs(insert_pair(ps, t, k)),
        unique_pair_keys(ps) && !index_contains(ps, k) ==> unique_pair_keys(
            insert_pair(ps, t, k),
        ),
{
    lemma_insert_pos(ps, t);
    let pos: int = insert_pos(ps, t);
    let ps2 = insert_pair(ps, t, k);
    assert(ps2[pos] == PairModel { instant: t, key: k });
    assert(forall|j: int| 0 <= j < pos ==> ps2[j] == ps[j]);
    assert(forall|j: int| pos < j < ps2.len() ==> ps2[j] == ps[j - 1]);
    assert(index_has(ps2, t, k));
    assert forall|t2: int, k2: Seq<char>|
        #[trigger] index_has(ps2, t2, k2) implies ((t2 == t && k2 == k) || index_has(
        ps,
        t2,
        k2,
    )) by {
        let q: int = choose|q: int| 0 <= q < ps2.len() && ps2[q].instant == t2 && ps2[q].key == k2;
        if q != pos {
            if q < pos {
                assert(ps[q].instant == t2 && ps[q].key == k2);
            } else {
                assert(ps[q - 1].instant == t2 && ps[q - 1].key == k2);
            }
        }
    }
    assert forall|t2: int, k2: Seq<char>|
        (t2 == t && k2 == k) || index_has(ps, t2, k2) implies #[trigger] index_has(
        ps2,
        t2,
        k2,
    ) by {
        if index_has(ps, t2, k2) {
            let q: int = choose|q: int|
                0 <= q < ps.len() && ps[q].instant == t2 && ps[q].key == k2;
            if q < pos {
                assert(ps2[q].instant == t2 && ps2[q].key == k2);
            } else {
                assert(ps2[q + 1].instant == t2 && ps2[q + 1].key == k2);
            }
        }
    }
    assert forall|k2: Seq<char>|
        #[trigger] index_contains(ps2, k2) implies (k2 == k || index_contains(ps, k2)) by {
        let q: int = choose|q: int| 0 <= q < ps2.len() && ps2[q].key == k2;
        if q != pos {
            if q < pos {
                assert(ps[q].key == k2);
            } else {
                assert(ps[q - 1].key == k2);
            }
        }
    }
    assert forall|k2: Seq<char>|
        k2 == k || index_contains(ps, k2) implies #[trigger] index_contains(ps2, k2) by {
        if index_contains(ps, k2) {
            let q: int = choose|q: int| 0 <= q < ps.len() && ps[q].key == k2;
            if q < pos {
                assert(ps2[q].key == k2);
            } else {
                assert(ps2[q + 1].key == k2);
            }
        }
    }
    if sorted_pairs(ps) {
        assert forall|a: int, b: int| 0 <= a < b < ps2.len() implies ps2[a].instant
            <= ps2[b].instant by {
            if a < pos && b > pos {
                assert(ps2[a] == ps[a] && ps2[b] == ps[b - 1]);
            }
        }
    }
    if unique_pair_keys(ps) && !index_contains(ps, k) {
        assert forall|a: int, b: int| 0 <= a < b < ps2.len() implies ps2[a].key != ps2[b].key by {
            if a == pos {
                assert(ps2[b] == ps[b - 1]);
                if ps2[b].key == k {
                    assert(index_contains(ps, k));
                }
            } else if b == pos {
                assert(ps2[a] == ps[a]);
                if ps2[a].key == k {
                    assert(index_contains(ps, k));
                }
            } else {
                let a0: int = if a < pos { a } else { a - 1 };
                let b0: int = if b < pos { b } else { b - 1 };
                assert(ps2[a] == ps[a0] && ps2[b] == ps[b0]);
            }
        }
    }
}

/// What removal does to an index that holds the key exactly once: that pair
/// alone leaves, membership of every other key is untouched, order and
/// key-uniqueness survive.
pub proof fn lemma_index_remove(ps: Seq<PairModel>, k: Seq<char>)
    requires
        unique_pair_keys(ps),
        index_contains(ps, k),
    ensures
        remove_pair(ps, k).len() == ps.len() - 1,
        !index_contains(remove_pair(ps, k), k),
        forall|t2: int, k2: Seq<char>|
            k2 != k ==> (#[trigger] index_has(remove_pair(ps, k), t2, k2) <==> index_has(
                ps,
                t2,
                k2,
            )),
        forall|k2: Seq<char>|
            k2 != k ==> (#[trigger] index_contains(remove_pair(ps, k), k2) <==> index_contains(
                ps,
                k2,
            )),
        sorted_pairs(ps) ==> sorted_pairs(remove_pair(ps, k)),
        unique_pair_keys(remove_pair(ps, k)),
{
    let p: int = pair_idx(ps, k);
    assert(0 <= p < ps.len() && ps[p].key == k);
    let ps2 = remove_pair(ps, k);
    assert(ps2 == ps.remove(p));
    assert(forall|j: int| 0 <= j < p ==> ps2[j] == ps[j]);
    assert(forall|j: int| p <= j < ps2.len() ==> ps2[j] == ps[j + 1]);
    assert forall|j: int| 0 <= j < ps2.len() implies ps2[j].key != k by {
        if j < p {
            assert(ps[j].key != ps[p].key);
        } else {
            assert(ps[p].key != ps[j + 1].key);
        }
    }
    assert forall|t2: int, k2: Seq<char>|
        k2 != k && index_has(ps, t2, k2) implies #[trigger] index_has(ps2, t2, k2) by {
        let q: int = choose|q: int| 0 <= q < ps.len() && ps[q].instant == t2 && ps[q].key == k2;
        if q < p {
            assert(ps2[q].instant == t2 && ps2[q].key == k2);
        } else {
            assert(q != p);
            assert(ps2[q - 1].instant == t2 && ps2[q - 1].key == k2);
        }
    }
    assert forall|t2: int, k2: Seq<char>|
        k2 != k && #[trigger] index_has(ps2, t2, k2) implies index_has(ps, t2, k2) by {
        let q: int = choose|q: int| 0 <= q < ps2.len() && ps2[q].instant == t2 && ps2[q].key == k2;
        if q < p {
            assert(ps[q].instant == t2 && ps[q].key == k2);
        } else {
            assert(ps[q + 1].instant == t2 && ps[q + 1].key == k2);
        }
    }
    assert forall|k2: Seq<char>|
        k2 != k && index_contains(ps, k2) implies #[trigger] index_contains(ps2, k2) by {
        let q: int = choose|q: int| 0 <= q < ps.len() && ps[q].key == k2;
        if q < p {
            assert(ps2[q].key == k2);
        } else {
            assert(q != p);
            assert(ps2[q - 1].key == k2);
        }
    }
    assert forall|k2: Seq<char>|
        k2 != k && #[trigger] index_contains(ps2, k2) implies index_contains(ps, k2) by {
        let q: int = choose|q: int| 0 <= q < ps2.len() && ps2[q].key == k2;
        if q < p {
            assert(ps[q].key == k2);
        } else {
            assert(ps[q + 1].key == k2);
        }
    }
    assert forall|a: int, b: int| 0 <= a < b < ps2.len() implies ps2[a].key != ps2[b].key by {
        let a0: int = if a < p { a } else { a + 1 };
        let b0: int = if b < p { b } else { b + 1 };
        assert(ps2[a] == ps[a0] && ps2[b] == ps[b0]);
    }
    if sorted_pairs(ps) {
        assert forall|a: int, b: int| 0 <= a < b < ps2.len() implies ps2[a].instant
            <= ps2[b].instant by {
            let a0: int = if a < p { a } else { a + 1 };
            let b0: int = if b < p { b } else { b + 1 };
            assert(ps2[a] == ps[a0] && ps2[b] == ps[b0]);
        }
    }
}

/// Deletion preserves every invariant; the key is gone, every other key is
/// untouched, and the size counter drops by exactly the removed value's
/// length.
pub proof fn lemma_delete_wf(m: CacheModel, k: Seq<char>)
    requires
        wf(m),
    ensures
        wf(spec_delete(m, k).0),
        spec_delete(m, k).0.limit == m.limit,
        spec_delete(m, k).0.size <= m.size,
        !contains_key(spec_delete(m, k).0.entries, k),
        !index_contains(spec_delete(m, k).0.by_touch, k),
        !index_contains(spec_delete(m, k).0.by_ttl, k),
        contains_key(m.entries, k) ==> {
            &&& spec_delete(m, k).0.entries.len() == m.entries.len() - 1
            &&& spec_delete(m, k).1 == Some(entry_of(m.entries, k).data)
            &&& spec_delete(m, k).0.size == m.size - entry_of(m.entries, k).data.len()
            &&& (entry_of(m.entries, k).expiry is Some ==> spec_delete(m, k).0.by_ttl.len()
                == m.by_ttl.len() - 1)
            &&& (entry_of(m.entries, k).expiry is None ==> spec_delete(m, k).0.by_ttl
                == m.by_ttl)
        },
        !contains_key(m.entries, k) ==> spec_delete(m, k).0 == m,
        forall|k2: Seq<char>|
            k2 != k ==> (#[trigger] contains_key(spec_delete(m, k).0.entries, k2)
                <==> contains_key(m.entries, k2)),
        forall|k2: Seq<char>|
            k2 != k && contains_key(m.entries, k2) ==> entry_of(
                spec_delete(m, k).0.entries,
                k2,
            ) == entry_of(m.entries, k2),
{
    if !contains_key(m.entries, k) {
        assert forall|i: int| 0 <= i < m.by_touch.len() implies m.by_touch[i].key != k by {
            assert(contains_key(m.entries, m.by_touch[i].key));
        }
        assert forall|i: int| 0 <= i < m.by_ttl.len() implies m.by_ttl[i].key != k by {
            assert(contains_key(m.entries, m.by_ttl[i].key));
        }
        return;
    }
    let i: int = entry_idx(m.entries, k);
    assert(0 <= i < m.entries.len() && m.entries[i].key == k);
    lemma_entry_idx(m.entries, i);
    let e = m.entries[i];
    let m2 = spec_delete(m, k).0;
    let es2 = m.entries.remove(i);
    assert(m2.entries == es2);
    lemma_total_size_remove(m.entries, i);
    lemma_total_size_nonneg(es2);

    // Entries: uniqueness and membership after the removal.
    assert(forall|j: int| 0 <= j < i ==> es2[j] == m.entries[j]);
    assert(forall|j: int| i <= j < es2.len() ==> es2[j] == m.entries[j + 1]);
    assert forall|a: int, b: int| 0 <= a < b < es2.len() implies es2[a].key != es2[b].key by {
        let a0: int = if a < i { a } else { a + 1 };
        let b0: int = if b < i { b } else { b + 1 };
        assert(es2[a] == m.entries[a0] && es2[b] == m.entries[b0]);
    }
    assert forall|j: int| 0 <= j < es2.len() implies es2[j].key != k by {
        let j0: int = if j < i { j } else { j + 1 };
        assert(es2[j] == m.entries[j0]);
        if j0 < i {
            assert(m.entries[j0].key != m.entries[i].key);
        } else {
            assert(m.entries[i].key != m.entries[j0].key);
        }
    }
    assert(!contains_key(es2, k));
    assert forall|k2: Seq<char>|
        k2 != k && contains_key(m.entries, k2) implies contains_key(es2, k2) && entry_of(
        es2,
        k2,
    ) == entry_of(m.entries, k2) by {
        let j: int = entry_idx(m.entries, k2);
        assert(0 <= j < m.entries.len() && m.entries[j].key == k2);
        lemma_entry_idx(m.entries, j);
        assert(j != i);
        let j2: int = if j < i { j } else { j - 1 };
        assert(es2[j2] == m.entries[j]);
        lemma_entry_idx(es2, j2);
    }
    assert forall|k2: Seq<char>|
        k2 != k && #[trigger] contains_key(es2, k2) implies contains_key(m.entries, k2) by {
        let j: int = choose|j: int| 0 <= j < es2.len() && es2[j].key == k2;
        let j0: int = if j < i { j } else { j + 1 };
        assert(es2[j] == m.entries[j0]);
    }

    // The touch index loses exactly the pair of `k`.
    assert(index_has(m.by_touch, e.touch, e.key));
    assert(index_contains(m.by_touch, k));
    lemma_index_remove(m.by_touch, k);
    let bt2 = m2.by_touch;
    assert(bt2 == remove_pair(m.by_touch, k));

    // The expiry index loses the pair of `k` exactly when the entry had an
    // expiry.
    if e.expiry is Some {
        assert(index_contains(m.by_ttl, k));
        lemma_index_remove(m.by_ttl, k);
    } else {
        assert(!index_contains(m.by_ttl, k));
    }
    let btt2 = m2.by_ttl;

    // Forward links of the survivors.
    assert forall|j: int| 0 <= j < es2.len() implies index_has(
        bt2,
        es2[j].touch,
        #[trigger] es2[j].key,
    ) by {
        let j0: int = if j < i { j } else { j + 1 };
        assert(es2[j] == m.entries[j0]);
        assert(index_has(m.by_touch, m.entries[j0].touch, m.entries[j0].key));
        assert(es2[j].key != k);
    }
    assert forall|j: int| 0 <= j < es2.len() implies match es2[j].expiry {
        Some(t) => index_has(btt2, t, #[trigger] es2[j].key),
        None => !index_contains(btt2, es2[j].key),
    } by {
        let j0: int = if j < i { j } else { j + 1 };
        assert(es2[j] == m.entries[j0]);
        assert(es2[j].key != k);
        match m.entries[j0].expiry {
            Some(t) => {
                assert(index_has(m.by_ttl, t, m.entries[j0].key));
            },
            None => {
                assert(!index_contains(m.by_ttl, m.entries[j0].key));
                if e.expiry is Some {
                    if index_contains(btt2, es2[j].key) {
                        assert(index_contains(m.by_ttl, es2[j].key));
                    }
                }
            },
        }
    }

    // Reverse links of the surviving pairs.
    assert forall|q: int| 0 <= q < bt2.len() implies {
        &&& contains_key(es2, #[trigger] bt2[q].key)
        &&& entry_of(es2, bt2[q].key).touch == bt2[q].instant
    } by {
        assert(bt2[q].key != k) by {
            if bt2[q].key == k {
                assert(index_contains(bt2, k));
            }
        }
        assert(index_has(bt2, bt2[q].instant, bt2[q].key));
        assert(index_has(m.by_touch, bt2[q].instant, bt2[q].key));
        let q0: int = choose|q0: int|
            0 <= q0 < m.by_touch.len() && m.by_touch[q0].instant == bt2[q].instant
                && m.by_touch[q0].key == bt2[q].key;
        assert(contains_key(m.entries, bt2[q].key));
        assert(entry_of(m.entries, bt2[q].key).touch == bt2[q].instant);
    }
    assert forall|q: int| 0 <= q < btt2.len() implies {
        &&& contains_key(es2, #[trigger] btt2[q].key)
        &&& entry_of(es2, btt2[q].key).expiry == Some(btt2[q].instant)
    } by {
        assert(btt2[q].key != k) by {
            if btt2[q].key == k {
                assert(index_contains(btt2, k));
            }
        }
        assert(index_has(btt2, btt2[q].instant, btt2[q].key));
        assert(index_has(m.by_ttl, btt2[q].instant, btt2[q].key));
        assert(contains_key(m.entries, btt2[q].key));
        assert(entry_of(m.entries, btt2[q].key).expiry == Some(btt2[q].instant));
    }
    assert(wf(m2));
    assert(!index_contains(bt2, k));
    assert(!index_contains(btt2, k)) by {
        if e.expiry is None {
            assert(!index_contains(m.by_ttl, k));
        }
    }
}

/// The expiry instant that a store at `now` with the given time-to-live
/// produces.
pub open spec fn expiry_of(ttl: Option<int>, now: int) -> Option<int> {
    match ttl {
        Some(d) => Some(sat_add(now, d)),
        None => None,
    }
}

/// Storing preserves every invariant as long as the value fits beside
/// everything except the key's own previous entry; the new entry is present
/// afterwards and every other key is untouched.
#[verifier::rlimit(60)]
pub proof fn lemma_insert_wf(m: CacheModel, k: Seq<char>, v: Seq<u8>, ttl: Option<int>, now: int)
    requires
        wf(m),
        spec_delete(m, k).0.size + v.len() <= m.limit,
        0 <= now <= u64::MAX,
        ttl is Some ==> 0 <= ttl->0,
    ensures
        wf(spec_insert(m, k, v, ttl, now)),
        spec_insert(m, k, v, ttl, now).limit == m.limit,
        spec_insert(m, k, v, ttl, now).size == spec_delete(m, k).0.size + v.len(),
        contains_key(spec_insert(m, k, v, ttl, now).entries, k),
        entry_of(spec_insert(m, k, v, ttl, now).entries, k) == (EntryModel {
            key: k,
            data: v,
            touch: now,
            expiry: expiry_of(ttl, now),
        }),
        forall|k2: Seq<char>|
            k2 != k ==> (#[trigger] contains_key(spec_insert(m, k, v, ttl, now).entries, k2)
                <==> contains_key(spec_delete(m, k).0.entries, k2)),
        forall|k2: Seq<char>|
            k2 != k && #[trigger] contains_key(spec_delete(m, k).0.entries, k2) ==> entry_of(
                spec_insert(m, k, v, ttl, now).entries,
                k2,
            ) == entry_of(spec_delete(m, k).0.entries, k2),
{
    lemma_delete_wf(m, k);
    let m1 = spec_delete(m, k).0;
    let e = EntryModel { key: k, data: v, touch: now, expiry: expiry_of(ttl, now) };
    let r = spec_insert(m, k, v, ttl, now);
    let es = m1.entries.push(e);
    assert(r.entries == es);
    let n: int = m1.entries.len() as int;
    lemma_total_size_push(m1.entries, e);

    // Entries: the new key is fresh, so uniqueness survives and lookups of
    // other keys are unchanged.
    assert forall|j: int| 0 <= j < n implies es[j] == m1.entries[j] && es[j].key != k by {
        if m1.entries[j].key == k {
            assert(contains_key(m1.entries, k));
        }
    }
    assert(es[n] == e);
    assert(unique_entry_keys(es));
    lemma_entry_idx(es, n);
    assert(contains_key(es, k) && entry_of(es, k) == e);
    assert forall|k2: Seq<char>|
        k2 != k && #[trigger] contains_key(m1.entries, k2) implies contains_key(es, k2)
        && entry_of(es, k2) == entry_of(m1.entries, k2) by {
        let j: int = entry_idx(m1.entries, k2);
        assert(0 <= j < n && m1.entries[j].key == k2);
        lemma_entry_idx(es, j);
    }
    assert forall|k2: Seq<char>|
        k2 != k && #[trigger] contains_key(es, k2) implies contains_key(m1.entries, k2) by {
        let j: int = choose|j: int| 0 <= j < es.len() && es[j].key == k2;
        assert(j != n);
    }

    // The touch index gains exactly the new pair.
    lemma_index_insert(m1.by_touch, now, k);
    let bt = r.by_touch;
    assert(bt == insert_pair(m1.by_touch, now, k));
    assert(sorted_pairs(bt));
    assert(unique_pair_keys(bt));
    assert(bt.len() == es.len());

    // The expiry index gains the new pair exactly when a time-to-live was
    // given.
    let btt = r.by_ttl;
    if ttl is Some {
        lemma_index_insert(m1.by_ttl, sat_add(now, ttl->0), k);
        assert(btt == insert_pair(m1.by_ttl, sat_add(now, ttl->0), k));
        assert(sorted_pairs(btt));
        assert(unique_pair_keys(btt));
    } else {
        assert(btt == m1.by_ttl);
    }

    // Forward links.
    assert forall|j: int| 0 <= j < es.len() implies index_has(
        bt,
        es[j].touch,
        #[trigger] es[j].key,
    ) by {
        if j < n {
            assert(index_has(m1.by_touch, m1.entries[j].touch, m1.entries[j].key));
        }
    }
    assert forall|j: int| 0 <= j < es.len() implies match es[j].expiry {
        Some(t) => index_has(btt, t, #[trigger] es[j].key),
        None => !index_contains(btt, es[j].key),
    } by {
        if j < n {
            match m1.entries[j].expiry {
                Some(t) => {
                    assert(index_has(m1.by_ttl, t, m1.entries[j].key));
                },
                None => {
                    assert(!index_contains(m1.by_ttl, m1.entries[j].key));
                    if ttl is Some {
                        assert(!index_contains(btt, es[j].key));
                    }
                },
            }
        } else {
            match e.expiry {
                Some(t) => {
                    assert(index_has(btt, t, k));
                },
                None => {
                    assert(!index_contains(m1.by_ttl, k));
                },
            }
        }
    }

    // Reverse links.
    assert forall|q: int| 0 <= q < bt.len() implies {
        &&& contains_key(es, #[trigger] bt[q].key)
        &&& entry_of(es, bt[q].key).touch == bt[q].instant
    } by {
        assert(index_has(bt, bt[q].instant, bt[q].key));
        if bt[q].key == k {
            assert(!index_contains(m1.by_touch, k));
            assert(!index_has(m1.by_touch, bt[q].instant, k)) by {
                if index_has(m1.by_touch, bt[q].instant, k) {
                    assert(index_contains(m1.by_touch, k));
                }
            }
            assert(bt[q].instant == now);
        } else {
            assert(index_has(m1.by_touch, bt[q].instant, bt[q].key));
            assert(contains_key(m1.entries, bt[q].key));
            assert(entry_of(m1.entries, bt[q].key).touch == bt[q].instant);
        }
    }
    assert forall|q: int| 0 <= q < btt.len() implies {
        &&& contains_key(es, #[trigger] btt[q].key)
        &&& entry_of(es, btt[q].key).expiry == Some(btt[q].instant)
    } by {
        if ttl is Some {
            assert(index_has(btt, btt[q].instant, btt[q].key));
            if btt[q].key == k {
                assert(!index_contains(m1.by_ttl, k));
                assert(!index_has(m1.by_ttl, btt[q].instant, k)) by {
                    if index_has(m1.by_ttl, btt[q].instant, k) {
                        assert(index_contains(m1.by_ttl, k));
                    }
                }
                assert(btt[q].instant == sat_add(now, ttl->0));
            } else {
                assert(index_has(m1.by_ttl, btt[q].instant, btt[q].key));
                assert(contains_key(m1.entries, btt[q].key));
                assert(entry_of(m1.entries, btt[q].key).expiry == Some(btt[q].instant));
            }
        } else {
            assert(btt[q].key != k) by {
                if btt[q].key == k {
                    assert(index_contains(m1.by_ttl, k));
                }
            }
            assert(contains_key(m1.entries, btt[q].key));
            assert(entry_of(m1.entries, btt[q].key).expiry == Some(btt[q].instant));
        }
    }
    assert(wf(r));
}

/// Under the invariants, the forced eviction step is exactly a full delete
/// of the oldest key.
pub proof fn lemma_evict_step_eq(m: CacheModel)
    requires
        wf(m),
        m.by_touch.len() > 0,
    ensures
        evict_step(m) == spec_delete(m, m.by_touch[0].key).0,
        wf(evict_step(m)),
        evict_step(m).limit == m.limit,
        evict_step(m).size <= m.size,
        evict_step(m).by_touch.len() == m.by_touch.len() - 1,
{
    let k0 = m.by_touch[0].key;
    assert(contains_key(m.entries, k0));
    lemma_delete_wf(m, k0);
    let d = spec_delete(m, k0).0;
    lemma_pair_idx(m.by_touch, 0);
    assert(index_contains(m.by_touch, k0));
    assert(d.by_touch == m.by_touch.remove(0));
    assert(m.by_touch.remove(0) =~= m.by_touch.drop_first());
    assert(evict_step(m) =~= d);
}

/// The eviction loop preserves the invariants and ends either fitting the
/// requested bytes or with nothing left to evict (an empty cache).
pub proof fn lemma_evict_props(m: CacheModel, need: int)
    requires
        wf(m),
    ensures
        wf(spec_evict(m, need)),
        spec_evict(m, need).limit == m.limit,
        spec_evict(m, need).size <= m.size,
        spec_evict(m, need).size + need <= m.limit || spec_evict(m, need).by_touch.len() == 0,
    decreases m.by_touch.len(),
{
    if m.size + need <= m.limit || m.by_touch.len() == 0 {
    } else {
        lemma_evict_step_eq(m);
        lemma_evict_props(evict_step(m), need);
    }
}

/// Under the invariants, the forced collection step is exactly a full
/// delete of the first key of the expiry index.
pub proof fn lemma_gc_step_eq(m: CacheModel)
    requires
        wf(m),
        m.by_ttl.len() > 0,
    ensures
        gc_step(m) == spec_delete(m, m.by_ttl[0].key).0,
        wf(gc_step(m)),
        gc_step(m).limit == m.limit,
        gc_step(m).size <= m.size,
        gc_step(m).by_ttl.len() == m.by_ttl.len() - 1,
{
    let k0 = m.by_ttl[0].key;
    assert(contains_key(m.entries, k0));
    assert(entry_of(m.entries, k0).expiry == Some(m.by_ttl[0].instant));
    lemma_delete_wf(m, k0);
    let d = spec_delete(m, k0).0;
    lemma_pair_idx(m.by_ttl, 0);
    assert(index_contains(m.by_ttl, k0));
    assert(d.by_ttl == m.by_ttl.remove(0));
    assert(m.by_ttl.remove(0) =~= m.by_ttl.drop_first());
    assert(gc_step(m) =~= d);
}

/// Garbage collection preserves the invariants and leaves no pair that
/// expired strictly before `now`.
pub proof fn lemma_gc_props(m: CacheModel, now: int)
    requires
        wf(m),
    ensures
        wf(spec_gc(m, now)),
        spec_gc(m, now).limit == m.limit,
        spec_gc(m, now).size <= m.size,
        spec_gc(m, now).by_ttl.len() == 0 || spec_gc(m, now).by_ttl[0].instant >= now,
    decreases m.by_ttl.len(),
{
    if m.by_ttl.len() == 0 || m.by_ttl[0].instant >= now {
    } else {
        lemma_gc_step_eq(m);
        lemma_gc_props(gc_step(m), now);
    }
}

/// Admission preserves every invariant. Admission succeeds exactly when the
/// value alone fits under the capacity — everything else can be evicted to
/// make room — and then the new entry is resident; a rejection leaves the
/// cache empty, everything having been evicted in the failed attempt to make
/// room.
pub proof fn lemma_set_props(m: CacheModel, k: Seq<char>, v: Seq<u8>, ttl: Option<int>, now: int)
    requires
        wf(m),
        0 <= now <= u64::MAX,
        ttl is Some ==> 0 <= ttl->0,
    ensures
        wf(spec_set(m, k, v, ttl, now).0),
        spec_set(m, k, v, ttl, now).0.limit == m.limit,
        spec_set(m, k, v, ttl, now).1 <==> v.len() <= m.limit,
        spec_set(m, k, v, ttl, now).1 ==> {
            &&& contains_key(spec_set(m, k, v, ttl, now).0.entries, k)
            &&& entry_of(spec_set(m, k, v, ttl, now).0.entries, k) == (EntryModel {
                key: k,
                data: v,
                touch: now,
                expiry: expiry_of(ttl, now),
            })
        },
        !spec_set(m, k, v, ttl, now).1 ==> {
            &&& spec_set(m, k, v, ttl, now).0.size == 0
            &&& spec_set(m, k, v, ttl, now).0.entries.len() == 0
        },
{
    let m1 = if m.size + v.len() > m.limit {
        spec_gc(m, now)
    } else {
        m
    };
    if m.size + v.len() > m.limit {
        lemma_gc_props(m, now);
    }
    assert(wf(m1) && m1.limit == m.limit && m1.size <= m.size);
    lemma_evict_props(m1, v.len() as int);
    let m2 = spec_evict(m1, v.len() as int);
    if m2.size + v.len() > m2.limit {
        // Still no room: eviction must have drained the cache entirely, so
        // the value alone is over the capacity.
        assert(m2.by_touch.len() == 0);
        assert(m2.entries.len() == 0);
        assert(m2.entries =~= Seq::<EntryModel>::empty());
        assert(total_size(m2.entries) == 0);
        assert(v.len() > m.limit);
    } else {
        lemma_delete_wf(m2, k);
        lemma_insert_wf(m2, k, v, ttl, now);
        assert(v.len() <= m.limit);
    }
}

} // verus!
