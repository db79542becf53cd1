//! Laws that relate whole operations of the cache, stated and proved over
//! the abstract model of [`crate::model`].
use vstd::prelude::*;

use crate::model::{
    contains_key, entry_of, expiry_of, index_has, lemma_delete_wf, lemma_entry_idx,
    lemma_gc_props, lemma_index_insert, lemma_insert_pos, lemma_insert_wf, lemma_pair_idx,
    lemma_set_props, insert_pair, insert_pos, live_at, sat_add, spec_delete, spec_evict, spec_gc,
    spec_get, spec_insert, spec_set, wf, CacheModel, EntryModel,
};

verus! {

/// After a delete the cross-structure invariants hold.
pub proof fn law_wf_preserved_by_delete(m: CacheModel, k: Seq<char>)
    requires
        wf(m),
    ensures
        wf(spec_delete(m, k).0),
{
    lemma_delete_wf(m, k);
}

/// After a store — admitted or rejected — the cross-structure invariants
/// hold, and in particular the size counter stays within the capacity.
pub proof fn law_wf_preserved_by_set(
    m: CacheModel,
    k: Seq<char>,
    v: Seq<u8>,
    ttl: Option<int>,
    now: int,
)
    requires
        wf(m),
        0 <= now <= u64::MAX,
        ttl is Some ==> 0 <= ttl->0,
    ensures
        wf(spec_set(m, k, v, ttl, now).0),
        spec_set(m, k, v, ttl, now).0.size <= m.limit,
{
    lemma_set_props(m, k, v, ttl, now);
}

/// After garbage collection the cross-structure invariants hold.
pub proof fn law_wf_preserved_by_gc(m: CacheModel, now: int)
    requires
        wf(m),
    ensures
        wf(spec_gc(m, now)),
{
    lemma_gc_props(m, now);
}

/// Every key of the primary table is indexed under its own touch instant,
/// under its own expiry instant when it has one, and every index pair points
/// back at a resident entry whose key equals the pair's key: the three
/// structures agree on the keys they share.
pub proof fn law_indexes_agree_with_store(m: CacheModel)
    requires
        wf(m),
    ensures
        forall|i: int|
            0 <= i < m.entries.len() ==> index_has(
                m.by_touch,
                m.entries[i].touch,
                #[trigger] m.entries[i].key,
            ),
        forall|i: int|
            0 <= i < m.entries.len() && m.entries[i].expiry is Some ==> index_has(
                m.by_ttl,
                m.entries[i].expiry->0,
                #[trigger] m.entries[i].key,
            ),
        forall|q: int|
            0 <= q < m.by_touch.len() ==> contains_key(m.entries, #[trigger] m.by_touch[q].key),
        forall|q: int|
            0 <= q < m.by_ttl.len() ==> contains_key(m.entries, #[trigger] m.by_ttl[q].key),
{
}

/// A read that found nothing keeps finding nothing as time moves forward:
/// absence on the read path is monotone in the clock, and a read mutates
/// nothing, so two consecutive reads agree.
pub proof fn law_get_absent_monotone(m: CacheModel, k: Seq<char>, now1: int, now2: int)
    requires
        spec_get(m, k, now1) is None,
        now1 <= now2,
    ensures
        spec_get(m, k, now2) is None,
{
}

/// An entry whose expiry lies strictly before the clock is reported absent
/// by a read, with no garbage collection involved and no mutation.
pub proof fn law_expired_read_absent(m: CacheModel, k: Seq<char>, now: int)
    requires
        contains_key(m.entries, k) ==> match entry_of(m.entries, k).expiry {
            Some(t) => t < now,
            None => false,
        },
    ensures
        spec_get(m, k, now) is None,
{
}

/// A read directly after an admitted store sees the stored bytes, until the
/// chosen time-to-live (if any) has passed.
pub proof fn law_set_then_get(
    m: CacheModel,
    k: Seq<char>,
    v: Seq<u8>,
    ttl: Option<int>,
    now: int,
    now2: int,
)
    requires
        wf(m),
        0 <= now <= u64::MAX,
        ttl is Some ==> 0 <= ttl->0,
        v.len() <= m.limit,
    ensures
        spec_set(m, k, v, ttl, now).1,
        spec_get(spec_set(m, k, v, ttl, now).0, k, now2) == if match ttl {
            Some(d) => now2 <= sat_add(now, d),
            None => true,
        } {
            Some(v)
        } else {
            None
        },
{
    lemma_set_props(m, k, v, ttl, now);
}

/// Storing a fresh key and deleting it again restores the size counter and
/// all three structures exactly, when the value fits without first evicting
/// or collecting anything.
pub proof fn law_set_then_delete_roundtrip(m: CacheModel, k: Seq<char>, v: Seq<u8>, now: int)
    requires
        wf(m),
        !contains_key(m.entries, k),
        m.size + v.len() <= m.limit,
        0 <= now <= u64::MAX,
    ensures
        spec_set(m, k, v, None, now).1,
        spec_delete(spec_set(m, k, v, None, now).0, k).0 == m,
{
    let need: int = v.len() as int;
    assert(spec_evict(m, need) == m) by {
        crate::model::lemma_evict_props(m, need);
    }
    let ins = spec_insert(m, k, v, None, now);
    assert(spec_set(m, k, v, None, now) == (ins, true));
    assert(spec_delete(m, k).0 == m);
    let e = EntryModel { key: k, data: v, touch: now, expiry: None };
    let es = m.entries.push(e);
    assert(ins.entries == es);
    assert(ins.by_ttl == m.by_ttl);
    lemma_insert_wf(m, k, v, None, now);
    let n: int = m.entries.len() as int;
    assert(es[n] == e);
    lemma_entry_idx(es, n);
    let d = spec_delete(ins, k);
    assert(d.0.entries == es.remove(n));
    assert(es.remove(n) =~= m.entries);
    assert(!crate::model::index_contains(m.by_touch, k)) by {
        if crate::model::index_contains(m.by_touch, k) {
            let q: int = choose|q: int|
                0 <= q < m.by_touch.len() && m.by_touch[q].key == k;
            assert(contains_key(m.entries, m.by_touch[q].key));
        }
    }
    lemma_index_insert(m.by_touch, now, k);
    lemma_insert_pos(m.by_touch, now);
    let pos: int = insert_pos(m.by_touch, now);
    let bt = insert_pair(m.by_touch, now, k);
    assert(ins.by_touch == bt);
    assert(bt[pos].key == k);
    lemma_pair_idx(bt, pos);
    assert(d.0.by_touch == bt.remove(pos));
    assert(bt.remove(pos) =~= m.by_touch);
    assert(entry_of(es, k) == e);
    assert(d.0.by_ttl == m.by_ttl);
    assert(d.0.size == m.size);
    assert(d.0 =~= m);
}

/// Garbage collection is idempotent: a second collection at the same
/// instant, with no mutation in between, changes nothing.
pub proof fn law_gc_idempotent(m: CacheModel, now: int)
    requires
        wf(m),
    ensures
        spec_gc(spec_gc(m, now), now) == spec_gc(m, now),
{
    lemma_gc_props(m, now);
}

} // verus!
