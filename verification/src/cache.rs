//! A generic expiring key-value store: each entry carries its creation time
//! and a time-to-live, and reads return only entries that are still fresh.
//!
//! Expiry is a predicate over an injected clock value, not a side effect:
//! `get` never deletes, and `set` is the only mutation path. Stale entries
//! remain until overwritten.

use vstd::prelude::*;

verus! {

/// A single cached value together with its creation time and time-to-live,
/// both in seconds.
pub struct CacheItem {
    pub val: String,
    pub created_on: u64,
    pub ttl: u64,
}

/// The mathematical content of one cache entry.
pub struct EntryModel {
    pub val: Seq<char>,
    pub created_on: u64,
    pub ttl: u64,
}

impl View for CacheItem {
    type V = EntryModel;

    open spec fn view(&self) -> EntryModel {
        EntryModel { val: self.val@, created_on: self.created_on, ttl: self.ttl }
    }
}

/// An entry is expired exactly when the clock has moved strictly past its
/// creation time plus its time-to-live.
pub open spec fn spec_expired(e: EntryModel, now: u64) -> bool {
    now > e.created_on + e.ttl
}

impl CacheItem {
    pub fn new(val: &str, ttl: u64, now: u64) -> (item: CacheItem)
        ensures
            item@ == (EntryModel { val: val@, created_on: now, ttl: ttl }),
    {
        CacheItem { val: val.to_owned(), created_on: now, ttl: ttl }
    }

    pub fn is_expired(&self, now: u64) -> (r: bool)
        ensures
            r == spec_expired(self@, now),
    {
        if now <= self.created_on {
            false
        } else {
            now - self.created_on > self.ttl
        }
    }
}

struct CacheSlot {
    key: String,
    item: CacheItem,
}

/// A map from string keys to expiring entries, keys unique.
///
/// Reads are expiry-aware; writes unconditionally insert or overwrite. There
/// is no eviction beyond the expiry predicate itself.
pub struct Cacheit {
    slots: Vec<CacheSlot>,
}

/// The map described by a sequence of slots, later slots shadowing earlier
/// ones (the slots of a well-formed cache have unique keys, so nothing is in
/// fact shadowed).
spec fn slots_map(s: Seq<CacheSlot>) -> Map<Seq<char>, EntryModel>
    decreases s.len(),
{
    if s.len() == 0 {
        Map::empty()
    } else {
        slots_map(s.drop_last()).insert(s.last().key@, s.last().item@)
    }
}

/// The stored value for `key` as seen at time `now`: the entry's value if a
/// fresh entry exists, nothing on a miss or on an expired entry.
pub open spec fn spec_get(m: Map<Seq<char>, EntryModel>, key: Seq<char>, now: u64) -> Option<
    Seq<char>,
> {
    if m.contains_key(key) && !spec_expired(m[key], now) {
        Some(m[key].val)
    } else {
        None
    }
}

impl View for Cacheit {
    type V = Map<Seq<char>, EntryModel>;

    closed spec fn view(&self) -> Map<Seq<char>, EntryModel> {
        slots_map(self.slots@)
    }
}

proof fn lemma_slots_map_found(s: Seq<CacheSlot>, i: int, k: Seq<char>)
    requires
        0 <= i < s.len(),
        s[i].key@ == k,
        forall|j: int| i < j < s.len() ==> s[j].key@ != k,
    ensures
        slots_map(s).contains_key(k),
        slots_map(s)[k] == s[i].item@,
    decreases s.len(),
{
    if i == s.len() - 1 {
    } else {
        lemma_slots_map_found(s.drop_last(), i, k);
    }
}

proof fn lemma_slots_map_absent(s: Seq<CacheSlot>, k: Seq<char>)
    requires
        forall|j: int| 0 <= j < s.len() ==> s[j].key@ != k,
    ensures
        !slots_map(s).contains_key(k),
    decreases s.len(),
{
    if s.len() > 0 {
        lemma_slots_map_absent(s.drop_last(), k);
    }
}

proof fn lemma_slots_map_update(s: Seq<CacheSlot>, i: int, slot: CacheSlot)
    requires
        0 <= i < s.len(),
        slot.key@ == s[i].key@,
        forall|p: int, q: int|
            0 <= p < q < s.len() ==> s[p].key@ != s[q].key@,
    ensures
        slots_map(s.update(i, slot)) =~= slots_map(s).insert(slot.key@, slot.item@),
    decreases s.len(),
{
    let t = s.update(i, slot);
    if i == s.len() - 1 {
        assert(t.drop_last() =~= s.drop_last());
        assert(slots_map(t) =~= slots_map(s.drop_last()).insert(slot.key@, slot.item@));
        assert(slots_map(s).insert(slot.key@, slot.item@) =~= slots_map(s.drop_last()).insert(
            slot.key@,
            slot.item@,
        ));
    } else {
        assert(t.drop_last() =~= s.drop_last().update(i, slot));
        lemma_slots_map_update(s.drop_last(), i, slot);
        assert(s.last().key@ != slot.key@);
        assert(slots_map(t) =~= slots_map(s.drop_last()).insert(slot.key@, slot.item@).insert(
            s.last().key@,
            s.last().item@,
        ));
        assert(slots_map(s.drop_last()).insert(slot.key@, slot.item@).insert(
            s.last().key@,
            s.last().item@,
        ) =~= slots_map(s).insert(slot.key@, slot.item@));
    }
}

impl Cacheit {
    /// Keys are pairwise distinct, so the view map loses nothing.
    pub closed spec fn wf(&self) -> bool {
        forall|p: int, q: int|
            0 <= p < q < self.slots@.len() ==> self.slots@[p].key@ != self.slots@[q].key@
    }

    pub fn new() -> (c: Cacheit)
        ensures
            c@ == Map::<Seq<char>, EntryModel>::empty(),
            c.wf(),
    {
        Cacheit { slots: Vec::new() }
    }

    /// Returns the value stored under `key` only if such an entry exists and
    /// is not expired at time `now`; returns nothing on a miss or on an
    /// expired entry, and never mutates the cache.
    pub fn get(&self, key: &str, now: u64) -> (r: Option<String>)
        requires
            self.wf(),
        ensures
            r.deep_view() == spec_get(self@, key@, now),
    {
        let wanted = key.to_owned();
        let n = self.slots.len();
        for i in 0..n
            invariant
                n == self.slots@.len(),
                self.wf(),
                wanted@ == key@,
                forall|j: int| 0 <= j < i ==> self.slots@[j].key@ != key@,
        {
            if self.slots[i].key == wanted {
                proof {
                    lemma_slots_map_found(self.slots@, i as int, key@);
                }
                if self.slots[i].item.is_expired(now) {
                    return None;
                } else {
                    return Some(self.slots[i].item.val.clone());
                }
            }
        }
        proof {
            lemma_slots_map_absent(self.slots@, key@);
        }
        None
    }

    /// Unconditionally inserts or overwrites the entry for `key` with a fresh
    /// creation time `now` and the given time-to-live.
    pub fn set(&mut self, key: &str, val: &str, ttl: u64, now: u64)
        requires
            old(self).wf(),
        ensures
            final(self).wf(),
            final(self)@ == old(self)@.insert(
                key@,
                EntryModel { val: val@, created_on: now, ttl: ttl },
            ),
    {
        let wanted = key.to_owned();
        let slot = CacheSlot { key: key.to_owned(), item: CacheItem::new(val, ttl, now) };
        let n = self.slots.len();
        for i in 0..n
            invariant
                n == self.slots@.len(),
                self.wf(),
                self.slots@ == old(self).slots@,
                wanted@ == key@,
                forall|j: int| 0 <= j < i ==> self.slots@[j].key@ != key@,
                slot.key@ == key@,
                slot.item@ == (EntryModel { val: val@, created_on: now, ttl: ttl }),
        {
            if self.slots[i].key == wanted {
                proof {
                    lemma_slots_map_update(self.slots@, i as int, slot);
                }
                let ghost before = self.slots@;
                self.slots[i] = slot;
                proof {
                    assert(self.slots@ == before.update(i as int, slot));
                    assert forall|p: int, q: int|
                        0 <= p < q < self.slots@.len() implies self.slots@[p].key@
                        != self.slots@[q].key@ by {
                        assert(self.slots@[p].key@ == before[p].key@);
                        assert(self.slots@[q].key@ == before[q].key@);
                    }
                    assert(self@ =~= old(self)@.insert(
                        key@,
                        EntryModel { val: val@, created_on: now, ttl: ttl },
                    ));
                }
                return ;
            }
        }
        proof {
            lemma_slots_map_absent(self.slots@, key@);
        }
        self.slots.push(slot);
        proof {
            assert(self.slots@.drop_last() =~= old(self).slots@);
            assert(slots_map(self.slots@) =~= old(self)@.insert(
                key@,
                EntryModel { val: val@, created_on: now, ttl: ttl },
            ));
        }
    }
}

/// Law: a value just stored is returned by every read up to and including
/// the moment its time-to-live elapses, and is ignored by every read
/// strictly after it.
pub proof fn lemma_cache_ttl(
    m: Map<Seq<char>, EntryModel>,
    k: Seq<char>,
    v: Seq<char>,
    ttl: u64,
    t: u64,
    t2: u64,
)
    ensures
        t <= t2 <= t + ttl ==> spec_get(
            m.insert(k, EntryModel { val: v, created_on: t, ttl: ttl }),
            k,
            t2,
        ) == Some(v),
        t2 > t + ttl ==> spec_get(
            m.insert(k, EntryModel { val: v, created_on: t, ttl: ttl }),
            k,
            t2,
        ) is None,
{
}

/// Law: after two stores to the same key, a read sees only the second value,
/// never the first.
pub proof fn lemma_cache_overwrite(
    m: Map<Seq<char>, EntryModel>,
    k: Seq<char>,
    v1: Seq<char>,
    v2: Seq<char>,
    ttl1: u64,
    ttl2: u64,
    t1: u64,
    t2: u64,
    t3: u64,
)
    ensures
        ({
            let e2 = EntryModel { val: v2, created_on: t2, ttl: ttl2 };
            let after = m.insert(k, EntryModel { val: v1, created_on: t1, ttl: ttl1 }).insert(
                k,
                e2,
            );
            &&& spec_get(after, k, t3) == (if spec_expired(e2, t3) {
                None
            } else {
                Some(v2)
            })
            &&& (v1 != v2 ==> spec_get(after, k, t3) != Some(v1))
        }),
{
}

} // verus!
