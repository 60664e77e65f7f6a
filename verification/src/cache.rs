//! A bounded value cache that evicts the least frequently used entry.
//!
//! The cache is advisory: a hit saves a lookup in the tiers below, a miss
//! costs nothing but that lookup.

use vstd::prelude::*;
use crate::codec::copy_bytes;
use crate::order::{compare_keys, KeyOrder};

verus! {

/// A cached value with its use count, as the contracts see it.
pub struct Slot {
    pub key: Seq<u8>,
    pub value: Seq<u8>,
    pub hits: u32,
}

/// Some slot holds `key`.
pub open spec fn holds(slots: Seq<Slot>, key: Seq<u8>) -> bool {
    exists|i: int| 0 <= i < slots.len() && slots[i].key == key
}

/// The place of a slot that holds `key`.
pub open spec fn slot_of(slots: Seq<Slot>, key: Seq<u8>) -> int {
    choose|i: int| 0 <= i < slots.len() && slots[i].key == key
}

/// No two slots hold the same key.
pub open spec fn distinct(slots: Seq<Slot>) -> bool {
    forall|i: int, j: int| 0 <= i < j < slots.len() ==> slots[i].key != slots[j].key
}

/// The cached values by key.
pub open spec fn values_of(slots: Seq<Slot>) -> Map<Seq<u8>, Seq<u8>> {
    Map::new(|k: Seq<u8>| holds(slots, k), |k: Seq<u8>| slots[slot_of(slots, k)].value)
}

/// The use counts by key.
pub open spec fn hits_of(slots: Seq<Slot>) -> Map<Seq<u8>, u32> {
    Map::new(|k: Seq<u8>| holds(slots, k), |k: Seq<u8>| slots[slot_of(slots, k)].hits)
}

/// A use count after one more use; it stays at its maximum once there.
pub open spec fn bumped(hits: u32) -> u32 {
    if hits == u32::MAX {
        hits
    } else {
        (hits + 1) as u32
    }
}

/// No cached key has fewer uses than `victim`.
pub open spec fn least_used(slots: Seq<Slot>, victim: Seq<u8>) -> bool {
    &&& holds(slots, victim)
    &&& forall|k: Seq<u8>|
        holds(slots, k) ==> hits_of(slots)[victim] <= #[trigger] hits_of(slots)[k]
}

/// Among distinct slots a key is found in its own slot.
pub proof fn lemma_slot_of(slots: Seq<Slot>, i: int)
    requires
        distinct(slots),
        0 <= i < slots.len(),
    ensures
        holds(slots, slots[i].key),
        slot_of(slots, slots[i].key) == i,
        values_of(slots)[slots[i].key] == slots[i].value,
        hits_of(slots)[slots[i].key] == slots[i].hits,
{
    let j = slot_of(slots, slots[i].key);
    assert(0 <= j < slots.len() && slots[j].key == slots[i].key);
    if i < j {
    } else if j < i {
    }
}

#[derive(Debug)]
pub struct CacheEntry {
    key: Vec<u8>,
    value: Vec<u8>,
    access_count: u32,
    last_access: u64,
}

impl CacheEntry {
    pub closed spec fn slot(&self) -> Slot {
        Slot { key: self.key@, value: self.value@, hits: self.access_count }
    }
}

#[derive(Debug)]
pub struct UltraFastCache {
    capacity: usize,
    entries: Vec<CacheEntry>,
    clock: u64,
}

impl View for UltraFastCache {
    type V = Map<Seq<u8>, Seq<u8>>;

    /// The cached values by key.
    open spec fn view(&self) -> Map<Seq<u8>, Seq<u8>> {
        values_of(self.slots())
    }
}

impl UltraFastCache {
    /// The occupied slots.
    pub closed spec fn slots(&self) -> Seq<Slot> {
        self.entries@.map_values(|e: CacheEntry| e.slot())
    }

    /// The number of slots.
    pub closed spec fn limit(&self) -> int {
        self.capacity as int
    }

    /// The next timestamp that the cache hands out.
    pub closed spec fn ticks(&self) -> u64 {
        self.clock
    }

    /// The use counts by key.
    pub open spec fn hits(&self) -> Map<Seq<u8>, u32> {
        hits_of(self.slots())
    }

    /// No key is cached twice, and no more keys than there are slots.
    pub open spec fn wf(&self) -> bool {
        &&& distinct(self.slots())
        &&& self.slots().len() <= self.limit()
    }

    /// An empty cache of `capacity` slots.
    pub fn new(capacity: usize) -> (cache: Self)
        ensures
            cache.wf(),
            cache.limit() == capacity,
            cache.slots().len() == 0,
            cache@ == Map::<Seq<u8>, Seq<u8>>::empty(),
    {
        let cache = UltraFastCache { capacity, entries: Vec::new(), clock: 0 };
        assert(cache@ =~= Map::<Seq<u8>, Seq<u8>>::empty());
        cache
    }

    /// The number of cached keys.
    pub fn len(&self) -> (n: usize)
        ensures
            n == self.slots().len(),
    {
        self.entries.len()
    }

    /// The number of cached keys is the number of slots in use.
    pub proof fn lemma_len(&self)
        requires
            self.wf(),
        ensures
            self@.dom().finite(),
            self@.len() == self.slots().len(),
    {
        lemma_values_len(self.slots());
    }

    /// Hands out a timestamp; each is one more than the last, and after the
    /// largest comes zero.
    pub fn get_timestamp(&mut self) -> (now: u64)
        ensures
            now == old(self).ticks(),
            final(self).ticks() == if now == u64::MAX {
                0
            } else {
                (now + 1) as u64
            },
            final(self).slots() == old(self).slots(),
            final(self).limit() == old(self).limit(),
    {
        let now = self.clock;
        self.clock = if now == u64::MAX {
            0
        } else {
            now + 1
        };
        now
    }

    /// The place of the slot that holds `key`.
    fn find(&self, key: &[u8]) -> (place: Option<usize>)
        ensures
            match place {
                Some(i) => i < self.slots().len() && self.slots()[i as int].key == key@,
                None => !holds(self.slots(), key@),
            },
    {
        let mut i: usize = 0;
        while i < self.entries.len()
            invariant
                i <= self.entries.len(),
                forall|j: int| 0 <= j < i ==> self.slots()[j].key != key@,
            decreases self.entries.len() - i,
        {
            match compare_keys(self.entries[i].key.as_slice(), key) {
                KeyOrder::Same => {
                    return Some(i);
                },
                _ => {},
            }
            i += 1;
        }
        None
    }

    /// Marks the slot at `i` as used once more.
    fn touch(&mut self, i: usize)
        requires
            old(self).wf(),
            i < old(self).slots().len(),
        ensures
            final(self).wf(),
            final(self).limit() == old(self).limit(),
            final(self).slots() == old(self).slots().update(
                i as int,
                Slot { hits: bumped(old(self).slots()[i as int].hits), ..old(self).slots()[i as int] },
            ),
    {
        let stamp = self.get_timestamp();
        let ghost before = self.slots();
        let count = self.entries[i].access_count;
        let entry = &mut self.entries[i];
        entry.access_count = if count == u32::MAX {
            count
        } else {
            count + 1
        };
        entry.last_access = stamp;
        assert(self.slots() =~= before.update(
            i as int,
            Slot { hits: bumped(before[i as int].hits), ..before[i as int] },
        ));
    }

    /// The cached value of `key`, if there is one; a hit counts as a use.
    pub fn get(&mut self, key: &[u8]) -> (value: Option<Vec<u8>>)
        requires
            old(self).wf(),
        ensures
            final(self).wf(),
            final(self).limit() == old(self).limit(),
            final(self)@ == old(self)@,
            match value {
                Some(v) => old(self)@.contains_key(key@) && v@ == old(self)@[key@],
                None => !old(self)@.contains_key(key@),
            },
            value is Some ==> final(self).hits() == old(self).hits().insert(
                key@,
                bumped(old(self).hits()[key@]),
            ),
            value is None ==> final(self).hits() == old(self).hits(),
    {
        match self.find(key) {
            None => {
                proof {
                    assert(self.hits() =~= old(self).hits());
                }
                None
            },
            Some(i) => {
                let ghost before = self.slots();
                proof {
                    lemma_slot_of(before, i as int);
                }
                self.touch(i);
                let value = copy_bytes(self.entries[i].value.as_slice());
                proof {
                    lemma_touch_maps(before, i as int);
                    assert(self.slots()[i as int].value == self.entries@[i as int].value@);
                }
                Some(value)
            },
        }
    }

    /// Takes out the entry with the fewest uses, the first such in slot
    /// order, and returns the place it had.
    pub fn evict_lfu(&mut self) -> (victim: usize)
        requires
            old(self).wf(),
            old(self).slots().len() > 0,
        ensures
            final(self).wf(),
            final(self).limit() == old(self).limit(),
            victim < old(self).slots().len(),
            least_used(old(self).slots(), old(self).slots()[victim as int].key),
            final(self).slots() == old(self).slots().remove(victim as int),
            final(self)@ == old(self)@.remove(old(self).slots()[victim as int].key),
            final(self).hits() == old(self).hits().remove(old(self).slots()[victim as int].key),
    {
        let ghost before = self.slots();
        let mut min_access = self.entries[0].access_count;
        let mut victim_index: usize = 0;
        let mut i: usize = 1;
        while i < self.entries.len()
            invariant
                1 <= i <= self.entries.len(),
                before == self.slots(),
                victim_index < i,
                min_access == before[victim_index as int].hits,
                forall|j: int| 0 <= j < i ==> min_access <= before[j].hits,
            decreases self.entries.len() - i,
        {
            if self.entries[i].access_count < min_access {
                min_access = self.entries[i].access_count;
                victim_index = i;
            }
            i += 1;
        }
        let _ = self.entries.remove(victim_index);
        proof {
            assert(self.slots() =~= before.remove(victim_index as int));
            lemma_remove_maps(before, victim_index as int);
            lemma_slot_of(before, victim_index as int);
            assert forall|k: Seq<u8>| holds(before, k) implies hits_of(before)[before[
                victim_index as int
            ].key] <= #[trigger] hits_of(before)[k] by {
                let j = slot_of(before, k);
                lemma_slot_of(before, j);
            }
        }
        victim_index
    }

    /// Caches `value` for `key`. A key that is cached gets the new value and
    /// one more use. A new key takes a free slot; if none is free, the least
    /// frequently used entry makes room. A cache without slots stays empty.
    pub fn put(&mut self, key: Vec<u8>, value: Vec<u8>)
        requires
            old(self).wf(),
        ensures
            final(self).wf(),
            final(self).limit() == old(self).limit(),
            old(self)@.contains_key(key@) ==> {
                &&& final(self)@ == old(self)@.insert(key@, value@)
                &&& final(self).hits() == old(self).hits().insert(
                    key@,
                    bumped(old(self).hits()[key@]),
                )
            },
            !old(self)@.contains_key(key@) && old(self).limit() == 0 ==> final(self).slots()
                == old(self).slots(),
            !old(self)@.contains_key(key@) && old(self).slots().len() < old(self).limit() ==> {
                &&& final(self)@ == old(self)@.insert(key@, value@)
                &&& final(self).hits() == old(self).hits().insert(key@, 1)
            },
            !old(self)@.contains_key(key@) && 0 < old(self).limit() == old(self).slots().len()
                ==> exists|victim: Seq<u8>|
                {
                    &&& least_used(old(self).slots(), victim)
                    &&& final(self)@ == old(self)@.remove(victim).insert(key@, value@)
                    &&& final(self).hits() == old(self).hits().remove(victim).insert(key@, 1)
                },
            forall|k: Seq<u8>|
                #[trigger] final(self)@.contains_key(k) ==> (k == key@ && final(self)@[k] == value@)
                    || (old(self)@.contains_key(k) && final(self)@[k] == old(self)@[k]),
    {
        let ghost before = self.slots();
        match self.find(key.as_slice()) {
            Some(i) => {
                proof {
                    lemma_slot_of(before, i as int);
                }
                self.entries[i].value = value;
                let ghost mid = self.slots();
                assert(mid =~= before.update(i as int, Slot { value: value@, ..before[i as int] }));
                self.touch(i);
                proof {
                    lemma_update_maps(before, i as int, value@);
                    assert(self.slots() =~= before.update(
                        i as int,
                        Slot {
                            key: before[i as int].key,
                            value: value@,
                            hits: bumped(before[i as int].hits),
                        },
                    ));
                }
            },
            None => {
                if self.capacity == 0 {
                    return ;
                }
                let ghost mut victim: Seq<u8> = Seq::empty();
                if self.entries.len() >= self.capacity {
                    let at = self.evict_lfu();
                    proof {
                        victim = before[at as int].key;
                    }
                }
                let ghost mid = self.slots();
                let stamp = self.get_timestamp();
                self.entries.push(CacheEntry { key, value, access_count: 1, last_access: stamp });
                proof {
                    let slot = Slot { key: key@, value: value@, hits: 1 };
                    assert(self.slots() =~= mid.push(slot));
                    assert(!holds(mid, key@)) by {
                        if holds(mid, key@) {
                            let j = slot_of(mid, key@);
                            if before.len() >= self.limit() {
                                let at = slot_of(before, victim);
                                lemma_slot_of(before, at);
                            }
                            assert(values_of(mid).contains_key(key@));
                        }
                    }
                    lemma_push_maps(mid, slot);
                    if before.len() >= self.limit() {
                        assert(least_used(before, victim));
                    }
                }
            },
        }
    }

    /// Empties the cache.
    pub fn clear(&mut self)
        ensures
            final(self).wf(),
            final(self).limit() == old(self).limit(),
            final(self).slots().len() == 0,
            final(self)@ == Map::<Seq<u8>, Seq<u8>>::empty(),
    {
        self.entries.clear();
        assert(self@ =~= Map::<Seq<u8>, Seq<u8>>::empty());
    }
}

/// Distinct slots make a map with as many keys as there are slots.
pub proof fn lemma_values_len(slots: Seq<Slot>)
    requires
        distinct(slots),
    ensures
        values_of(slots).dom().finite(),
        values_of(slots).len() == slots.len(),
    decreases slots.len(),
{
    if slots.len() == 0 {
        assert(values_of(slots) =~= Map::<Seq<u8>, Seq<u8>>::empty());
    } else {
        let front = slots.drop_last();
        let last = slots.last();
        assert(distinct(front));
        lemma_values_len(front);
        assert(!holds(front, last.key)) by {
            if holds(front, last.key) {
                let j = slot_of(front, last.key);
                assert(slots[j].key == slots[slots.len() - 1].key);
            }
        }
        lemma_push_maps(front, last);
        assert(front.push(last) =~= slots);
    }
}

/// One more use of a slot changes its count and nothing else.
pub proof fn lemma_touch_maps(slots: Seq<Slot>, i: int)
    requires
        distinct(slots),
        0 <= i < slots.len(),
    ensures
        ({
            let after = slots.update(i, Slot { hits: bumped(slots[i].hits), ..slots[i] });
            &&& distinct(after)
            &&& values_of(after) == values_of(slots)
            &&& hits_of(after) == hits_of(slots).insert(slots[i].key, bumped(slots[i].hits))
        }),
{
    let after = slots.update(i, Slot { hits: bumped(slots[i].hits), ..slots[i] });
    assert(distinct(after));
    assert forall|k: Seq<u8>| holds(after, k) == holds(slots, k) by {
        if holds(after, k) {
            let j = slot_of(after, k);
            assert(slots[j].key == k);
        }
        if holds(slots, k) {
            let j = slot_of(slots, k);
            assert(after[j].key == k);
        }
    }
    assert forall|k: Seq<u8>| holds(slots, k) implies values_of(after)[k] == values_of(slots)[k]
        && hits_of(after)[k] == hits_of(slots).insert(slots[i].key, bumped(slots[i].hits))[k] by {
        let j = slot_of(slots, k);
        lemma_slot_of(slots, j);
        lemma_slot_of(after, j);
    }
    assert(values_of(after) =~= values_of(slots));
    assert(hits_of(after) =~= hits_of(slots).insert(slots[i].key, bumped(slots[i].hits)));
}

/// A new value in a slot, with one more use, changes that key's entry only.
pub proof fn lemma_update_maps(slots: Seq<Slot>, i: int, value: Seq<u8>)
    requires
        distinct(slots),
        0 <= i < slots.len(),
    ensures
        ({
            let after = slots.update(
                i,
                Slot { key: slots[i].key, value, hits: bumped(slots[i].hits) },
            );
            &&& distinct(after)
            &&& values_of(after) == values_of(slots).insert(slots[i].key, value)
            &&& hits_of(after) == hits_of(slots).insert(slots[i].key, bumped(slots[i].hits))
        }),
{
    let after = slots.update(i, Slot { key: slots[i].key, value, hits: bumped(slots[i].hits) });
    assert(distinct(after));
    assert forall|k: Seq<u8>| holds(after, k) == holds(slots, k) by {
        if holds(after, k) {
            let j = slot_of(after, k);
            assert(slots[j].key == k);
        }
        if holds(slots, k) {
            let j = slot_of(slots, k);
            assert(after[j].key == k);
        }
    }
    assert forall|k: Seq<u8>| holds(slots, k) implies values_of(after)[k] == values_of(
        slots,
    ).insert(slots[i].key, value)[k] && hits_of(after)[k] == hits_of(slots).insert(
        slots[i].key,
        bumped(slots[i].hits),
    )[k] by {
        let j = slot_of(slots, k);
        lemma_slot_of(slots, j);
        lemma_slot_of(after, j);
    }
    lemma_slot_of(slots, i);
    assert(values_of(after) =~= values_of(slots).insert(slots[i].key, value));
    assert(hits_of(after) =~= hits_of(slots).insert(slots[i].key, bumped(slots[i].hits)));
}

/// Taking a slot out takes its key out of the maps.
pub proof fn lemma_remove_maps(slots: Seq<Slot>, i: int)
    requires
        distinct(slots),
        0 <= i < slots.len(),
    ensures
        distinct(slots.remove(i)),
        values_of(slots.remove(i)) == values_of(slots).remove(slots[i].key),
        hits_of(slots.remove(i)) == hits_of(slots).remove(slots[i].key),
{
    let after = slots.remove(i);
    assert(distinct(after));
    assert forall|k: Seq<u8>| holds(after, k) == (holds(slots, k) && k != slots[i].key) by {
        if holds(after, k) {
            let j = slot_of(after, k);
            if j < i {
                assert(slots[j].key == k);
            } else {
                assert(slots[j + 1].key == k);
            }
        }
        if holds(slots, k) && k != slots[i].key {
            let j = slot_of(slots, k);
            if j < i {
                assert(after[j].key == k);
            } else {
                assert(after[j - 1].key == k);
            }
        }
    }
    assert forall|k: Seq<u8>| holds(after, k) implies values_of(after)[k] == values_of(slots)[k]
        && hits_of(after)[k] == hits_of(slots)[k] by {
        let j = slot_of(after, k);
        lemma_slot_of(after, j);
        if j < i {
            lemma_slot_of(slots, j);
        } else {
            lemma_slot_of(slots, j + 1);
        }
    }
    assert(values_of(after) =~= values_of(slots).remove(slots[i].key));
    assert(hits_of(after) =~= hits_of(slots).remove(slots[i].key));
}

/// A slot for a key that is not cached adds that key to the maps.
pub proof fn lemma_push_maps(slots: Seq<Slot>, slot: Slot)
    requires
        distinct(slots),
        !holds(slots, slot.key),
    ensures
        distinct(slots.push(slot)),
        values_of(slots.push(slot)) == values_of(slots).insert(slot.key, slot.value),
        hits_of(slots.push(slot)) == hits_of(slots).insert(slot.key, slot.hits),
{
    let after = slots.push(slot);
    assert forall|i: int, j: int| 0 <= i < j < after.len() implies after[i].key != after[j].key by {
        if j == slots.len() {
            assert(slots[i].key != slot.key);
        }
    }
    assert forall|k: Seq<u8>| holds(after, k) == (holds(slots, k) || k == slot.key) by {
        if holds(after, k) {
            let j = slot_of(after, k);
            if j < slots.len() {
                assert(slots[j].key == k);
            }
        }
        if holds(slots, k) {
            let j = slot_of(slots, k);
            assert(after[j].key == k);
        }
        if k == slot.key {
            assert(after[slots.len() as int].key == k);
        }
    }
    assert forall|k: Seq<u8>| holds(after, k) implies values_of(after)[k] == values_of(
        slots,
    ).insert(slot.key, slot.value)[k] && hits_of(after)[k] == hits_of(slots).insert(
        slot.key,
        slot.hits,
    )[k] by {
        let j = slot_of(after, k);
        lemma_slot_of(after, j);
        if j < slots.len() {
            lemma_slot_of(slots, j);
        }
    }
    assert(values_of(after) =~= values_of(slots).insert(slot.key, slot.value));
    assert(hits_of(after) =~= hits_of(slots).insert(slot.key, slot.hits));
}

} // verus!
