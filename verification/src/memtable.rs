//! The memtable: an ordered map from key to value, kept as a sorted run.
//!
//! A deletion is held as an entry with an empty value, so that it shadows
//! older runs until it is flushed with the rest.

use vstd::prelude::*;
use crate::entries::{
    lemma_absent_when_bracketed, lemma_replay_insert_at, lemma_replay_len,
    lemma_replay_remove_at, lemma_replay_sorted_at, lemma_replay_update_at, replay,
    strictly_sorted, Record,
};
use crate::order::{compare_keys, key_lt, lemma_key_lt_transitive, KeyOrder};

verus! {

/// One entry of a sorted run.
#[derive(Debug)]
pub struct Entry {
    pub key: Vec<u8>,
    pub value: Vec<u8>,
}

/// The records held by a vector of entries.
pub open spec fn run_view(entries: Seq<Entry>) -> Seq<Record> {
    entries.map_values(|e: Entry| (e.key@, e.value@))
}

/// The bytes that the entries of a run account for: each key and value, and
/// 32 bytes of bookkeeping per entry.
pub open spec fn footprint(run: Seq<Record>) -> nat
    decreases run.len(),
{
    if run.len() == 0 {
        0
    } else {
        footprint(run.drop_last()) + run.last().0.len() + run.last().1.len() + 32
    }
}

/// Where a key stands in a sorted run.
pub struct Place {
    /// Whether the run holds the key.
    pub found: bool,
    /// The index of the key if the run holds it, else the index at which it
    /// would be inserted.
    pub index: usize,
}

#[derive(Debug)]
pub struct Memtable {
    entries: Vec<Entry>,
}

impl View for Memtable {
    type V = Map<Seq<u8>, Seq<u8>>;

    /// The map from each key to its value; a deleted key maps to the empty
    /// value.
    open spec fn view(&self) -> Map<Seq<u8>, Seq<u8>> {
        replay(self.run())
    }
}

impl Memtable {
    /// The entries in key order.
    pub closed spec fn run(&self) -> Seq<Record> {
        run_view(self.entries@)
    }

    /// The keys are strictly increasing.
    pub open spec fn wf(&self) -> bool {
        strictly_sorted(self.run())
    }

    /// The table's map has as many keys as the table has entries.
    pub proof fn lemma_len(&self)
        requires
            self.wf(),
        ensures
            self@.dom().finite(),
            self@.len() == self.run().len(),
    {
        lemma_replay_len(self.run());
    }

    /// An empty table.
    pub fn new() -> (table: Self)
        ensures
            table.wf(),
            table.run().len() == 0,
            table@ == Map::<Seq<u8>, Seq<u8>>::empty(),
    {
        let table = Memtable { entries: Vec::new() };
        assert(table.run() =~= Seq::<Record>::empty());
        table
    }

    /// The number of entries, tombstones included.
    pub fn len(&self) -> (n: usize)
        ensures
            n == self.run().len(),
    {
        self.entries.len()
    }

    pub fn is_empty(&self) -> (empty: bool)
        ensures
            empty == (self.run().len() == 0),
    {
        self.entries.len() == 0
    }

    /// Finds `key` by binary search.
    pub fn locate(&self, key: &[u8]) -> (place: Place)
        requires
            self.wf(),
        ensures
            place.index <= self.run().len(),
            place.found ==> place.index < self.run().len() && self.run()[place.index as int].0
                == key@,
            place.found == self@.contains_key(key@),
            forall|i: int| 0 <= i < place.index ==> key_lt(self.run()[i].0, key@),
            forall|i: int|
                place.index <= i < self.run().len() && !(place.found && i == place.index)
                    ==> key_lt(key@, self.run()[i].0),
    {
        let ghost run = self.run();
        let mut lo: usize = 0;
        let mut hi: usize = self.entries.len();
        while lo < hi
            invariant
                lo <= hi <= self.entries.len(),
                run == self.run(),
                strictly_sorted(run),
                forall|i: int| 0 <= i < lo ==> key_lt(run[i].0, key@),
                forall|i: int| hi <= i < run.len() ==> key_lt(key@, run[i].0),
            decreases hi - lo,
        {
            let mid = lo + (hi - lo) / 2;
            match compare_keys(self.entries[mid].key.as_slice(), key) {
                KeyOrder::Same => {
                    proof {
                        lemma_replay_sorted_at(run, mid as int);
                        assert forall|i: int| 0 <= i < mid implies key_lt(run[i].0, key@) by {}
                        assert forall|i: int| mid < i < run.len() implies key_lt(
                            key@,
                            run[i].0,
                        ) by {}
                    }
                    return Place { found: true, index: mid };
                },
                KeyOrder::Before => {
                    proof {
                        assert forall|i: int| 0 <= i < mid + 1 implies key_lt(run[i].0, key@) by {
                            if i < mid {
                                lemma_key_lt_transitive(run[i].0, run[mid as int].0, key@);
                            }
                        }
                    }
                    lo = mid + 1;
                },
                KeyOrder::After => {
                    proof {
                        assert forall|i: int| mid <= i < run.len() implies key_lt(
                            key@,
                            run[i].0,
                        ) by {
                            if i > mid {
                                lemma_key_lt_transitive(key@, run[mid as int].0, run[i].0);
                            }
                        }
                    }
                    hi = mid;
                },
            }
        }
        proof {
            lemma_absent_when_bracketed(run, key@, lo as int);
        }
        Place { found: false, index: lo }
    }

    /// Sets the value of `key`, replacing the one it had.
    pub fn insert(&mut self, key: Vec<u8>, value: Vec<u8>)
        requires
            old(self).wf(),
        ensures
            final(self).wf(),
            final(self)@ == old(self)@.insert(key@, value@),
            final(self).run().len() == old(self).run().len() + if old(self)@.contains_key(key@) {
                0int
            } else {
                1int
            },
    {
        let place = self.locate(key.as_slice());
        let ghost run = self.run();
        if place.found {
            proof {
                lemma_replay_update_at(run, place.index as int, value@);
            }
            self.entries.set(place.index, Entry { key, value });
            assert(self.run() =~= run.update(place.index as int, (key@, value@)));
        } else {
            proof {
                lemma_replay_insert_at(run, place.index as int, (key@, value@));
            }
            self.entries.insert(place.index, Entry { key, value });
            assert(self.run() =~= run.insert(place.index as int, (key@, value@)));
        }
    }

    /// The value stored for `key`, which is empty if the key was deleted.
    pub fn get(&self, key: &[u8]) -> (value: Option<&Vec<u8>>)
        requires
            self.wf(),
        ensures
            match value {
                Some(v) => self@.contains_key(key@) && v@ == self@[key@],
                None => !self@.contains_key(key@),
            },
    {
        let place = self.locate(key);
        if place.found {
            proof {
                lemma_replay_sorted_at(self.run(), place.index as int);
            }
            Some(&self.entries[place.index].value)
        } else {
            None
        }
    }

    /// Takes `key` out of the table, whether it holds a value or a tombstone.
    pub fn remove(&mut self, key: &[u8])
        requires
            old(self).wf(),
        ensures
            final(self).wf(),
            final(self)@ == old(self)@.remove(key@),
    {
        let place = self.locate(key);
        if place.found {
            let ghost run = self.run();
            proof {
                lemma_replay_remove_at(run, place.index as int);
            }
            let _ = self.entries.remove(place.index);
            assert(self.run() =~= run.remove(place.index as int));
        } else {
            assert(self@ =~= self@.remove(key@));
        }
    }

    /// Empties the table.
    pub fn clear(&mut self)
        ensures
            final(self).wf(),
            final(self).run().len() == 0,
            final(self)@ == Map::<Seq<u8>, Seq<u8>>::empty(),
    {
        self.entries.clear();
        assert(self.run() =~= Seq::<Record>::empty());
    }

    /// The entry at place `i` of the key order.
    pub fn entry_at(&self, i: usize) -> (entry: &Entry)
        requires
            i < self.run().len(),
        ensures
            (entry.key@, entry.value@) == self.run()[i as int],
    {
        &self.entries[i]
    }

    /// The bytes that the table accounts for, or `u64::MAX` if they are more.
    pub fn size_bytes(&self) -> (bytes: u64)
        ensures
            bytes == if footprint(self.run()) <= u64::MAX {
                footprint(self.run())
            } else {
                u64::MAX as nat
            },
    {
        let ghost run = self.run();
        let mut total: u64 = 0;
        let mut i: usize = 0;
        assert(run.take(0) =~= Seq::<Record>::empty());
        while i < self.entries.len()
            invariant
                i <= self.entries.len(),
                run == self.run(),
                total == if footprint(run.take(i as int)) <= u64::MAX {
                    footprint(run.take(i as int))
                } else {
                    u64::MAX as nat
                },
            decreases self.entries.len() - i,
        {
            let e = &self.entries[i];
            proof {
                assert(run.take(i + 1).drop_last() =~= run.take(i as int));
                assert(run.take(i + 1).last() == run[i as int]);
            }
            let here = (e.key.len() as u64).saturating_add(e.value.len() as u64).saturating_add(32);
            total = total.saturating_add(here);
            i += 1;
        }
        assert(run.take(i as int) =~= run);
        total
    }
}

} // verus!
