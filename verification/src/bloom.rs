//! A bloom filter: a fixed bit vector probed at `k` places per key.
//!
//! The filter answers "not present" with certainty and "present" as a hint.
//! Its geometry, the number of bits and of probes, is chosen by the caller.

use vstd::prelude::*;
use crate::hash::{absorb, absorb_number, finish, fnv_fold, fnv_number, mix, FNV_OFFSET};

verus! {

/// The hash behind probe number `seed` of `key`: a 64-bit hash seeded with
/// the probe's number.
pub open spec fn probe_hash(key: Seq<u8>, seed: u64) -> u64 {
    mix(fnv_fold(fnv_number(FNV_OFFSET, seed), key))
}

/// Bit `i` of the word `w` is one.
pub open spec fn has_bit(w: u64, i: u64) -> bool {
    w & (1u64 << i) != 0
}

/// The number of 64-bit words that hold `bit_count` bits.
pub open spec fn words_for(bit_count: int) -> int {
    (bit_count + 63) / 64
}

#[derive(Debug)]
pub struct BloomFilter {
    bits: Vec<u64>,
    bit_count: usize,
    hash_functions: usize,
}

impl BloomFilter {
    /// The words of the bit vector.
    pub closed spec fn words(&self) -> Seq<u64> {
        self.bits@
    }

    /// The number of bits.
    pub closed spec fn width(&self) -> int {
        self.bit_count as int
    }

    /// The number of probes per key.
    pub closed spec fn probes(&self) -> int {
        self.hash_functions as int
    }

    /// The filter has at least one bit, and as many words as its bits need.
    pub open spec fn wf(&self) -> bool {
        &&& self.width() > 0
        &&& self.words().len() == words_for(self.width())
        &&& self.probes() >= 0
    }

    /// Bit `pos` of the filter is set.
    pub open spec fn bit(&self, pos: int) -> bool {
        &&& 0 <= pos < self.width()
        &&& has_bit(self.words()[pos / 64], (pos % 64) as u64)
    }

    /// The bit that probe `i` of `key` looks at.
    pub open spec fn probe(&self, key: Seq<u8>, i: int) -> int {
        (probe_hash(key, i as u64) as int) % self.width()
    }

    /// Some probe of `key` looks at the bit `pos`.
    pub open spec fn probed(&self, key: Seq<u8>, pos: int) -> bool {
        exists|i: int| 0 <= i < self.probes() && self.probe(key, i) == pos
    }

    /// Every bit that `key` probes is set.
    pub open spec fn might_contain_spec(&self, key: Seq<u8>) -> bool {
        forall|i: int| 0 <= i < self.probes() ==> self.bit(#[trigger] self.probe(key, i))
    }

    /// No bit is set.
    pub open spec fn is_blank(&self) -> bool {
        forall|pos: int| !self.bit(pos)
    }

    /// Filters of one geometry probe the same bits for a key.
    pub proof fn lemma_same_probes(&self, other: &BloomFilter, key: Seq<u8>, pos: int)
        requires
            self.width() == other.width(),
            self.probes() == other.probes(),
        ensures
            self.probed(key, pos) == other.probed(key, pos),
    {
        if self.probed(key, pos) {
            let i = choose|i: int| 0 <= i < self.probes() && self.probe(key, i) == pos;
            assert(other.probe(key, i) == pos);
        }
        if other.probed(key, pos) {
            let i = choose|i: int| 0 <= i < other.probes() && other.probe(key, i) == pos;
            assert(self.probe(key, i) == pos);
        }
    }

    /// An empty filter of `bit_count` bits and `hash_functions` probes per
    /// key. A filter has at least one bit: zero is taken as one.
    pub fn with_geometry(bit_count: usize, hash_functions: usize) -> (filter: Self)
        ensures
            filter.wf(),
            filter.width() == if bit_count == 0 {
                1
            } else {
                bit_count as int
            },
            filter.probes() == hash_functions,
            filter.is_blank(),
    {
        let bit_count = if bit_count == 0 {
            1
        } else {
            bit_count
        };
        let word_count = bit_count / 64 + if bit_count % 64 == 0 {
            0
        } else {
            1
        };
        let mut bits: Vec<u64> = Vec::new();
        while bits.len() < word_count
            invariant
                bits.len() <= word_count,
                forall|j: int| 0 <= j < bits.len() ==> bits@[j] == 0,
            decreases word_count - bits.len(),
        {
            bits.push(0u64);
        }
        let filter = BloomFilter { bits, bit_count, hash_functions };
        assert forall|pos: int| !filter.bit(pos) by {
            if 0 <= pos < filter.width() {
                let i = (pos % 64) as u64;
                assert(0u64 & (1u64 << i) == 0) by (bit_vector);
            }
        }
        filter
    }

    /// Puts a filter together from its stored parts. The parts must fit: at
    /// least one bit, and as many words as the bits need.
    pub fn from_parts(bits: Vec<u64>, bit_count: usize, hash_functions: usize) -> (filter: Option<
        Self,
    >)
        ensures
            filter is Some <==> bit_count > 0 && bits@.len() == words_for(bit_count as int),
            filter is Some ==> {
                let f = filter->Some_0;
                &&& f.wf()
                &&& f.words() == bits@
                &&& f.width() == bit_count
                &&& f.probes() == hash_functions
            },
    {
        if bit_count == 0 {
            return None;
        }
        let word_count = bit_count / 64 + if bit_count % 64 == 0 {
            0
        } else {
            1
        };
        if bits.len() != word_count {
            return None;
        }
        Some(BloomFilter { bits, bit_count, hash_functions })
    }

    /// The words of the bit vector, for storing the filter.
    pub fn bits(&self) -> (words: &Vec<u64>)
        ensures
            words@ == self.words(),
    {
        &self.bits
    }

    pub fn bit_count(&self) -> (n: usize)
        ensures
            n == self.width(),
    {
        self.bit_count
    }

    pub fn hash_functions(&self) -> (k: usize)
        ensures
            k == self.probes(),
    {
        self.hash_functions
    }

    /// The hash behind probe number `seed` of `key`.
    pub fn hash(key: &[u8], seed: usize) -> (h: u64)
        ensures
            h == probe_hash(key@, seed as u64),
    {
        finish(absorb(absorb_number(FNV_OFFSET, seed as u64), key))
    }

    /// Sets the bits that `key` probes, and no others.
    pub fn add(&mut self, key: &[u8])
        requires
            old(self).wf(),
        ensures
            final(self).wf(),
            final(self).width() == old(self).width(),
            final(self).probes() == old(self).probes(),
            forall|pos: int|
                final(self).bit(pos) == (old(self).bit(pos) || (0 <= pos < old(self).width()
                    && old(self).probed(key@, pos))),
            final(self).might_contain_spec(key@),
            forall|other: Seq<u8>|
                old(self).might_contain_spec(other) ==> final(self).might_contain_spec(other),
    {
        let mut i: usize = 0;
        while i < self.hash_functions
            invariant
                i <= self.hash_functions,
                self.wf(),
                old(self).wf(),
                self.width() == old(self).width(),
                self.probes() == old(self).probes(),
                forall|pos: int|
                    self.bit(pos) == (old(self).bit(pos) || (0 <= pos < self.width() && exists|
                        j: int,
                    |
                        0 <= j < i && old(self).probe(key@, j) == pos)),
            decreases self.hash_functions - i,
        {
            let h = Self::hash(key, i);
            let bit_pos = (h % (self.bit_count as u64)) as usize;
            let word_idx = bit_pos / 64;
            let bit_idx = (bit_pos % 64) as u64;
            let word = self.bits[word_idx];
            let ghost before = *self;
            assert(bit_pos as int == old(self).probe(key@, i as int));
            self.bits.set(word_idx, word | (1u64 << bit_idx));
            proof {
                assert forall|pos: int|
                    self.bit(pos) == (old(self).bit(pos) || (0 <= pos < self.width() && exists|
                        j: int,
                    |
                        0 <= j < i + 1 && old(self).probe(key@, j) == pos)) by {
                    if 0 <= pos < self.width() {
                        let b = (pos % 64) as u64;
                        if pos / 64 == word_idx as int {
                            if b == bit_idx {
                                assert(pos == bit_pos);
                                assert((word | (1u64 << bit_idx)) & (1u64 << bit_idx) != 0)
                                    by (bit_vector)
                                    requires
                                        bit_idx < 64,
                                ;
                            } else {
                                assert(((word | (1u64 << bit_idx)) & (1u64 << b) != 0) == (word
                                    & (1u64 << b) != 0)) by (bit_vector)
                                    requires
                                        bit_idx < 64,
                                        b < 64,
                                        b != bit_idx,
                                ;
                                assert(self.bit(pos) == before.bit(pos));
                            }
                        } else {
                            assert(self.bit(pos) == before.bit(pos));
                        }
                    }
                }
            }
            i += 1;
        }
        proof {
            assert forall|i: int| 0 <= i < self.probes() implies self.bit(
                #[trigger] self.probe(key@, i),
            ) by {
                assert(old(self).probe(key@, i) == self.probe(key@, i));
            }
            assert forall|other: Seq<u8>| old(self).might_contain_spec(other) implies self
                .might_contain_spec(other) by {
                assert forall|i: int| 0 <= i < self.probes() implies self.bit(
                    #[trigger] self.probe(other, i),
                ) by {
                    assert(old(self).bit(old(self).probe(other, i)));
                }
            }
        }
    }

    /// Whether every bit that `key` probes is set. `false` means that `key`
    /// was never added.
    pub fn might_contain(&self, key: &[u8]) -> (hit: bool)
        requires
            self.wf(),
        ensures
            hit == self.might_contain_spec(key@),
    {
        let mut i: usize = 0;
        while i < self.hash_functions
            invariant
                i <= self.hash_functions,
                self.wf(),
                forall|j: int| 0 <= j < i ==> self.bit(#[trigger] self.probe(key@, j)),
            decreases self.hash_functions - i,
        {
            let h = Self::hash(key, i);
            let bit_pos = (h % (self.bit_count as u64)) as usize;
            let word_idx = bit_pos / 64;
            let bit_idx = (bit_pos % 64) as u64;
            assert(bit_pos as int == self.probe(key@, i as int));
            if (self.bits[word_idx] & (1u64 << bit_idx)) == 0 {
                return false;
            }
            i += 1;
        }
        true
    }
}

} // verus!
