//! The account Bloom filter.
//!
//! A fixed bit array over every address ever written, with a journal of the
//! 64-bit words dirtied since the last persist.  Bits are only ever set, so a
//! negative answer is definitive; the journal lets a commit write only the
//! changed words to the backing store.

use vstd::prelude::*;

use crate::ACCOUNT_BLOOM_SPACE;
use crate::ACCOUNT_BLOOM_WORDS;

verus! {

/// Multiplier of the bit-position mixing function.
pub const BLOOM_MIX_MUL: u64 = 0x5851_F42D_4C95_7F2D;

/// Increment of the bit-position mixing function.
pub const BLOOM_MIX_ADD: u64 = 0x1405_7B7E_F767_814F;

/// Bit position probed for `addr` by hash function `i`.
pub open spec fn bloom_bit_of(addr: u64, i: int) -> int {
    ((addr as int) * (BLOOM_MIX_MUL as int) + i * (BLOOM_MIX_ADD as int)) % (
    ACCOUNT_BLOOM_SPACE as int)
}

/// Whether the given bit is set in the word array.
pub open spec fn bit_is_set(words: Seq<u64>, bit: int) -> bool {
    words[bit / 64] & (1u64 << ((bit % 64) as u64)) != 0
}

/// Whether every probe for `addr` under `k` hash functions hits a set bit.
pub open spec fn bloom_has(words: Seq<u64>, k: u32, addr: u64) -> bool {
    forall|i: int| 0 <= i < k ==> bit_is_set(words, bloom_bit_of(addr, i))
}

/// The number of hash functions used for the given expected item count.
pub open spec fn bloom_k(space: int, preset: int) -> int {
    let raw = (space * 693147 + preset * 500000) / (preset * 1000000);
    if raw < 1 {
        1
    } else if raw > 255 {
        255
    } else {
        raw
    }
}

/// The words dirtied since the last drain, with their values.
pub struct BloomJournal {
    /// Number of hash functions, persisted as one byte.
    pub hash_functions: u32,
    /// Dirty word indices with their current values, ascending.
    pub entries: Vec<(u64, u64)>,
}

/// The shared account Bloom filter.
pub struct AccountBloom {
    words: Vec<u64>,
    dirty: Vec<bool>,
    hash_count: u32,
    base: Ghost<Seq<u64>>,
}

impl AccountBloom {
    /// The 64-bit words of the bit array.
    pub closed spec fn words_view(self) -> Seq<u64> {
        self.words@
    }

    /// The number of hash functions.
    pub closed spec fn hash_count_spec(self) -> u32 {
        self.hash_count
    }

    /// The word values at the last drain (what the store is expected to hold).
    pub closed spec fn base_view(self) -> Seq<u64> {
        self.base@
    }

    /// Every word that differs from its value at the last drain is journaled.
    pub closed spec fn clean_matches_base(self) -> bool {
        self.dirty@.len() == ACCOUNT_BLOOM_WORDS && forall|w: int|
            0 <= w < ACCOUNT_BLOOM_WORDS && !self.dirty@[w] ==> self.words@[w] == self.base@[w]
    }

    /// The Bloom invariant: fixed word count, a one-byte hash-function count,
    /// and a journal covering every word changed since the last drain.
    pub open spec fn wf(self) -> bool {
        &&& self.words_view().len() == ACCOUNT_BLOOM_WORDS
        &&& self.base_view().len() == ACCOUNT_BLOOM_WORDS
        &&& 1 <= self.hash_count_spec() <= 255
        &&& self.clean_matches_base()
    }

    /// A fresh, empty Bloom sized for `preset` expected items.
    pub fn new(space: usize, preset: usize) -> (r: AccountBloom)
        requires
            space == ACCOUNT_BLOOM_SPACE,
            1 <= preset <= 0xffff_ffff,
        ensures
            r.wf(),
            r.hash_count_spec() == bloom_k(space as int, preset as int),
            r.words_view().len() == ACCOUNT_BLOOM_WORDS,
            forall|w: int| 0 <= w < ACCOUNT_BLOOM_WORDS ==> r.words_view()[w] == 0,
            r.base_view() == r.words_view(),
    {
        let raw: u64 = ((space as u64) * 693147 + (preset as u64) * 500000) / ((preset as u64)
            * 1000000);
        let k: u32 = if raw < 1 {
            1
        } else if raw > 255 {
            255
        } else {
            raw as u32
        };
        let mut words: Vec<u64> = Vec::new();
        let mut dirty: Vec<bool> = Vec::new();
        let mut i: usize = 0;
        while i < ACCOUNT_BLOOM_WORDS
            invariant
                0 <= i <= ACCOUNT_BLOOM_WORDS,
                words@.len() == i,
                dirty@.len() == i,
                forall|w: int| 0 <= w < i ==> words@[w] == 0u64,
                forall|w: int| 0 <= w < i ==> dirty@[w] == false,
            decreases ACCOUNT_BLOOM_WORDS - i,
        {
            words.push(0);
            dirty.push(false);
            i += 1;
        }
        let r = AccountBloom { base: Ghost(words@), words, dirty, hash_count: k };
        r
    }

    /// Reassemble a Bloom from persisted word values.
    pub fn from_parts(parts: &Vec<u64>, hash_count: u32) -> (r: AccountBloom)
        requires
            parts@.len() == ACCOUNT_BLOOM_WORDS,
            1 <= hash_count <= 255,
        ensures
            r.wf(),
            r.words_view() == parts@,
            r.base_view() == parts@,
            r.hash_count_spec() == hash_count,
    {
        let mut words: Vec<u64> = Vec::new();
        let mut dirty: Vec<bool> = Vec::new();
        let mut i: usize = 0;
        while i < parts.len()
            invariant
                parts@.len() == ACCOUNT_BLOOM_WORDS,
                0 <= i <= ACCOUNT_BLOOM_WORDS,
                words@ =~= parts@.take(i as int),
                dirty@.len() == i,
                forall|w: int| 0 <= w < i ==> dirty@[w] == false,
            decreases parts@.len() - i,
        {
            words.push(parts[i]);
            dirty.push(false);
            i += 1;
            proof {
                assert(words@ =~= parts@.take(i as int));
            }
        }
        proof {
            assert(parts@.take(parts@.len() as int) =~= parts@);
        }
        let r = AccountBloom { base: Ghost(words@), words, dirty, hash_count };
        r
    }

    /// The number of hash functions in use.
    pub fn hash_count(&self) -> (r: u32)
        ensures
            r == self.hash_count_spec(),
    {
        self.hash_count
    }

    /// Probe the filter: `false` guarantees the address was never noted.
    pub fn check(&self, addr: u64) -> (r: bool)
        requires
            self.wf(),
        ensures
            r == bloom_has(self.words_view(), self.hash_count_spec(), addr),
    {
        let k = self.hash_count;
        let mut i: u32 = 0;
        while i < k
            invariant
                self.wf(),
                k == self.hash_count_spec(),
                0 <= i <= k,
                forall|j: int| 0 <= j < i ==> bit_is_set(self.words_view(), bloom_bit_of(addr, j)),
            decreases k - i,
        {
            let bit = bloom_bit(addr, i);
            let w = (bit / 64) as usize;
            let b: u64 = bit % 64;
            if self.words[w] & (1u64 << b) == 0 {
                return false;
            }
            i += 1;
        }
        true
    }

    /// Record the address: sets its probe bits and journals the words.
    pub fn note(&mut self, addr: u64)
        requires
            old(self).wf(),
        ensures
            final(self).wf(),
            final(self).hash_count_spec() == old(self).hash_count_spec(),
            final(self).base_view() == old(self).base_view(),
            final(self).words_view().len() == old(self).words_view().len(),
            forall|b: int|
                0 <= b < (ACCOUNT_BLOOM_SPACE as int) && bit_is_set(old(self).words_view(), b)
                    ==> bit_is_set(final(self).words_view(), b),
            bloom_has(final(self).words_view(), final(self).hash_count_spec(), addr),
    {
        let k = self.hash_count;
        let mut i: u32 = 0;
        while i < k
            invariant
                self.wf(),
                k == self.hash_count_spec(),
                self.hash_count_spec() == old(self).hash_count_spec(),
                self.base_view() == old(self).base_view(),
                self.words_view().len() == old(self).words_view().len(),
                0 <= i <= k,
                forall|b: int|
                    0 <= b < (ACCOUNT_BLOOM_SPACE as int) && bit_is_set(old(self).words_view(), b)
                        ==> bit_is_set(self.words_view(), b),
                forall|j: int| 0 <= j < i ==> bit_is_set(self.words_view(), bloom_bit_of(addr, j)),
            decreases k - i,
        {
            let bit = bloom_bit(addr, i);
            let w = (bit / 64) as usize;
            let b: u64 = bit % 64;
            let ghost pre = self.words@;
            let cur = self.words[w];
            self.words[w] = cur | (1u64 << b);
            self.dirty[w] = true;
            i += 1;
            proof {
                lemma_or_sets_bit(cur, b);
                assert forall|bb: int|
                    0 <= bb < (ACCOUNT_BLOOM_SPACE as int) && bit_is_set(pre, bb) implies bit_is_set(
                    self.words@,
                    bb,
                ) by {
                    if bb / 64 == w {
                        lemma_or_preserves_bit(cur, 1u64 << b, ((bb % 64) as u64));
                    }
                }
                assert forall|j: int| 0 <= j < i implies bit_is_set(
                    self.words@,
                    bloom_bit_of(addr, j),
                ) by {
                    if j < i - 1 {
                        let bj = bloom_bit_of(addr, j);
                        if bj / 64 == w {
                            lemma_or_preserves_bit(cur, 1u64 << b, ((bj % 64) as u64));
                        }
                    } else {
                        assert(bit_is_set(self.words@, bloom_bit_of(addr, i - 1)));
                    }
                }
            }
        }
    }

    /// Drain the journal: the dirty words with their values, ascending, and
    /// the hash-function count; the filter is marked clean.
    pub fn drain_journal(&mut self) -> (j: BloomJournal)
        requires
            old(self).wf(),
        ensures
            final(self).wf(),
            final(self).words_view() == old(self).words_view(),
            final(self).hash_count_spec() == old(self).hash_count_spec(),
            final(self).base_view() == final(self).words_view(),
            j.hash_functions == old(self).hash_count_spec(),
            1 <= j.hash_functions <= 255,
            j.entries@.len() <= ACCOUNT_BLOOM_WORDS,
            forall|t: int|
                0 <= t < j.entries@.len() ==> 0 <= ((#[trigger] j.entries@[t]).0 as int)
                    < ACCOUNT_BLOOM_WORDS && j.entries@[t].1 == old(self).words_view()[j.entries@[t].0 as int],
            forall|t1: int, t2: int|
                0 <= t1 < t2 < j.entries@.len() ==> (#[trigger] j.entries@[t1]).0 < (
                #[trigger] j.entries@[t2]).0,
            forall|w: int|
                0 <= w < ACCOUNT_BLOOM_WORDS && old(self).words_view()[w] != old(
                    self,
                ).base_view()[w] ==> exists|t: int|
                    0 <= t < j.entries@.len() && (#[trigger] j.entries@[t]).0 == w,
    {
        let mut entries: Vec<(u64, u64)> = Vec::new();
        let mut w: usize = 0;
        while w < ACCOUNT_BLOOM_WORDS
            invariant
                old(self).wf(),
                0 <= w <= ACCOUNT_BLOOM_WORDS,
                self.words@ == old(self).words@,
                self.base@ == old(self).base@,
                self.hash_count == old(self).hash_count,
                self.dirty@.len() == ACCOUNT_BLOOM_WORDS,
                forall|t: int| 0 <= t < w ==> !self.dirty@[t],
                forall|t: int| w <= t < ACCOUNT_BLOOM_WORDS ==> self.dirty@[t] == old(self).dirty@[t],
                entries@.len() <= w,
                forall|t: int|
                    0 <= t < entries@.len() ==> 0 <= ((#[trigger] entries@[t]).0 as int) < w
                        && entries@[t].1 == old(self).words@[entries@[t].0 as int],
                forall|t1: int, t2: int|
                    0 <= t1 < t2 < entries@.len() ==> (#[trigger] entries@[t1]).0 < (
                    #[trigger] entries@[t2]).0,
                forall|ww: int|
                    0 <= ww < w && old(self).words@[ww] != old(self).base@[ww] ==> exists|t: int|
                        0 <= t < entries@.len() && (#[trigger] entries@[t]).0 == ww,
            decreases ACCOUNT_BLOOM_WORDS - w,
        {
            let ghost epre = entries@;
            if self.dirty[w] {
                entries.push((w as u64, self.words[w]));
                self.dirty[w] = false;
            }
            w += 1;
            proof {
                assert forall|ww: int|
                    0 <= ww < w && old(self).words@[ww] != old(self).base@[ww] implies exists|
                    t: int,
                |
                    0 <= t < entries@.len() && (#[trigger] entries@[t]).0 == ww by {
                    if ww < w - 1 {
                        let t = choose|t: int|
                            0 <= t < epre.len() && (#[trigger] epre[t]).0 == ww;
                        assert(entries@[t].0 == ww);
                    } else {
                        assert(old(self).dirty@[ww]);
                        assert(entries@[entries@.len() - 1].0 == ww);
                    }
                }
            }
        }
        self.base = Ghost(self.words@);
        BloomJournal { hash_functions: self.hash_count, entries }
    }
}

/// Compute the probed bit position for `addr` under hash function `i`.
fn bloom_bit(addr: u64, i: u32) -> (r: u64)
    requires
        i <= 255,
    ensures
        r == bloom_bit_of(addr, i as int),
        0 <= r < ACCOUNT_BLOOM_SPACE,
{
    proof {
        assert((addr as int) * (BLOOM_MIX_MUL as int) <= 0xffff_ffff_ffff_ffff
            * 0x5851_F42D_4C95_7F2D) by (nonlinear_arith)
            requires
                0 <= addr <= 0xffff_ffff_ffff_ffff,
        ;
        assert((i as int) * (BLOOM_MIX_ADD as int) <= 255 * 0x1405_7B7E_F767_814F)
            by (nonlinear_arith)
            requires
                0 <= i <= 255,
        ;
    }
    let acc: u128 = (addr as u128) * (BLOOM_MIX_MUL as u128) + (i as u128) * (BLOOM_MIX_ADD
        as u128);
    (acc % (ACCOUNT_BLOOM_SPACE as u128)) as u64
}

/// Setting a bit by OR makes it set.
proof fn lemma_or_sets_bit(x: u64, b: u64)
    requires
        b < 64,
    ensures
        (x | (1u64 << b)) & (1u64 << b) != 0,
{
    assert((x | (1u64 << b)) & (1u64 << b) != 0) by (bit_vector)
        requires
            b < 64,
    ;
}

/// OR never clears a set bit.
proof fn lemma_or_preserves_bit(x: u64, m: u64, c: u64)
    requires
        c < 64,
    ensures
        x & (1u64 << c) != 0 ==> (x | m) & (1u64 << c) != 0,
{
    assert(x & (1u64 << c) != 0 ==> (x | m) & (1u64 << c) != 0) by (bit_vector);
}

} // verus!
