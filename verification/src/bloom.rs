//! A resizable Bloom filter over packed cell keys: power-of-two size, two
//! probes from one multiplicative hash.

use vstd::prelude::*;
use crate::arith::{pow2, lemma_pow2_mono, lemma_pow2_add, lemma_pow2_small};
use crate::coord::{Coord, spec_key_x, spec_key_y};

verus! {

/// `((x * x) mod 2^32) >> 19`, the per-axis spread of the cell hash.
pub open spec fn axis_hash(v: u32) -> u32 {
    (((v as int * v as int) % 0x1_0000_0000) as u32) >> 19u32
}

/// The 32-bit hash of a packed key: `spread(x) ^ (spread(y) << 13)`.
pub open spec fn key_hash(key: u64) -> u32 {
    axis_hash(spec_key_x(key)) ^ (axis_hash(spec_key_y(key)) << 13u32)
}

/// The two filter positions of a key under `mask`: the low and the high half of its hash.
pub open spec fn probe1(key: u64, mask: usize) -> usize {
    (key_hash(key) as usize) & mask
}

pub open spec fn probe2(key: u64, mask: usize) -> usize {
    ((key_hash(key) >> 16u32) as usize) & mask
}

/// Bit `i` of a word sequence (bit `i % 64` of word `i / 64`).
pub open spec fn bit_set(words: Seq<u64>, i: int) -> bool {
    words[i / 64] & (1u64 << ((i % 64) as u64)) != 0
}

/// The Bloom filter.
pub struct BloomFilter {
    pub bits: Vec<u64>,
    pub size_bits: usize,
    pub mask: usize,
}

impl BloomFilter {
    /// The probe mask (`size_bits - 1`).
    pub open spec fn spec_mask(&self) -> usize {
        self.mask
    }

    /// Every probe lands inside `bits`.
    pub open spec fn wf(&self) -> bool {
        self.bits.len() > 0 ==> self.spec_mask() < 64 * self.bits.len()
    }

    /// Whether `contains(key)` answers yes.
    pub open spec fn spec_contains(&self, key: u64) -> bool {
        &&& self.bits.len() > 0
        &&& bit_set(self.bits@, probe1(key, self.spec_mask()) as int)
        &&& bit_set(self.bits@, probe2(key, self.spec_mask()) as int)
    }

    /// An empty filter with no storage.
    pub fn empty() -> (b: BloomFilter)
        ensures
            b.wf(),
            b.bits.len() == 0,
            b.size_bits == 0,
            b.spec_mask() == 0,
    {
        BloomFilter { bits: Vec::new(), size_bits: 0, mask: 0 }
    }

    /// The smallest power of two not below `n` (1 when `n <= 1`).
    fn next_power_of_2(n: usize) -> (r: usize)
        requires
            n <= usize::MAX / 2 + 1,
        ensures
            n <= 1 ==> r == 1,
            exists|e: nat| r == pow2(e),
            r >= n,
            n > 1 ==> r / 2 < n,
    {
        if n <= 1 {
            proof {
                lemma_pow2_small();
            }
            return 1;
        }
        let mut p: usize = 1;
        let ghost mut e: nat = 0;
        proof {
            lemma_pow2_small();
        }
        while p < n
            invariant
                p == pow2(e),
                1 <= p,
                p / 2 < n,
                n <= usize::MAX / 2 + 1,
            decreases usize::MAX - p,
        {
            p = p * 2;
            proof {
                e = e + 1;
            }
        }
        p
    }

    /// Resets the filter for about `expected_elements` keys: `8 n` bits (at
    /// least one 64-bit word) rounded up to a power of two, every word of
    /// storage present and cleared; an empty filter when `n == 0`.
    pub fn resize(&mut self, expected_elements: usize)
        requires
            expected_elements <= usize::MAX / 16,
        ensures
            final(self).wf(),
            expected_elements == 0 ==> final(self).bits.len() == 0 && final(self).size_bits == 0
                && final(self).spec_mask() == 0,
            expected_elements > 0 ==> {
                &&& exists|e: nat| final(self).size_bits == pow2(e)
                &&& final(self).size_bits >= 8 * expected_elements
                &&& final(self).size_bits >= 64
                &&& (final(self).size_bits == 64 || final(self).size_bits / 2 < 8 * expected_elements)
                &&& final(self).bits.len() * 64 == final(self).size_bits
                &&& final(self).bits.len() > 0
                &&& final(self).spec_mask() == final(self).size_bits - 1
            },
            forall|i: int| 0 <= i < final(self).bits.len() ==> final(self).bits[i] == 0,
    {
        if expected_elements == 0 {
            self.bits.clear();
            self.size_bits = 0;
            self.mask = 0;
            return;
        }
        let raw_bits = expected_elements * 8;
        let wanted = if raw_bits < 64 { 64 } else { raw_bits };
        let size_bits = Self::next_power_of_2(wanted);
        let size_u64 = size_bits / 64;
        proof {
            let e = choose|e: nat| size_bits == pow2(e);
            lemma_pow2_small();
            if e < 6 {
                lemma_pow2_mono(e, 5);
            }
            lemma_pow2_add(6, (e - 6) as nat);
            assert(size_bits == 64 * pow2((e - 6) as nat));
            assert(size_u64 * 64 == size_bits);
        }
        if self.bits.len() != size_u64 {
            self.bits = vec![0u64; size_u64];
        } else {
            let mut i: usize = 0;
            while i < self.bits.len()
                invariant
                    i <= self.bits.len(),
                    self.bits.len() == size_u64,
                    forall|j: int| 0 <= j < i ==> self.bits[j] == 0,
                decreases self.bits.len() - i,
            {
                self.bits.set(i, 0);
                i = i + 1;
            }
        }
        self.size_bits = size_bits;
        self.mask = size_bits - 1;
    }

    fn probe_word(bit: usize) -> (r: (usize, u64))
        ensures
            r.0 == bit / 64,
            r.1 == (1u64 << ((bit % 64) as u64)),
    {
        let w = bit >> 6;
        let b = (bit & 63) as u64;
        assert(w == bit / 64 && b == bit % 64) by (bit_vector)
            requires
                w == bit >> 6,
                b == (bit & 63) as u64,
        ;
        (w, 1u64 << b)
    }

    fn hash(key: u64) -> (r: (usize, usize))
        ensures
            r.0 == key_hash(key) as usize,
            r.1 == (key_hash(key) >> 16u32) as usize,
    {
        let (x, y) = Coord::unpack(key);
        let h = ((x.wrapping_mul(x) >> 19) as u32) ^ (((y.wrapping_mul(y) >> 19) as u32) << 13);
        (h as usize, (h >> 16) as usize)
    }

    /// Adds `key`: sets its two probe bits (a filter without storage stays empty).
    pub fn insert(&mut self, key: u64)
        requires
            old(self).wf(),
        ensures
            final(self).wf(),
            final(self).size_bits == old(self).size_bits,
            final(self).spec_mask() == old(self).spec_mask(),
            final(self).bits.len() == old(self).bits.len(),
            old(self).bits.len() == 0 ==> final(self).bits@ == old(self).bits@,
            old(self).bits.len() > 0 ==> final(self).spec_contains(key),
            forall|j: u64| old(self).spec_contains(j) ==> final(self).spec_contains(j),
            forall|i: int|
                0 <= i < 64 * old(self).bits.len() ==> (#[trigger] bit_set(final(self).bits@, i) <==> (
                bit_set(old(self).bits@, i) || i == probe1(key, old(self).spec_mask()) || i == probe2(
                    key,
                    old(self).spec_mask(),
                ))),
    {
        if self.bits.len() == 0 {
            return;
        }
        let (h1, h2) = Self::hash(key);
        let m = self.mask;
        let bit1 = h1 & m;
        let bit2 = h2 & m;
        assert(bit1 <= m && bit2 <= m) by (bit_vector)
            requires
                bit1 == h1 & m,
                bit2 == h2 & m,
        ;
        let ghost old_bits = self.bits@;
        let (w1, b1) = Self::probe_word(bit1);
        let v1 = self.bits[w1] | b1;
        self.bits.set(w1, v1);
        let ghost mid_bits = self.bits@;
        let (w2, b2) = Self::probe_word(bit2);
        let v2 = self.bits[w2] | b2;
        self.bits.set(w2, v2);
        proof {
            assert forall|i: int| 0 <= i < 64 * old_bits.len() implies #[trigger] bit_set(self.bits@, i)
                <==> (bit_set(old_bits, i) || i == bit1 || i == bit2) by {
                let wi = i / 64;
                let bi = (i % 64) as u64;
                lemma_or_bit(old_bits[wi], b1, bi, (bit1 % 64) as u64);
                lemma_or_bit(mid_bits[wi], b2, bi, (bit2 % 64) as u64);
                if wi == w1 as int && wi == w2 as int {
                } else if wi == w1 as int {
                } else if wi == w2 as int {
                }
                assert(i == bit1 <==> (wi == w1 as int && bi == bit1 % 64));
                assert(i == bit2 <==> (wi == w2 as int && bi == bit2 % 64));
            }
            assert(bit_set(self.bits@, bit1 as int));
            assert(bit_set(self.bits@, bit2 as int));
            let ghost after = *self;
            assert forall|j: u64| old(self).spec_contains(j) implies after.spec_contains(j) by {
                lemma_bloom_no_false_negative(*old(self), after, j);
            }
        }
    }

    /// Whether both probe bits of `key` are set (always false without storage).
    pub fn contains(&self, key: u64) -> (r: bool)
        requires
            self.wf(),
        ensures
            r == self.spec_contains(key),
    {
        if self.bits.len() == 0 {
            return false;
        }
        let (h1, h2) = Self::hash(key);
        let m = self.mask;
        let bit1 = h1 & m;
        assert(bit1 <= m) by (bit_vector)
            requires
                bit1 == h1 & m,
        ;
        let (w1, b1) = Self::probe_word(bit1);
        if self.bits[w1] & b1 == 0 {
            return false;
        }
        let bit2 = h2 & m;
        assert(bit2 <= m) by (bit_vector)
            requires
                bit2 == h2 & m,
        ;
        let (w2, b2) = Self::probe_word(bit2);
        self.bits[w2] & b2 != 0
    }
}

proof fn lemma_or_bit(w: u64, b: u64, i: u64, j: u64)
    requires
        i < 64,
        j < 64,
        b == 1u64 << j,
    ensures
        ((w | b) & (1u64 << i) != 0) <==> ((w & (1u64 << i) != 0) || i == j),
{
    assert(((w | b) & (1u64 << i) != 0) <==> ((w & (1u64 << i) != 0) || i == j)) by (bit_vector)
        requires
            i < 64,
            j < 64,
            b == 1u64 << j,
    ;
}

/// No false negatives: once `key` is inserted, `contains(key)` answers yes for as
/// long as the filter is only inserted into (its set bits only grow).
pub proof fn lemma_bloom_no_false_negative(a: BloomFilter, b: BloomFilter, key: u64)
    requires
        a.spec_contains(key),
        b.bits.len() == a.bits.len(),
        b.spec_mask() == a.spec_mask(),
        forall|i: int| 0 <= i < 64 * a.bits.len() && #[trigger] bit_set(a.bits@, i) ==> bit_set(b.bits@, i),
        a.wf(),
    ensures
        b.spec_contains(key),
{
    let m = a.spec_mask();
    let h = key_hash(key);
    let p1 = probe1(key, m);
    let p2 = probe2(key, m);
    assert(p1 <= m && p2 <= m) by (bit_vector)
        requires
            p1 == (h as usize) & m,
            p2 == ((h >> 16u32) as usize) & m,
    ;
    assert(bit_set(a.bits@, p1 as int));
    assert(bit_set(a.bits@, p2 as int));
}

} // verus!
