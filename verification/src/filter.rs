use crate::bits::lemma_or_assoc;
use crate::bits::lemma_test_bit;
use crate::bits::lemma_zero_word_bits;
use crate::bits::word_bit;
use crate::hash::xxh32_of;
use crate::hash::xxh32_hash;
use vstd::pervasive::VecAdditionalExecFns;
use vstd::prelude::*;

verus! {

/// Largest admissible number of backing words: with more, the total bit
/// capacity `m * 32` would no longer fit the 32-bit range the hash is
/// reduced into.
pub const MAX_WORDS: usize = 0x07FF_FFFF;

/// A valid filter configuration: at least one backing word and one probe,
/// with the total bit capacity `m * 32` within the 32-bit hash range.
pub open spec fn valid_config(m: nat, k: u8) -> bool {
    &&& 1 <= m
    &&& m * 32 <= u32::MAX
    &&& 1 <= k
}

/// The bit position probe `seed` derives for item `x` in a filter of `m`
/// words: the digest reduced modulo the full bit capacity `m * 32`.
pub open spec fn bit_index_of(x: Seq<u8>, seed: u32, m: nat) -> nat
    recommends
        1 <= m,
{
    (xxh32_of(x, seed) as nat) % (m * 32)
}

/// Whether bit `b` of the flat bit vector held in `words` is set.
pub open spec fn filter_bit(words: Seq<u32>, b: nat) -> bool
    recommends
        b < words.len() * 32,
{
    word_bit(words[(b / 32) as int], (b % 32) as u32)
}

/// The mask of bits the first `n` probes of item `x` place into word `j` of
/// a filter of `m` words.
pub open spec fn probe_mask(x: Seq<u8>, n: nat, m: nat, j: int) -> u32
    recommends
        1 <= m,
        n <= 256,
    decreases n,
{
    if n == 0 {
        0u32
    } else {
        let b = bit_index_of(x, (n - 1) as u32, m);
        let rest = probe_mask(x, (n - 1) as nat, m, j);
        if b / 32 == j {
            rest | (1u32 << ((b % 32) as u32))
        } else {
            rest
        }
    }
}

/// The filter state after inserting item `x` with `k` probes into `words`:
/// each word takes, by bitwise OR, the probe bits that land in it.
pub open spec fn spec_insert(words: Seq<u32>, x: Seq<u8>, k: u8) -> Seq<u32> {
    Seq::new(words.len(), |j: int| words[j] | probe_mask(x, k as nat, words.len(), j))
}

/// Whether every one of the `k` probe bits of item `x` is set in `words`.
pub open spec fn spec_check(words: Seq<u32>, x: Seq<u8>, k: u8) -> bool {
    forall|i: u32| i < k ==> filter_bit(words, bit_index_of(x, i, words.len()))
}

/// Whether one of the `k` probes of item `x` lands on bit `b`.
pub open spec fn probe_hits(x: Seq<u8>, k: u8, m: nat, b: nat) -> bool {
    exists|i: u32| i < k && bit_index_of(x, i, m) == b
}

/// A fixed-capacity Bloom filter: a flat vector of 32-bit words used as one
/// bit array, with a fixed number of seeded hash probes per operation.
#[derive(Clone, Debug, PartialEq, Eq)]
pub struct MicroBloom {
    body: Vec<u32>,
    k: u8,
}

impl MicroBloom {
    /// The backing words, as the sequence the contracts speak of.
    pub closed spec fn words(self) -> Seq<u32> {
        self.body@
    }

    /// The number of hash probes per operation.
    pub closed spec fn probes(self) -> u8 {
        self.k
    }

    /// Well-formed: the dimensions form a valid configuration.
    pub open spec fn wf(self) -> bool {
        valid_config(self.words().len(), self.probes())
    }

    /// Builds a filter of `m` backing words (a capacity of `m * 32` bits) and
    /// `k` probes, every bit clear; `None` exactly on an invalid
    /// configuration (no words, no probes, or a capacity beyond the 32-bit
    /// hash range).
    pub fn new(m: usize, k: u8) -> (r: Option<MicroBloom>)
        ensures
            r is Some <==> valid_config(m as nat, k),
            match r {
                Some(f) => {
                    &&& f.wf()
                    &&& f.words() == Seq::new(m as nat, |j: int| 0u32)
                    &&& f.probes() == k
                    &&& forall|b: nat| b < m * 32 ==> !filter_bit(f.words(), b)
                },
                None => true,
            },
    {
        if m == 0 || k == 0 || m > MAX_WORDS {
            return None;
        }
        let mut body: Vec<u32> = Vec::new();
        let mut i: usize = 0;
        while i < m
            invariant
                i <= m,
                body@.len() == i,
                forall|j: int| 0 <= j < i ==> body@[j] == 0u32,
            decreases m - i,
        {
            body.push(0u32);
            i = i + 1;
        }
        let f = MicroBloom { body, k };
        proof {
            assert(m * 32 <= u32::MAX) by (nonlinear_arith)
                requires
                    m <= 0x07FF_FFFF,
            ;
            assert(f.words() =~= Seq::new(m as nat, |j: int| 0u32));
            lemma_zero_word_bits();
            assert forall|b: nat| b < m * 32 implies !filter_bit(f.words(), b) by {
                assert(b / 32 < m) by (nonlinear_arith)
                    requires
                        b < m * 32,
                ;
                assert(f.words()[(b / 32) as int] == 0u32);
            }
        }
        Some(f)
    }

    /// Derives the probe coordinates of `x` under `seed`: the digest is
    /// reduced modulo the full bit capacity `m * 32` first, then split into a
    /// word index and a bit offset, so every coordinate is in range whatever
    /// the digest's value.
    fn get_coordinates(x: &[u8], seed: u32, m: usize) -> (r: (usize, u32))
        requires
            1 <= m,
            m * 32 <= u32::MAX,
        ensures
            r.0 == bit_index_of(x@, seed, m as nat) / 32,
            r.1 == bit_index_of(x@, seed, m as nat) % 32,
            r.0 < m,
            r.1 < 32,
    {
        let h = xxh32_hash(x, seed);
        proof {
            assert(m <= u32::MAX && 32 <= m * 32) by (nonlinear_arith)
                requires
                    1 <= m,
                    m * 32 <= u32::MAX,
            ;
        }
        let total: u32 = (m as u32) * 32;
        let bit_num: u32 = h % total;
        proof {
            assert(bit_num / 32 < m) by (nonlinear_arith)
                requires
                    bit_num < m * 32,
            ;
        }
        ((bit_num / 32) as usize, bit_num % 32)
    }

    /// Sets, for each probe index `0..k`, the derived bit of `x` by bitwise
    /// OR; the words become exactly `spec_insert` of the old ones.
    pub fn insert(&mut self, x: &[u8])
        requires
            old(self).wf(),
        ensures
            final(self).wf(),
            final(self).probes() == old(self).probes(),
            final(self).words() == spec_insert(old(self).words(), x@, old(self).probes()),
    {
        let m = self.body.len();
        let k = self.k;
        let ghost w0 = self.body@;
        proof {
            assert forall|j: int| 0 <= j < w0.len() implies w0[j] | probe_mask(
                x@,
                0nat,
                m as nat,
                j,
            ) == w0[j] by {
                crate::bits::lemma_or_zero(w0[j]);
            }
            assert(self.body@ =~= Seq::new(
                w0.len(),
                |j: int| w0[j] | probe_mask(x@, 0nat, m as nat, j),
            ));
        }
        let mut i: u32 = 0;
        while i < k as u32
            invariant
                valid_config(m as nat, k),
                i <= k as u32,
                self.k == k,
                m == w0.len(),
                self.body@ == Seq::new(
                    w0.len(),
                    |j: int| w0[j] | probe_mask(x@, i as nat, m as nat, j),
                ),
            decreases k as u32 - i,
        {
            let (idx, off) = Self::get_coordinates(x, i, m);
            let w = self.body[idx];
            self.body.set(idx, w | (1u32 << off));
            proof {
                let b = bit_index_of(x@, i, m as nat);
                assert(((i + 1) as nat - 1) as u32 == i);
                assert forall|j: int| 0 <= j < w0.len() implies self.body@[j] == w0[j]
                    | probe_mask(x@, (i + 1) as nat, m as nat, j) by {
                    if j == idx as int {
                        lemma_or_assoc(
                            w0[j],
                            probe_mask(x@, i as nat, m as nat, j),
                            1u32 << ((b % 32) as u32),
                        );
                    }
                }
                assert(self.body@ =~= Seq::new(
                    w0.len(),
                    |j: int| w0[j] | probe_mask(x@, (i + 1) as nat, m as nat, j),
                ));
            }
            i = i + 1;
        }
        proof {
            assert(self.body@ =~= spec_insert(w0, x@, k));
        }
    }

    /// Inserts a 32-bit key by its canonical little-endian byte encoding.
    pub fn insert_u32(&mut self, v: u32)
        requires
            old(self).wf(),
        ensures
            final(self).wf(),
            final(self).probes() == old(self).probes(),
            final(self).words() == spec_insert(
                old(self).words(),
                vstd::bytes::spec_u32_to_le_bytes(v),
                old(self).probes(),
            ),
    {
        let bytes = vstd::bytes::u32_to_le_bytes(v);
        self.insert(bytes.as_slice());
    }

    /// Tests, for each probe index `0..k`, the derived bit of `x`: true
    /// exactly when all `k` probe bits are set (`spec_check`), with a false
    /// result returned on the first clear bit found.
    pub fn check(&self, x: &[u8]) -> (r: bool)
        requires
            self.wf(),
        ensures
            r == spec_check(self.words(), x@, self.probes()),
    {
        let m = self.body.len();
        let mut i: u32 = 0;
        while i < self.k as u32
            invariant
                self.wf(),
                m == self.words().len(),
                i <= self.k as u32,
                forall|i2: u32|
                    i2 < i ==> filter_bit(self.words(), bit_index_of(x@, i2, m as nat)),
            decreases self.k as u32 - i,
        {
            let (idx, off) = Self::get_coordinates(x, i, m);
            let w = self.body[idx];
            proof {
                lemma_test_bit(w, off);
                assert((w & (1u32 << off) != 0) == filter_bit(
                    self.words(),
                    bit_index_of(x@, i, m as nat),
                ));
            }
            if w & (1u32 << off) == 0 {
                return false;
            }
            i = i + 1;
        }
        true
    }

    /// Tests a 32-bit key by its canonical little-endian byte encoding.
    pub fn check_u32(&self, v: u32) -> (r: bool)
        requires
            self.wf(),
        ensures
            r == spec_check(self.words(), vstd::bytes::spec_u32_to_le_bytes(v), self.probes()),
    {
        let bytes = vstd::bytes::u32_to_le_bytes(v);
        self.check(bytes.as_slice())
    }
}

} // verus!
