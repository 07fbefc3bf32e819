use vstd::prelude::*;

verus! {

/// Whether bit `off` of word `w` is set.
pub open spec fn word_bit(w: u32, off: u32) -> bool {
    (w >> off) & 1u32 == 1u32
}

/// The all-zero word has no bit set.
pub proof fn lemma_zero_word_bits()
    by (bit_vector)
    ensures
        forall|off: u32| !(#[trigger] word_bit(0u32, off)),
{
}

/// A bitwise OR sets exactly the union of the two words' bits.
pub proof fn lemma_or_bit(w: u32, m: u32, off: u32)
    by (bit_vector)
    ensures
        word_bit(w | m, off) == (word_bit(w, off) || word_bit(m, off)),
{
}

/// The word `1 << p` has bit `p` set and no other.
pub proof fn lemma_single_bit(p: u32, off: u32)
    by (bit_vector)
    requires
        p < 32,
        off < 32,
    ensures
        word_bit(1u32 << p, off) == (off == p),
{
}

/// The mask test the filter runs is the bit test the model speaks of.
pub proof fn lemma_test_bit(w: u32, off: u32)
    by (bit_vector)
    requires
        off < 32,
    ensures
        (w & (1u32 << off) == 0u32) == !word_bit(w, off),
{
}

/// ORing in the empty mask changes nothing.
pub proof fn lemma_or_zero(w: u32)
    by (bit_vector)
    ensures
        w | 0u32 == w,
{
}

/// ORing the same mask a second time changes nothing.
pub proof fn lemma_or_idem(w: u32, m: u32)
    by (bit_vector)
    ensures
        (w | m) | m == w | m,
{
}

/// Two ORed masks land in either order.
pub proof fn lemma_or_swap(w: u32, a: u32, b: u32)
    by (bit_vector)
    ensures
        (w | a) | b == (w | b) | a,
{
}

/// Bitwise OR is associative.
pub proof fn lemma_or_assoc(a: u32, b: u32, c: u32)
    by (bit_vector)
    ensures
        (a | b) | c == a | (b | c),
{
}

} // verus!
