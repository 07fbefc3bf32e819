use crate::bits::lemma_or_bit;
use crate::bits::lemma_or_idem;
use crate::bits::lemma_or_swap;
use crate::bits::lemma_single_bit;
use crate::bits::lemma_zero_word_bits;
use crate::bits::word_bit;
use crate::filter::bit_index_of;
use crate::filter::filter_bit;
use crate::filter::probe_hits;
use crate::filter::probe_mask;
use crate::filter::spec_check;
use crate::filter::spec_insert;
use crate::filter::valid_config;
use vstd::arithmetic::div_mod::lemma_fundamental_div_mod;
use vstd::prelude::*;

verus! {

/// Capacity reduction: the coordinate derived for any input stays inside the
/// filter — the bit index below the capacity `m * 32`, the word index below
/// `m`, the bit offset below 32 — for every seed and every digest value.
pub proof fn lemma_coordinates_in_range(x: Seq<u8>, seed: u32, m: nat)
    requires
        1 <= m,
    ensures
        bit_index_of(x, seed, m) < m * 32,
        bit_index_of(x, seed, m) / 32 < m,
        bit_index_of(x, seed, m) % 32 < 32,
{
    let b = bit_index_of(x, seed, m);
    assert(0 < m * 32) by (nonlinear_arith)
        requires
            1 <= m,
    ;
    assert(b / 32 < m) by (nonlinear_arith)
        requires
            b < m * 32,
    ;
}

/// Bit `off` of the mask of the first `n` probes of `x` in word `j` is set
/// exactly when one of those probes derives word `j` and offset `off`.
proof fn lemma_probe_mask_bit(x: Seq<u8>, n: nat, m: nat, j: int, off: u32)
    requires
        1 <= m,
        n <= 256,
        off < 32,
    ensures
        word_bit(probe_mask(x, n, m, j), off) <==> exists|i: u32|
            i < n && bit_index_of(x, i, m) / 32 == j && bit_index_of(x, i, m) % 32 == off,
    decreases n,
{
    if n == 0 {
        lemma_zero_word_bits();
    } else {
        let n1 = (n - 1) as nat;
        let s = (n - 1) as u32;
        let b = bit_index_of(x, s, m);
        lemma_probe_mask_bit(x, n1, m, j, off);
        if b / 32 == j {
            lemma_or_bit(probe_mask(x, n1, m, j), 1u32 << ((b % 32) as u32), off);
            lemma_single_bit((b % 32) as u32, off);
            if word_bit(probe_mask(x, n, m, j), off) {
                if off == (b % 32) as u32 {
                    assert(s < n && bit_index_of(x, s, m) / 32 == j && bit_index_of(x, s, m) % 32
                        == off);
                }
            }
            if exists|i: u32|
                i < n && bit_index_of(x, i, m) / 32 == j && bit_index_of(x, i, m) % 32 == off {
                let i = choose|i: u32|
                    i < n && bit_index_of(x, i, m) / 32 == j && bit_index_of(x, i, m) % 32 == off;
                if i < n1 {
                    assert(word_bit(probe_mask(x, n1, m, j), off));
                } else {
                    assert(i == s);
                }
            }
        } else {
            if exists|i: u32|
                i < n && bit_index_of(x, i, m) / 32 == j && bit_index_of(x, i, m) % 32 == off {
                let i = choose|i: u32|
                    i < n && bit_index_of(x, i, m) / 32 == j && bit_index_of(x, i, m) % 32 == off;
                assert(i != s);
                assert(word_bit(probe_mask(x, n1, m, j), off));
            }
        }
    }
}

/// Each bit of the state after an insert: set exactly when it was set before
/// or one of the `k` probes of `x` lands on it. A bit once set is never
/// cleared.
pub proof fn lemma_insert_bit(words: Seq<u32>, x: Seq<u8>, k: u8, b: nat)
    requires
        valid_config(words.len(), k),
        b < words.len() * 32,
    ensures
        filter_bit(spec_insert(words, x, k), b) <==> (filter_bit(words, b) || probe_hits(
            x,
            k,
            words.len(),
            b,
        )),
{
    let m = words.len();
    let j = (b / 32) as int;
    let off = (b % 32) as u32;
    assert(b / 32 < m) by (nonlinear_arith)
        requires
            b < m * 32,
    ;
    lemma_or_bit(words[j], probe_mask(x, k as nat, m, j), off);
    lemma_probe_mask_bit(x, k as nat, m, j, off);
    lemma_fundamental_div_mod(b as int, 32);
    if word_bit(probe_mask(x, k as nat, m, j), off) {
        let i = choose|i: u32|
            i < k as nat && bit_index_of(x, i, m) / 32 == j && bit_index_of(x, i, m) % 32 == off;
        lemma_fundamental_div_mod(bit_index_of(x, i, m) as int, 32);
        assert(bit_index_of(x, i, m) == b);
        assert(probe_hits(x, k, m, b));
    }
    if probe_hits(x, k, m, b) {
        let i = choose|i: u32| i < k && bit_index_of(x, i, m) == b;
        assert(i < k as nat && bit_index_of(x, i, m) / 32 == j && bit_index_of(x, i, m) % 32
            == off);
        assert(word_bit(probe_mask(x, k as nat, m, j), off));
    }
}

/// No false negatives: immediately after an insert of `x`, every probe bit
/// of `x` is set, so a check of `x` succeeds.
pub proof fn lemma_no_false_negative(words: Seq<u32>, x: Seq<u8>, k: u8)
    requires
        valid_config(words.len(), k),
    ensures
        spec_check(spec_insert(words, x, k), x, k),
{
    let m = words.len();
    let w1 = spec_insert(words, x, k);
    assert forall|i: u32| i < k implies filter_bit(w1, bit_index_of(x, i, m)) by {
        lemma_coordinates_in_range(x, i, m);
        lemma_insert_bit(words, x, k, bit_index_of(x, i, m));
        assert(probe_hits(x, k, m, bit_index_of(x, i, m)));
    }
}

/// Monotonicity: a set bit is never cleared, so an item that checks true
/// keeps checking true after any further insertion — together with the lemma
/// above, an inserted item checks true in every subsequent filter state.
pub proof fn lemma_check_monotone(words: Seq<u32>, x: Seq<u8>, y: Seq<u8>, k: u8)
    requires
        valid_config(words.len(), k),
        spec_check(words, x, k),
    ensures
        spec_check(spec_insert(words, y, k), x, k),
{
    let m = words.len();
    let w1 = spec_insert(words, y, k);
    assert forall|i: u32| i < k implies filter_bit(w1, bit_index_of(x, i, m)) by {
        lemma_coordinates_in_range(x, i, m);
        assert(filter_bit(words, bit_index_of(x, i, m)));
        lemma_insert_bit(words, y, k, bit_index_of(x, i, m));
    }
}

/// Monotonicity over whole sequences: an item that checks true keeps
/// checking true after any further sequence of insertions.
pub proof fn lemma_check_monotone_seq(words: Seq<u32>, x: Seq<u8>, later: Seq<Seq<u8>>, k: u8)
    requires
        valid_config(words.len(), k),
        spec_check(words, x, k),
    ensures
        spec_check(spec_insert_seq(words, later, k), x, k),
    decreases later.len(),
{
    if later.len() > 0 {
        lemma_check_monotone(words, x, later[0], k);
        assert(spec_insert(words, later[0], k).len() == words.len());
        lemma_check_monotone_seq(spec_insert(words, later[0], k), x, later.drop_first(), k);
    }
}

/// No false negatives in every subsequent state: once `x` is inserted, a
/// check of `x` succeeds however many further insertions follow.
pub proof fn lemma_no_false_negative_after(
    words: Seq<u32>,
    x: Seq<u8>,
    later: Seq<Seq<u8>>,
    k: u8,
)
    requires
        valid_config(words.len(), k),
    ensures
        spec_check(spec_insert_seq(spec_insert(words, x, k), later, k), x, k),
{
    lemma_no_false_negative(words, x, k);
    assert(spec_insert(words, x, k).len() == words.len());
    lemma_check_monotone_seq(spec_insert(words, x, k), x, later, k);
}

/// Idempotence: inserting an item a second time leaves the state — and with
/// it every check result — unchanged.
pub proof fn lemma_insert_idempotent(words: Seq<u32>, x: Seq<u8>, k: u8)
    ensures
        spec_insert(spec_insert(words, x, k), x, k) == spec_insert(words, x, k),
{
    let m = words.len();
    let w1 = spec_insert(words, x, k);
    assert forall|j: int| 0 <= j < m implies spec_insert(w1, x, k)[j] == w1[j] by {
        lemma_or_idem(words[j], probe_mask(x, k as nat, m, j));
    }
    assert(spec_insert(w1, x, k) =~= w1);
}

/// Two consecutive insertions commute.
pub proof fn lemma_insert_comm(words: Seq<u32>, x: Seq<u8>, y: Seq<u8>, k: u8)
    ensures
        spec_insert(spec_insert(words, x, k), y, k) == spec_insert(
            spec_insert(words, y, k),
            x,
            k,
        ),
{
    let m = words.len();
    assert forall|j: int| 0 <= j < m implies spec_insert(spec_insert(words, x, k), y, k)[j]
        == spec_insert(spec_insert(words, y, k), x, k)[j] by {
        lemma_or_swap(words[j], probe_mask(x, k as nat, m, j), probe_mask(y, k as nat, m, j));
    }
    assert(spec_insert(spec_insert(words, x, k), y, k) =~= spec_insert(
        spec_insert(words, y, k),
        x,
        k,
    ));
}

/// The filter state after inserting the items of `items`, first to last.
pub open spec fn spec_insert_seq(words: Seq<u32>, items: Seq<Seq<u8>>, k: u8) -> Seq<u32>
    decreases items.len(),
{
    if items.len() == 0 {
        words
    } else {
        spec_insert_seq(spec_insert(words, items[0], k), items.drop_first(), k)
    }
}

/// Inserting a sequence of items equals inserting the item at position `i`
/// first and then the rest in order.
proof fn lemma_insert_seq_pull(words: Seq<u32>, s: Seq<Seq<u8>>, i: int, k: u8)
    requires
        0 <= i < s.len(),
    ensures
        spec_insert_seq(words, s, k) == spec_insert_seq(
            spec_insert(words, s[i], k),
            s.remove(i),
            k,
        ),
    decreases i,
{
    if i == 0 {
        assert(s.remove(0) =~= s.drop_first());
    } else {
        let w1 = spec_insert(words, s[0], k);
        lemma_insert_seq_pull(w1, s.drop_first(), i - 1, k);
        lemma_insert_comm(words, s[0], s[i], k);
        assert(s.drop_first()[i - 1] == s[i]);
        assert(s.remove(i)[0] == s[0]);
        assert(s.remove(i).drop_first() =~= s.drop_first().remove(i - 1));
        assert(s.remove(i).len() > 0);
    }
}

/// Order independence: inserting the same multiset of items — any
/// permutation of one list — yields the identical final state, and with it
/// identical check results for every item.
pub proof fn lemma_insert_order_independent(
    words: Seq<u32>,
    s1: Seq<Seq<u8>>,
    s2: Seq<Seq<u8>>,
    k: u8,
)
    requires
        s1.to_multiset() == s2.to_multiset(),
    ensures
        spec_insert_seq(words, s1, k) == spec_insert_seq(words, s2, k),
    decreases s1.len(),
{
    s1.to_multiset_ensures();
    s2.to_multiset_ensures();
    if s1.len() == 0 {
        assert(s2.to_multiset().len() == 0);
        assert(s2.len() == 0);
    } else {
        let x = s1[0];
        assert(s1.contains(x));
        assert(s2.to_multiset().count(x) > 0);
        assert(s2.contains(x));
        let i = choose|i: int| 0 <= i < s2.len() && s2[i] == x;
        lemma_insert_seq_pull(words, s2, i, k);
        assert(s1.remove(0) =~= s1.drop_first());
        assert(s1.drop_first().to_multiset() == s1.to_multiset().remove(x));
        assert(s2.remove(i).to_multiset() == s2.to_multiset().remove(x));
        lemma_insert_order_independent(spec_insert(words, x, k), s1.drop_first(), s2.remove(i), k);
    }
}

} // verus!

