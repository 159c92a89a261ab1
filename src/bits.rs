//! Single words of 64 bits and the facts about them that the layers rely on.

use vstd::prelude::*;

verus! {

broadcast use vstd::std_specs::bits::axiom_u64_trailing_zeros;

/// Whether bit `i` of the word `w` is set.
pub open spec fn bit_set(w: u64, i: u64) -> bool {
    (w >> i) & 1u64 == 1u64
}

/// Setting bit `b` sets exactly that bit and keeps the others.
pub proof fn lemma_or_bit(w: u64, b: u64)
    requires
        b < 64,
    ensures
        forall|i: u64|
            i < 64 ==> #[trigger] bit_set(w | (1u64 << b), i) == (i == b || bit_set(w, i)),
{
    assert(forall|i: u64|
        i < 64 ==> #[trigger] bit_set(w | (1u64 << b), i) == (i == b || bit_set(w, i)))
        by (bit_vector)
        requires
            b < 64,
    ;
}

/// Clearing bit `b` clears exactly that bit and keeps the others.
pub proof fn lemma_and_not_bit(w: u64, b: u64)
    requires
        b < 64,
    ensures
        forall|i: u64|
            i < 64 ==> #[trigger] bit_set(w & !(1u64 << b), i) == (i != b && bit_set(w, i)),
{
    assert(forall|i: u64|
        i < 64 ==> #[trigger] bit_set(w & !(1u64 << b), i) == (i != b && bit_set(w, i)))
        by (bit_vector)
        requires
            b < 64,
    ;
}

/// Keeping the bits strictly above `off` keeps exactly those.
pub proof fn lemma_mask_above(w: u64, off: u64)
    requires
        off < 64,
    ensures
        forall|i: u64|
            i < 64 ==> #[trigger] bit_set(w & ((u64::MAX << off) << 1u64), i) == (off < i
                && bit_set(w, i)),
{
    assert(forall|i: u64|
        i < 64 ==> #[trigger] bit_set(w & ((u64::MAX << off) << 1u64), i) == (off < i
            && bit_set(w, i)))
        by (bit_vector)
        requires
            off < 64,
    ;
}

/// The trailing-zero count of a non-zero word is its lowest set bit.
pub proof fn lemma_trailing_zeros(w: u64)
    requires
        w != 0,
    ensures
        w.trailing_zeros() < 64,
        bit_set(w, w.trailing_zeros() as u64),
        forall|i: u64| i < w.trailing_zeros() ==> !#[trigger] bit_set(w, i),
{
    let t = w.trailing_zeros() as u64;
    assert forall|i: u64| i < t implies !#[trigger] bit_set(w, i) by {
        assert((w >> i) & 1u64 == 0u64);
    }
}

/// A word is zero exactly when none of its 64 bits is set.
pub proof fn lemma_zero_iff_no_bit(w: u64)
    ensures
        w == 0 <==> forall|i: u64| i < 64 ==> !#[trigger] bit_set(w, i),
{
    if w == 0 {
        assert(forall|i: u64| i < 64 ==> !#[trigger] bit_set(0u64, i)) by (bit_vector);
    } else {
        lemma_trailing_zeros(w);
    }
}

/// Two words with the same bits are equal.
pub proof fn lemma_eq_by_bits(a: u64, b: u64)
    requires
        forall|i: u64| i < 64 ==> #[trigger] bit_set(a, i) == bit_set(b, i),
    ensures
        a == b,
{
    assert(forall|i: u64|
        i < 64 ==> #[trigger] bit_set(a ^ b, i) == (bit_set(a, i) != bit_set(b, i)))
        by (bit_vector);
    assert forall|i: u64| i < 64 implies !#[trigger] bit_set(a ^ b, i) by {
        assert(bit_set(a, i) == bit_set(b, i));
    }
    lemma_zero_iff_no_bit(a ^ b);
    assert(a ^ b == 0 ==> a == b) by (bit_vector);
}

} // verus!
