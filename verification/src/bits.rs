//! Facts about single bits of a 64-bit word, proved by bit-vector reasoning.

use vstd::prelude::*;

verus! {

/// Whether bit `i` of `bits` is set.
pub open spec fn bit_set(bits: u64, i: u64) -> bool {
    (bits >> i) & 1 == 1
}

/// The lowest bit of a word is 0 or 1.
pub proof fn lemma_low_bit(v: u64)
    by (bit_vector)
    ensures
        v & 1 == 0 || v & 1 == 1,
{
}

/// No bit of zero is set.
pub proof fn lemma_zero_has_no_bit(i: u64)
    by (bit_vector)
    requires
        i < 64,
    ensures
        !bit_set(0u64, i),
{
}

/// A bit of `a | b` is set exactly when it is set in `a` or in `b`.
pub proof fn lemma_bit_of_or(a: u64, b: u64, i: u64)
    by (bit_vector)
    requires
        i < 64,
    ensures
        bit_set(a | b, i) == (bit_set(a, i) || bit_set(b, i)),
{
}

/// `1 << s` has bit `s` set and no other.
pub proof fn lemma_bit_of_single(s: u64, i: u64)
    by (bit_vector)
    requires
        s < 64,
        i < 64,
    ensures
        bit_set(1u64 << s, i) == (i == s),
{
}

/// A bit of `!a` is set exactly when it is clear in `a`.
pub proof fn lemma_bit_of_not(a: u64, i: u64)
    by (bit_vector)
    requires
        i < 64,
    ensures
        bit_set(!a, i) == !bit_set(a, i),
{
}

/// Disjointness of two words does not depend on their order.
pub proof fn lemma_disjoint_symmetric(a: u64, b: u64)
    by (bit_vector)
    requires
        a & b == 0,
    ensures
        b & a == 0,
{
}

/// Setting in `a` a bit that is clear in `b` keeps the two words disjoint.
pub proof fn lemma_set_keeps_disjoint(a: u64, b: u64, s: u64)
    by (bit_vector)
    requires
        a & b == 0,
        s < 64,
        !bit_set(b, s),
    ensures
        (a | (1u64 << s)) & b == 0,
        b & (a | (1u64 << s)) == 0,
{
}

} // verus!
