//! Bit-level facts about `u64` words, read as vectors in GF(2)^64.

use vstd::prelude::*;

verus! {

/// Bit `j` of the word `w`.
pub open spec fn bit(w: u64, j: u64) -> bool {
    (w >> j) & 1u64 == 1u64
}

/// The word with only bit `j` set.
pub open spec fn unit(j: u64) -> u64 {
    1u64 << j
}

/// XOR adds the bits.
pub proof fn lemma_bit_xor(a: u64, b: u64, j: u64)
    requires
        j < 64,
    ensures
        bit(a ^ b, j) == (bit(a, j) != bit(b, j)),
{
    assert(((a ^ b) >> j) & 1u64 == 1u64 <==> (((a >> j) & 1u64 == 1u64) != ((b >> j) & 1u64
        == 1u64))) by (bit_vector)
        requires
            j < 64,
    ;
}

/// Setting bit `c` with OR.
pub proof fn lemma_bit_set(w: u64, c: u64, j: u64)
    requires
        c < 64,
        j < 64,
    ensures
        bit(w | (1u64 << c), j) == (j == c || bit(w, j)),
{
    assert(((w | (1u64 << c)) >> j) & 1u64 == 1u64 <==> (j == c || (w >> j) & 1u64 == 1u64))
        by (bit_vector)
        requires
            c < 64,
            j < 64,
    ;
}

/// Clearing bit `c` with AND-NOT.
pub proof fn lemma_bit_clear(w: u64, c: u64, j: u64)
    requires
        c < 64,
        j < 64,
    ensures
        bit(w & !(1u64 << c), j) == (j != c && bit(w, j)),
{
    assert(((w & !(1u64 << c)) >> j) & 1u64 == 1u64 <==> (j != c && (w >> j) & 1u64 == 1u64))
        by (bit_vector)
        requires
            c < 64,
            j < 64,
    ;
}

/// The zero word has no bit set.
pub proof fn lemma_bit_zero(j: u64)
    requires
        j < 64,
    ensures
        !bit(0u64, j),
{
    assert((0u64 >> j) & 1u64 != 1u64) by (bit_vector);
}

/// A word equals zero exactly when none of its bits is set.
pub proof fn lemma_zero_iff_no_bit(w: u64)
    ensures
        w == 0u64 <==> forall|j: u64| j < 64 ==> !#[trigger] bit(w, j),
{
    if forall|j: u64| j < 64 ==> !#[trigger] bit(w, j) {
        lemma_high_bits_zero(w, 0);
        assert(w >> 0u64 == w) by (bit_vector);
    }
    if w == 0u64 {
        assert forall|j: u64| j < 64 implies !#[trigger] bit(w, j) by {
            lemma_bit_zero(j);
        }
    }
}

/// With no bit set at or above `k`, shifting right by `k` leaves zero.
proof fn lemma_high_bits_zero(w: u64, k: u64)
    requires
        k <= 64,
        forall|j: u64| k <= j < 64 ==> !#[trigger] bit(w, j),
    ensures
        w >> k == 0u64,
    decreases 64 - k,
{
    if k == 64 {
        assert(w >> 64u64 == 0u64) by (bit_vector);
    } else {
        lemma_high_bits_zero(w, (k + 1) as u64);
        assert(!bit(w, k));
        let k1 = (k + 1) as u64;
        assert(w >> k == 0u64) by (bit_vector)
            requires
                k < 64,
                k1 == k + 1,
                (w >> k) & 1u64 != 1u64,
                w >> k1 == 0u64,
        ;
    }
}

/// XOR is associative.
pub proof fn lemma_xor_assoc(a: u64, b: u64, c: u64)
    ensures
        (a ^ b) ^ c == a ^ (b ^ c),
{
    assert((a ^ b) ^ c == a ^ (b ^ c)) by (bit_vector);
}

/// Zero is the XOR identity, and every word is its own inverse.
pub proof fn lemma_xor_zero_self(a: u64)
    ensures
        a ^ 0u64 == a,
        0u64 ^ a == a,
        a ^ a == 0u64,
{
    assert(a ^ 0u64 == a && 0u64 ^ a == a && a ^ a == 0u64) by (bit_vector);
}

/// The unit word `1 << c` has bit `c` only.
pub proof fn lemma_bit_unit(c: u64, j: u64)
    requires
        c < 64,
        j < 64,
    ensures
        bit(1u64 << c, j) == (j == c),
{
    assert(((1u64 << c) >> j) & 1u64 == 1u64 <==> j == c) by (bit_vector)
        requires
            c < 64,
            j < 64,
    ;
}

/// Bit `j` of the complement is the complement of bit `j`.
pub proof fn lemma_bit_not(w: u64, j: u64)
    requires
        j < 64,
    ensures
        bit(!w, j) == !bit(w, j),
{
    assert(((!w) >> j) & 1u64 == 1u64 <==> !((w >> j) & 1u64 == 1u64)) by (bit_vector)
        requires
            j < 64,
    ;
}

} // verus!
