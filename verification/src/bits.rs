//! Single bits of a 64-bit word.

use vstd::prelude::*;

verus! {

/// Bit `i` of `w`, counted from the least significant.
pub closed spec fn bit(w: u64, i: int) -> bool {
    (w >> (i as u64)) & 1 == 1
}

/// How many of the lowest `n` bits of `w` are set.
pub open spec fn ones_below(w: u64, n: nat) -> nat
    decreases n,
{
    if n == 0 {
        0
    } else {
        ones_below(w, (n - 1) as nat) + (if bit(w, n - 1) { 1nat } else { 0nat })
    }
}

pub proof fn lemma_set_bit(w: u64, k: u64)
    requires
        k < 64,
    ensures
        forall|j: int| 0 <= j < 64 ==> #[trigger] bit(w | (1u64 << k), j) == (j == k || bit(w, j)),
        w | (1u64 << k) != 0,
{
    assert forall|j: int| 0 <= j < 64 implies #[trigger] bit(w | (1u64 << k), j) == (j == k || bit(
        w,
        j,
    )) by {
        let i = j as u64;
        assert(((w | (1u64 << k)) >> i) & 1 == (if i == k { 1u64 } else { (w >> i) & 1 })) by (bit_vector)
            requires
                i < 64,
                k < 64,
        ;
    }
    assert(w | (1u64 << k) != 0) by (bit_vector)
        requires
            k < 64,
    ;
}

pub proof fn lemma_clear_bit(w: u64, k: u64)
    requires
        k < 64,
    ensures
        forall|j: int| 0 <= j < 64 ==> #[trigger] bit(w & !(1u64 << k), j) == (j != k && bit(w, j)),
{
    assert forall|j: int| 0 <= j < 64 implies #[trigger] bit(w & !(1u64 << k), j) == (j != k && bit(
        w,
        j,
    )) by {
        let i = j as u64;
        assert(((w & !(1u64 << k)) >> i) & 1 == (if i == k { 0u64 } else { (w >> i) & 1 })) by (bit_vector)
            requires
                i < 64,
                k < 64,
        ;
    }
}

pub proof fn lemma_zero_word()
    ensures
        forall|j: int| 0 <= j < 64 ==> !#[trigger] bit(0, j),
{
    assert forall|j: int| 0 <= j < 64 implies !#[trigger] bit(0, j) by {
        let i = j as u64;
        assert((0u64 >> i) & 1 == 0) by (bit_vector);
    }
}

/// A non-zero word has a lowest set bit, and `trailing_zeros` finds it.
pub proof fn lemma_lowest_bit(w: u64, tz: u32)
    requires
        w != 0,
        tz == vstd::std_specs::bits::u64_trailing_zeros(w),
    ensures
        tz < 64,
        bit(w, tz as int),
        forall|j: int| 0 <= j < tz ==> !#[trigger] bit(w, j),
{
    vstd::std_specs::bits::axiom_u64_trailing_zeros(w);
    assert forall|j: int| 0 <= j < tz implies !#[trigger] bit(w, j) by {
        let i = j as u64;
        assert((w >> i) & 1u64 == 0u64);
    }
}

/// A word is zero exactly if none of its bits is set.
pub proof fn lemma_word_is_zero(w: u64)
    ensures
        w == 0 <==> (forall|j: int| 0 <= j < 64 ==> !#[trigger] bit(w, j)),
{
    lemma_zero_word();
    if w != 0 {
        lemma_lowest_bit(w, vstd::std_specs::bits::u64_trailing_zeros(w));
    }
}

/// Number of set bits.
pub fn count_ones(w: u64) -> (n: u32)
    ensures
        n == ones_below(w, 64),
        n <= 64,
{
    let mut n: u32 = 0;
    let mut i: u32 = 0;
    while i < 64
        invariant
            i <= 64,
            n <= i,
            n == ones_below(w, i as nat),
        decreases 64 - i,
    {
        if (w >> (i as u64)) & 1 == 1 {
            n = n + 1;
        }
        i = i + 1;
    }
    n
}

} // verus!
