//! Word widths in bits: the bytes a word takes and the greatest word of a
//! width.

use vstd::arithmetic::power2::{lemma2_to64, lemma_pow2_adds, lemma_pow2_unfold, pow2};
use vstd::prelude::*;

verus! {

/// Maximum word width in bits.
pub const MAX_WIDTH: usize = 128;

/// Maximum word width in bytes.
pub const MAX_ALIGN: usize = 16;

/// Whether words can have `width` bits.
pub open spec fn in_range(width: nat) -> bool {
    1 <= width <= MAX_WIDTH
}

/// The bytes that a word of `width` bits takes: `width / 8`, rounded up.
pub open spec fn align_of(width: nat) -> nat {
    (width + 7) / 8
}

/// The greatest word of `width` bits: all of its bits set.
pub open spec fn max_value_of(width: nat) -> nat {
    (pow2(width) - 1) as nat
}

/// `num_traits::CheckedShl::checked_shl` for `u128`, which hands the shift to
/// `u128::checked_shl`: `word << bits`, or `None` where `bits` is not less
/// than the 128 bits of the type.
#[verifier::external_body]
pub(crate) fn checked_shl(word: u128, bits: u32) -> (shifted: Option<u128>)
    ensures
        shifted == (if bits < 128 {
            Some(word << bits)
        } else {
            None::<u128>
        }),
{
    num_traits::CheckedShl::checked_shl(&word, bits)
}

/// `num_traits::WrappingSub::wrapping_sub` for `u128`, which hands the
/// subtraction to `u128::wrapping_sub`: `left - right`, wrapping around at
/// the boundary of the type.
#[verifier::external_body]
pub(crate) fn wrapping_sub(left: u128, right: u128) -> (difference: u128)
    ensures
        difference == (if left >= right {
            left - right
        } else {
            left - right + u128::MAX + 1
        }),
{
    num_traits::WrappingSub::wrapping_sub(&left, &right)
}

/// Two to the power of 128 is one more than the greatest `u128`.
pub proof fn lemma_pow2_128()
    ensures
        pow2(128) == u128::MAX + 1,
{
    lemma2_to64();
    lemma_pow2_adds(64, 64);
    assert(0x10000000000000000 * 0x10000000000000000 == u128::MAX + 1) by (nonlinear_arith);
}

/// Powers of two grow with their exponent.
pub proof fn lemma_pow2_grows(low: nat, high: nat)
    requires
        low <= high,
    ensures
        pow2(low) <= pow2(high),
    decreases high,
{
    if low < high {
        lemma_pow2_grows(low, (high - 1) as nat);
        lemma_pow2_unfold(high);
    }
}

/// Shifting one to the left by less than 128 bits gives that power of two.
pub proof fn lemma_shl_one(bits: u32)
    requires
        bits < 128,
    ensures
        1u128 << bits == pow2(bits as nat),
    decreases bits,
{
    if bits == 0 {
        assert(1u128 << 0u32 == 1) by (bit_vector);
        lemma2_to64();
    } else {
        let less = (bits - 1) as u32;
        lemma_shl_one(less);
        assert(1u128 << bits == 2 * (1u128 << less)) by (bit_vector)
            requires
                0 < bits < 128,
                less == bits - 1,
        ;
        lemma_pow2_unfold(bits as nat);
    }
}

/// The greatest word of a width is one less than two to the power of the
/// width and fits a `u128`; that of the maximum width is the greatest `u128`.
pub proof fn lemma_max_value_of(width: nat)
    requires
        width <= MAX_WIDTH,
    ensures
        max_value_of(width) <= u128::MAX,
        max_value_of(width) + 1 == pow2(width),
        width == MAX_WIDTH ==> max_value_of(width) == u128::MAX,
{
    lemma_pow2_128();
    lemma_pow2_grows(width, 128);
    lemma_pow2_grows(0, width);
    lemma2_to64();
}

} // verus!
