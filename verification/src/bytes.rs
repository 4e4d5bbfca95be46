//! Words as bytes: the value of the bytes of a word in either byte order.

use crate::first::First;
use byteorder::{BigEndian, ByteOrder, LittleEndian};
use vstd::arithmetic::power2::{lemma2_to64, lemma_pow2_adds, pow2};
use vstd::prelude::*;

verus! {

/// The value of `bytes` with the least-significant byte first.
pub open spec fn lsb_first(bytes: Seq<u8>) -> nat
    decreases bytes.len(),
{
    if bytes.len() == 0 {
        0
    } else {
        bytes.first() as nat + 256 * lsb_first(bytes.drop_first())
    }
}

/// The value of `bytes` with the most-significant byte first.
pub open spec fn msb_first(bytes: Seq<u8>) -> nat
    decreases bytes.len(),
{
    if bytes.len() == 0 {
        0
    } else {
        256 * msb_first(bytes.drop_last()) + bytes.last() as nat
    }
}

/// The value of `bytes` in the byte order `first`.
pub open spec fn value(bytes: Seq<u8>, first: First) -> nat {
    match first {
        First::Lsb => lsb_first(bytes),
        First::Msb => msb_first(bytes),
    }
}

/// The `count` low bytes of `value`, the least-significant byte first.
pub open spec fn lsb_first_bytes(value: nat, count: nat) -> Seq<u8>
    decreases count,
{
    if count == 0 {
        Seq::empty()
    } else {
        seq![(value % 256) as u8] + lsb_first_bytes(value / 256, (count - 1) as nat)
    }
}

/// The whole words of `align` bytes each that `bytes` begin with, in the
/// byte order `first`.
pub open spec fn words(bytes: Seq<u8>, align: nat, first: First) -> Seq<u128>
    recommends
        1 <= align <= 16,
{
    Seq::new(
        if align == 0 {
            0
        } else {
            bytes.len() / align
        },
        |i: int| value(bytes.subrange(i * align, (i + 1) * align), first) as u128,
    )
}

/// `byteorder::LittleEndian::read_uint128`, which copies the first `nbytes`
/// bytes of `buf` to the front of sixteen zero bytes and reads them as a
/// little-endian `u128`: the value of those bytes, least-significant first.
/// It panics unless `nbytes` is from 1 to 16 and `buf` has that many bytes.
#[verifier::external_body]
pub(crate) fn read_lsb_first(buf: &[u8], nbytes: usize) -> (word: u128)
    requires
        1 <= nbytes <= 16,
        nbytes <= buf@.len(),
    ensures
        word == lsb_first(buf@.take(nbytes as int)),
{
    LittleEndian::read_uint128(buf, nbytes)
}

/// `byteorder::BigEndian::read_uint128`, which copies the first `nbytes`
/// bytes of `buf` to the back of sixteen zero bytes and reads them as a
/// big-endian `u128`: the value of those bytes, most-significant first.
/// It panics unless `nbytes` is from 1 to 16 and `buf` has that many bytes.
#[verifier::external_body]
pub(crate) fn read_msb_first(buf: &[u8], nbytes: usize) -> (word: u128)
    requires
        1 <= nbytes <= 16,
        nbytes <= buf@.len(),
    ensures
        word == msb_first(buf@.take(nbytes as int)),
{
    BigEndian::read_uint128(buf, nbytes)
}

/// Bytes read with the most-significant byte first have the value of the
/// reversed bytes read with the least-significant byte first.
pub proof fn lemma_msb_first_is_reversed(bytes: Seq<u8>)
    ensures
        msb_first(bytes) == lsb_first(bytes.reverse()),
        lsb_first(bytes) == msb_first(bytes.reverse()),
    decreases bytes.len(),
{
    if bytes.len() > 0 {
        let front = bytes.drop_last();
        lemma_msb_first_is_reversed(front);
        assert(bytes.reverse().drop_first() =~= front.reverse());
        let back = bytes.drop_first();
        lemma_msb_first_is_reversed(back);
        assert(bytes.reverse().drop_last() =~= back.reverse());
    }
}

/// A value that fits `count` bytes is read back from its bytes: in the
/// order of the bytes with the least-significant byte first, and in the
/// reverse order with the most-significant byte first.
pub proof fn lemma_bytes_round_trip(value: nat, count: nat)
    requires
        value < pow2(8 * count),
    ensures
        lsb_first_bytes(value, count).len() == count,
        lsb_first(lsb_first_bytes(value, count)) == value,
        msb_first(lsb_first_bytes(value, count).reverse()) == value,
    decreases count,
{
    lemma2_to64();
    let bytes = lsb_first_bytes(value, count);
    if count > 0 {
        let rest = lsb_first_bytes(value / 256, (count - 1) as nat);
        lemma_pow2_adds(8, (8 * (count - 1)) as nat);
        lemma_bytes_round_trip(value / 256, (count - 1) as nat);
        assert(bytes.drop_first() =~= rest);
    }
    lemma_msb_first_is_reversed(bytes);
}

/// Whole words of `align` bytes each: `count` of them fit into `len` bytes
/// where `count` is at most `len / align`, and one more fits where `count` is
/// less.
pub proof fn lemma_whole_words(len: nat, align: nat, count: nat)
    requires
        align > 0,
        count * align <= len,
    ensures
        count <= len / align,
        count * align + align <= len <==> count < len / align,
{
    assert(count <= len / align && (count * align + align <= len <==> count < len / align))
        by (nonlinear_arith)
        requires
            align > 0,
            count * align <= len,
    ;
}

/// The value of bytes is less than two to the power of their bits.
pub proof fn lemma_value_bound(bytes: Seq<u8>, first: First)
    ensures
        value(bytes, first) < pow2(8 * bytes.len()),
    decreases bytes.len(),
{
    lemma2_to64();
    if bytes.len() > 0 {
        let rest = match first {
            First::Lsb => bytes.drop_first(),
            First::Msb => bytes.drop_last(),
        };
        lemma_value_bound(rest, first);
        lemma_pow2_adds(8, 8 * rest.len());
    }
}

} // verus!
