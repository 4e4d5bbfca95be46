//! What can go wrong while a MIF is filled or while memory areas are joined.

use vstd::prelude::*;

verus! {

/// `Mif` errors.
#[derive(Debug, PartialEq, Eq)]
#[non_exhaustive]
pub enum Error {
    /// Neither `"lsb"` nor `"msb"` first.
    NeitherLsbNorMsbFirst,
    /// Width exceeds `[1, Mif::max_width()]`: the width and the maximum width.
    WidthOutOfRange(usize, usize),
    /// Word value exceeds `Mif::max_value()`: the depth of the word and the
    /// width.
    ValueOutOfWidth(usize, usize),
    /// Less words read than expected: the count of the missing words.
    MissingWords(usize),
    /// Count of bytes is no integral multiple of the word width in bytes: the
    /// count and the width in bytes.
    NoIntegralMultiple(usize, usize),
    /// A memory area to skip holds a word that is not listed: the binary.
    SkipVerificationFailed(String),
    /// A memory area is joined to a MIF of another width: the MIF.
    WidthMismatch(String),
    /// Bytes are left over behind the last memory area of a binary: their
    /// count and the binary.
    TrailingBytes(usize, String),
    /// A MIF would outgrow the address space: the MIF.
    AddressSpaceExhausted(String),
}

} // verus!
