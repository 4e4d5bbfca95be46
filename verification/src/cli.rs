//! Dumps a binary as MIF and joins the memory areas of binaries to MIFs.
//!
//! Nothing here opens a file: a binary comes as its bytes and a MIF leaves
//! as its text.

use crate::error::Error;
use crate::first::First;
use crate::joins::{join_all, texts, texts_view, Joins};
use crate::mif::{Mif, MifView};
use crate::width::{align_of, in_range, MAX_WIDTH};
use vstd::prelude::*;

verus! {

/// TOML `u128` workaround.
#[derive(Debug, PartialEq, Eq, Clone, Copy)]
pub enum Word {
    /// One `u64` TOML integer as `u128`.
    One(u64),
    /// Two `u64` TOML integers `[msb, lsb]` as `u128`.
    Two([u64; 2]),
}

impl Word {
    /// The word that is meant: the one integer, or the first of two
    /// integers as the upper and the second as the lower 64 bits.
    pub open spec fn value(self) -> nat {
        match self {
            Word::One(one) => one as nat,
            Word::Two(two) => two[0] as nat * 0x1_0000_0000_0000_0000 + two[1] as nat,
        }
    }

    /// The word as `u128`.
    pub fn as_word(&self) -> (word: u128)
        ensures
            word == self.value(),
    {
        match *self {
            Word::One(one) => one as u128,
            Word::Two(two) => {
                let msb = two[0];
                let lsb = two[1];
                assert(((msb as u128) << 64 | lsb as u128) == msb as u128
                    * 0x1_0000_0000_0000_0000 + lsb as u128) by (bit_vector);
                (msb as u128) << 64 | lsb as u128
            },
        }
    }
}

/// Whether to skip or join a memory area.
#[derive(Debug, PartialEq, Eq, Clone)]
pub enum Instr {
    /// Skips memory area and ensures it contains given words only.
    Skips(Vec<Word>),
    /// Joins memory area to given MIFs.
    Joins(Vec<String>),
}

/// Memory area.
#[derive(Debug, PartialEq, Eq, Clone)]
pub struct Area {
    /// LSB/MSB first (little/big-endian).
    pub first: First,
    /// Word width in bits from 1 to 128.
    pub width: usize,
    /// Depth in words.
    pub depth: usize,
    /// Whether to skip or join this memory area.
    pub instr: Instr,
}

/// Binary split into memory areas.
#[derive(Debug, PartialEq, Eq, Clone)]
pub struct Bin {
    /// Name of the binary.
    pub name: String,
    /// Bytes of the binary.
    pub bytes: Vec<u8>,
    /// Memory areas of the binary from its first byte on.
    pub areas: Vec<Area>,
}

/// Whether `word` is one of `skips`.
pub open spec fn listed(skips: Seq<Word>, word: u128) -> bool {
    exists|i: int| 0 <= i < skips.len() && (#[trigger] skips[i]).value() == word
}

/// Whether a memory area of the words `words` may be skipped: nothing is
/// asked where no words are given, else each of its words has to be one of
/// `skips`.
pub open spec fn skipped(words: Seq<(u128, usize)>, skips: Seq<Word>) -> bool {
    skips.len() == 0 || forall|i: int|
        0 <= i < words.len() ==> listed(skips, (#[trigger] words[i]).0)
}

/// The MIFs after the memory area `area` at the front of the bytes `bytes`
/// of the binary `file`, the bytes behind the area, and the error that ended
/// it, if any.
///
/// The area is read into a MIF of its own, of its width. Then it is either
/// skipped, if it may be, or joined to its targets.
pub open spec fn area_one(
    mifs: Seq<(Seq<char>, MifView)>,
    file: String,
    bytes: Seq<u8>,
    area: Area,
) -> (Seq<(Seq<char>, MifView)>, Seq<u8>, Option<Error>) {
    if !in_range(area.width as nat) {
        (mifs, bytes, Some(Error::WidthOutOfRange(area.width, MAX_WIDTH)))
    } else {
        let (mif, rest, read) = MifView::empty(area.width as nat).read(
            bytes,
            area.depth,
            area.first,
        );
        match read {
            Err(error) => (mifs, rest, Some(error)),
            Ok(_) => match area.instr {
                Instr::Skips(skips) => (
                    mifs,
                    rest,
                    if skipped(mif.words, skips@) {
                        None
                    } else {
                        Some(Error::SkipVerificationFailed(file))
                    },
                ),
                Instr::Joins(joins) => (
                    join_all(mifs, joins@, file@, mif).0,
                    rest,
                    join_all(mifs, joins@, file@, mif).1,
                ),
            },
        }
    }
}

/// The MIFs after the memory areas `areas`, one behind the other from the
/// front of the bytes `bytes` of the binary `file`, up to the first error;
/// the bytes behind the last area, and the error.
pub open spec fn area_all(
    mifs: Seq<(Seq<char>, MifView)>,
    file: String,
    bytes: Seq<u8>,
    areas: Seq<Area>,
) -> (Seq<(Seq<char>, MifView)>, Seq<u8>, Option<Error>)
    decreases areas.len(),
{
    if areas.len() == 0 {
        (mifs, bytes, None)
    } else {
        let (next, rest, error) = area_one(mifs, file, bytes, areas.first());
        if error is Some {
            (next, rest, error)
        } else {
            area_all(next, file, rest, areas.drop_first())
        }
    }
}

/// The MIFs after the binary `file` of the bytes `bytes` and the memory
/// areas `areas`, and the error that ended it, if any: no bytes may be left
/// over behind the last area.
pub open spec fn file_one(
    mifs: Seq<(Seq<char>, MifView)>,
    file: String,
    bytes: Seq<u8>,
    areas: Seq<Area>,
) -> (Seq<(Seq<char>, MifView)>, Option<Error>) {
    let (next, rest, error) = area_all(mifs, file, bytes, areas);
    if error is Some {
        (next, error)
    } else if rest.len() > 0 {
        (next, Some(Error::TrailingBytes(rest.len() as usize, file)))
    } else {
        (next, None)
    }
}

/// The MIFs after the binaries `bins` in turn, up to the first error, and
/// that error.
pub open spec fn file_all(mifs: Seq<(Seq<char>, MifView)>, bins: Seq<Bin>) -> (
    Seq<(Seq<char>, MifView)>,
    Option<Error>,
)
    decreases bins.len(),
{
    if bins.len() == 0 {
        (mifs, None)
    } else {
        let bin = bins.first();
        let (next, error) = file_one(mifs, bin.name, bin.bytes@, bin.areas@);
        if error is Some {
            (next, error)
        } else {
            file_all(next, bins.drop_first())
        }
    }
}

/// The names and the texts of the MIFs that the memory areas of the binaries
/// `bins` are joined to, in the order in which the names are first used, or
/// the first error.
pub open spec fn joined(bins: Seq<Bin>, areas: bool) -> Result<
    Seq<(Seq<char>, Seq<char>)>,
    Error,
> {
    match file_all(Seq::empty(), bins).1 {
        Some(error) => Err(error),
        None => Ok(texts(file_all(Seq::empty(), bins).0, areas)),
    }
}

/// The text of the MIF that `count` bytes at the front of `bytes` are dumped
/// as, or the error, and the bytes that are left.
///
/// The count has to be an integral multiple of the width in bytes. That many
/// words are read, and written without comments.
pub open spec fn dumped(bytes: Seq<u8>, count: usize, width: usize, first: First) -> (
    Result<Seq<char>, Error>,
    Seq<u8>,
) {
    let align = align_of(width as nat);
    if !in_range(width as nat) {
        (Err(Error::WidthOutOfRange(width, MAX_WIDTH)), bytes)
    } else if count % align as usize != 0 {
        (Err(Error::NoIntegralMultiple(count, align as usize)), bytes)
    } else {
        let (mif, rest, read) = MifView::empty(width as nat).read(
            bytes,
            (count / align as usize) as usize,
            first,
        );
        match read {
            Err(error) => (Err(error), rest),
            Ok(_) => (Ok(mif.text(false)), rest),
        }
    }
}

/// Whether `word` is one of `skips`.
fn is_listed(skips: &Vec<Word>, word: u128) -> (is_listed: bool)
    ensures
        is_listed == listed(skips@, word),
{
    let mut at: usize = 0;
    while at < skips.len()
        invariant
            at <= skips@.len(),
            forall|i: int| 0 <= i < at ==> (#[trigger] skips@[i]).value() != word,
        decreases skips@.len() - at,
    {
        if skips[at].as_word() == word {
            return true;
        }
        at += 1;
    }
    false
}

/// Whether a memory area of the words `words` may be skipped.
fn is_skipped(words: &Vec<(u128, usize)>, skips: &Vec<Word>) -> (is_skipped: bool)
    ensures
        is_skipped == skipped(words@, skips@),
{
    if skips.len() == 0 {
        return true;
    }
    let mut at: usize = 0;
    while at < words.len()
        invariant
            at <= words@.len(),
            skips@.len() > 0,
            forall|i: int| 0 <= i < at ==> listed(skips@, (#[trigger] words@[i]).0),
        decreases words@.len() - at,
    {
        if !is_listed(skips, words[at].0) {
            return false;
        }
        at += 1;
    }
    true
}

impl Joins {
    /// Reads the memory area `area` off the front of the bytes `bytes` of
    /// the binary `file`, and skips it or joins it to its MIFs.
    #[verifier::loop_isolation(false)]
    pub fn area(&mut self, file: &String, bytes: &mut &[u8], area: &Area) -> (done: Result<
        (),
        Error,
    >)
        ensures
            final(self)@ == area_one(old(self)@, *file, old(bytes)@, *area).0,
            final(bytes)@ == area_one(old(self)@, *file, old(bytes)@, *area).1,
            done == match area_one(old(self)@, *file, old(bytes)@, *area).2 {
                Some(error) => Err::<(), Error>(error),
                None => Ok::<(), Error>(()),
            },
    {
        let mut mif = match Mif::new(area.width) {
            Ok(mif) => mif,
            Err(error) => {
                return Err(error);
            },
        };
        if let Err(error) = mif.read(bytes, area.depth, area.first) {
            return Err(error);
        }
        match &area.instr {
            Instr::Skips(skips) => {
                if is_skipped(mif.words(), skips) {
                    Ok(())
                } else {
                    Err(Error::SkipVerificationFailed(file.clone()))
                }
            },
            Instr::Joins(joins) => {
                let mut at: usize = 0;
                assert(joins@.skip(0) =~= joins@);
                while at < joins.len()
                    invariant
                        at <= joins@.len(),
                        join_all(self@, joins@.skip(at as int), file@, mif@) == join_all(
                            old(self)@,
                            joins@,
                            file@,
                            mif@,
                        ),
                    decreases joins@.len() - at,
                {
                    assert(joins@.skip(at as int).drop_first() =~= joins@.skip(at + 1));
                    if let Err(error) = self.join(&joins[at], file, &mif) {
                        return Err(error);
                    }
                    at += 1;
                }
                Ok(())
            },
        }
    }

    /// Reads the memory areas `areas` of the binary `file` off its bytes
    /// `bytes`, one behind the other, and skips or joins each. No bytes may
    /// be left over.
    pub fn file(&mut self, file: &String, bytes: &[u8], areas: &Vec<Area>) -> (done: Result<
        (),
        Error,
    >)
        ensures
            final(self)@ == file_one(old(self)@, *file, bytes@, areas@).0,
            done == match file_one(old(self)@, *file, bytes@, areas@).1 {
                Some(error) => Err::<(), Error>(error),
                None => Ok::<(), Error>(()),
            },
    {
        let mut rest: &[u8] = bytes;
        let mut at: usize = 0;
        assert(areas@.skip(0) =~= areas@);
        while at < areas.len()
            invariant
                at <= areas@.len(),
                area_all(self@, *file, rest@, areas@.skip(at as int)) == area_all(
                    old(self)@,
                    *file,
                    bytes@,
                    areas@,
                ),
            decreases areas@.len() - at,
        {
            assert(areas@.skip(at as int).drop_first() =~= areas@.skip(at + 1));
            if let Err(error) = self.area(file, &mut rest, &areas[at]) {
                return Err(error);
            }
            at += 1;
        }
        if rest.len() > 0 {
            return Err(Error::TrailingBytes(rest.len(), file.clone()));
        }
        Ok(())
    }
}

/// Dumps known count of bytes as MIF.
///
///   * `lines`: Text, MIF is appended to.
///   * `bytes`: Bytes to read, which the bytes read are taken off.
///   * `count`: Count of bytes to read.
///   * `width`: Word width in bits from 1 to 128.
///   * `first`: LSB/MSB first (little/big-endian).
pub fn dump(lines: &mut String, bytes: &mut &[u8], count: usize, width: usize, first: First) -> (done:
    Result<(), Error>)
    ensures
        final(bytes)@ == dumped(old(bytes)@, count, width, first).1,
        match dumped(old(bytes)@, count, width, first).0 {
            Ok(text) => done is Ok && final(lines)@ == old(lines)@ + text,
            Err(error) => done == Err::<(), Error>(error) && final(lines)@ == old(lines)@,
        },
{
    let mut mif = match Mif::new(width) {
        Ok(mif) => mif,
        Err(error) => {
            return Err(error);
        },
    };
    let align = mif.align();
    let depth = count / align;
    if count % align != 0 {
        return Err(Error::NoIntegralMultiple(count, align));
    }
    if let Err(error) = mif.read(bytes, depth, first) {
        return Err(error);
    }
    mif.write(lines, false);
    Ok(())
}

/// Joins memory areas of binaries as MIFs.
///
///   * `bins`: Binaries split into memory areas, see `Bin`.
///   * `areas`: Whether to comment memory areas, see `Mif::write()`.
///
/// Returns the names of the MIFs and the MIFs as text, in the order in which
/// the names are first used.
pub fn join(bins: &Vec<Bin>, areas: bool) -> (mifs: Result<Vec<(String, String)>, Error>)
    ensures
        match joined(bins@, areas) {
            Ok(texts) => mifs is Ok && texts_view(mifs->Ok_0@) == texts,
            Err(error) => mifs == Err::<Vec<(String, String)>, Error>(error),
        },
{
    let mut joins = Joins::new();
    let mut at: usize = 0;
    assert(bins@.skip(0) =~= bins@);
    while at < bins.len()
        invariant
            at <= bins@.len(),
            file_all(joins@, bins@.skip(at as int)) == file_all(Seq::empty(), bins@),
        decreases bins@.len() - at,
    {
        assert(bins@.skip(at as int).drop_first() =~= bins@.skip(at + 1));
        let bin = &bins[at];
        if let Err(error) = joins.file(&bin.name, bin.bytes.as_slice(), &bin.areas) {
            return Err(error);
        }
        at += 1;
    }
    Ok(joins.write(areas))
}

} // verus!
