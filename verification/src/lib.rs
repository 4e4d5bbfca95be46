//! Memory Initialization File
//!
//! # Features
//!
//!   * Native MIF representation as words and their bulk, `(word, bulk)`.
//!   * Detects single-word sequence `[first..last]: word` but does **not**
//!     detect multi-word sequence `[first..last]: words..` in binary data.
//!   * Verifies word fits into MIF's word width in bits.
//!   * Joins multiple MIFs of different word widths as long as words fit.
//!   * Optionally comments join offsets in words with given (file) names.
//!   * Dumps a binary as MIF, see [`cli::dump`].
//!   * Joins memory areas of binaries to MIFs, see [`cli::join`].
//!
//! # Library
//!
//! MIF creation and serialization is implemented for the [`Mif`] structure.
//! What a `Mif` holds is its view, a [`MifView`]: the contracts of the methods
//! say what the view is afterwards. The words are kept as runs of equal words
//! (module [`runs`]), are read from bytes in either byte order (module
//! [`bytes`]) and have to fit the word width (module [`width`]). The text of
//! a MIF is laid out in the module [`layout`], its numbers in the module
//! [`text`]. MIFs by name, to join memory areas to, are [`joins::Joins`].
//!
//! Words are `u128`, so the word width is from 1 to 128 bits. Nothing here
//! reads or writes a file: binaries come as bytes, and MIFs leave as text.

pub mod bytes;
pub mod cli;
pub mod error;
pub mod first;
pub mod joins;
pub mod layout;
pub mod mif;
pub mod runs;
pub mod text;
pub mod width;

pub use crate::error::Error;
pub use crate::first::{default_width, First};
pub use crate::mif::{Mif, MifView};
