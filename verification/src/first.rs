//! Byte order of the words in a binary, and the default word width.

use crate::error::Error;
use vstd::prelude::*;
use vstd::string::*;

verus! {

/// LSB/MSB first (little/big-endian).
#[derive(Debug, PartialEq, Eq, Structural, Clone, Copy)]
pub enum First {
    /// Least-significant byte first (little-endian).
    Lsb,
    /// Most-significant byte first (big-endian).
    Msb,
}

impl Default for First {
    fn default() -> (first: First)
        ensures
            first == First::Lsb,
    {
        First::Lsb
    }
}

impl First {
    /// The byte order of a name: `lsb` or `msb`.
    pub open spec fn named(name: Seq<char>) -> Option<First> {
        if name == "lsb"@ {
            Some(First::Lsb)
        } else if name == "msb"@ {
            Some(First::Msb)
        } else {
            None
        }
    }
}

impl core::str::FromStr for First {
    type Err = Error;

    fn from_str(from: &str) -> (first: Result<First, Error>)
        ensures
            first == match First::named(from@) {
                Some(first) => Ok::<First, Error>(first),
                None => Err::<First, Error>(Error::NeitherLsbNorMsbFirst),
            },
    {
        proof {
            reveal_strlit("lsb");
            reveal_strlit("msb");
        }
        if from.unicode_len() != 3 || from.get_char(1) != 's' || from.get_char(2) != 'b' {
            return Err(Error::NeitherLsbNorMsbFirst);
        }
        let initial = from.get_char(0);
        if initial == 'l' {
            assert(from@ =~= "lsb"@);
            Ok(First::Lsb)
        } else if initial == 'm' {
            assert(from@ =~= "msb"@);
            Ok(First::Msb)
        } else {
            Err(Error::NeitherLsbNorMsbFirst)
        }
    }
}

/// Default width of 16 bits.
pub fn default_width() -> (width: usize)
    ensures
        width == 16,
{
    16
}

} // verus!
