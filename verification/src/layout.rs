//! The layout of a MIF as text: its lines and the places that numbers are
//! padded to.

use crate::runs::total;
use crate::text::{decimal, digits, hex, lemma_digits_len};
use vstd::arithmetic::power::{lemma_pow0, pow};
use vstd::prelude::*;

verus! {

/// The places that addresses are padded to: the hexadecimal digits of the
/// last address, `depth - 1`, and none where there is at most one address.
pub open spec fn address_pads(depth: nat) -> nat {
    if depth <= 1 {
        0
    } else {
        digits((depth - 1) as nat, 16).len()
    }
}

/// The places that words are padded to: `width / 4`, rounded up.
pub open spec fn word_pads(width: nat) -> nat {
    (width + 3) / 4
}

/// The line that comments a memory area: its address and its name.
pub open spec fn comment(area: (nat, Seq<char>), address_pads: nat) -> Seq<char> {
    "-- "@ + hex(area.0, address_pads) + ": "@ + area.1 + "\n"@
}

/// The lines that comment memory areas, one line each.
pub open spec fn comments(areas: Seq<(nat, Seq<char>)>, address_pads: nat) -> Seq<char>
    decreases areas.len(),
{
    if areas.len() == 0 {
        Seq::empty()
    } else {
        comments(areas.drop_last(), address_pads) + comment(areas.last(), address_pads)
    }
}

/// The first lines: width and depth, then the radixes, with an empty line
/// behind either pair.
pub open spec fn head(width: nat, depth: nat) -> Seq<char> {
    "WIDTH="@ + decimal(width) + ";\nDEPTH="@ + decimal(depth)
        + ";\n\nADDRESS_RADIX=HEX;\nDATA_RADIX=HEX;\n\n"@
}

/// The line of a run of words that begins at `address`: the address and the
/// word for a single word, else the first and the last address and the word.
pub open spec fn line(address: nat, run: (u128, usize), address_pads: nat, word_pads: nat) -> Seq<
    char,
> {
    if run.1 == 1 {
        "\t"@ + hex(address, address_pads) + "  :   "@ + hex(run.0 as nat, word_pads) + ";\n"@
    } else {
        "\t["@ + hex(address, address_pads) + ".."@ + hex(
            (address + run.1 - 1) as nat,
            address_pads,
        ) + "]  :   "@ + hex(run.0 as nat, word_pads) + ";\n"@
    }
}

/// The lines of runs of words, one line each, the first run at address zero
/// and each further one behind the last address of the run before it.
pub open spec fn content(runs: Seq<(u128, usize)>, address_pads: nat, word_pads: nat) -> Seq<char>
    decreases runs.len(),
{
    if runs.len() == 0 {
        Seq::empty()
    } else {
        content(runs.drop_last(), address_pads, word_pads) + line(
            total(runs.drop_last()),
            runs.last(),
            address_pads,
            word_pads,
        )
    }
}

/// Addresses are padded to the least count of places whose power of sixteen
/// is no less than the depth.
pub proof fn lemma_address_pads(depth: nat)
    ensures
        depth <= pow(16, address_pads(depth)),
        address_pads(depth) > 0 ==> pow(16, (address_pads(depth) - 1) as nat) < depth,
{
    let pads = address_pads(depth);
    lemma_pow0(16);
    if depth > 1 {
        let last = (depth - 1) as nat;
        lemma_digits_len(last, 16, pads);
        if pads > 1 {
            lemma_digits_len(last, 16, (pads - 1) as nat);
        }
    }
}

} // verus!
