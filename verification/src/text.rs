//! Numbers as text: digits of a radix up to sixteen, padded with zeros.

use crate::width::{lemma_pow2_128, lemma_pow2_grows};
use vstd::arithmetic::power::{
    lemma_pow1, lemma_pow_adds, lemma_pow_increases, lemma_pow_positive, pow,
};
use vstd::arithmetic::power2::{lemma2_to64, lemma_pow2_unfold, pow2};
use vstd::prelude::*;
use vstd::string::*;

verus! {

/// The digit that stands for `value`, with capital letters from ten on.
pub open spec fn digit(value: nat) -> char {
    if value == 0 {
        '0'
    } else if value == 1 {
        '1'
    } else if value == 2 {
        '2'
    } else if value == 3 {
        '3'
    } else if value == 4 {
        '4'
    } else if value == 5 {
        '5'
    } else if value == 6 {
        '6'
    } else if value == 7 {
        '7'
    } else if value == 8 {
        '8'
    } else if value == 9 {
        '9'
    } else if value == 10 {
        'A'
    } else if value == 11 {
        'B'
    } else if value == 12 {
        'C'
    } else if value == 13 {
        'D'
    } else if value == 14 {
        'E'
    } else {
        'F'
    }
}

/// The digits of `number` to the `radix`, the most significant first and
/// without leading zeros: zero itself has the one digit `0`.
pub open spec fn digits(number: nat, radix: nat) -> Seq<char>
    decreases number,
    via digits_decreases
{
    if number < radix || radix < 2 {
        seq![digit(number)]
    } else {
        digits(number / radix, radix).push(digit(number % radix))
    }
}

#[via_fn]
proof fn digits_decreases(number: nat, radix: nat) {
    if number >= radix && radix >= 2 {
        lemma_div_less(number, radix);
    }
}

/// A number of more than one digit loses its last digit to a lesser number.
pub proof fn lemma_div_less(number: nat, radix: nat)
    requires
        2 <= radix <= number,
    ensures
        number / radix < number,
        2 * (number / radix) <= number,
{
    assert(number / radix < number && 2 * (number / radix) <= number) by (nonlinear_arith)
        requires
            2 <= radix <= number,
    ;
}

/// `count` zeros.
pub open spec fn zeros(count: nat) -> Seq<char> {
    Seq::new(count, |i: int| '0')
}

/// The digits of `number` to the `radix` behind as many zeros as it takes to
/// fill `pads` places. A number of more digits is not cut.
pub open spec fn padded(number: nat, radix: nat, pads: nat) -> Seq<char> {
    let digits = digits(number, radix);
    if digits.len() < pads {
        zeros((pads - digits.len()) as nat) + digits
    } else {
        digits
    }
}

/// `number` in decimal digits.
pub open spec fn decimal(number: nat) -> Seq<char> {
    digits(number, 10)
}

/// `number` in hexadecimal digits, padded with zeros to `pads` places.
pub open spec fn hex(number: nat, pads: nat) -> Seq<char> {
    padded(number, 16, pads)
}

/// A number has at most `count` digits if and only if it is less than the
/// radix to the power of `count`.
pub proof fn lemma_digits_len(number: nat, radix: nat, count: nat)
    requires
        radix >= 2,
        count >= 1,
    ensures
        digits(number, radix).len() >= 1,
        digits(number, radix).len() <= count <==> number < pow(radix as int, count),
    decreases number,
{
    lemma_pow1(radix as int);
    if number < radix {
        if count > 1 {
            lemma_pow_increases(radix, 1, count);
        }
    } else {
        let rest = number / radix;
        lemma_div_less(number, radix);
        lemma_digits_len(rest, radix, 1);
        if count > 1 {
            let bound = pow(radix as int, (count - 1) as nat);
            lemma_pow_positive(radix as int, (count - 1) as nat);
            lemma_pow_adds(radix as int, 1, (count - 1) as nat);
            lemma_digits_len(rest, radix, (count - 1) as nat);
            assert(rest < bound <==> number < radix * bound) by (nonlinear_arith)
                requires
                    rest == number / radix,
                    radix >= 2,
                    bound >= 1,
            ;
        }
    }
}

/// The text of one digit.
fn digit_str(value: u8) -> (text: &'static str)
    requires
        value < 16,
    ensures
        text@ == seq![digit(value as nat)],
{
    let text = match value {
        0 => "0",
        1 => "1",
        2 => "2",
        3 => "3",
        4 => "4",
        5 => "5",
        6 => "6",
        7 => "7",
        8 => "8",
        9 => "9",
        10 => "A",
        11 => "B",
        12 => "C",
        13 => "D",
        14 => "E",
        _ => "F",
    };
    proof {
        reveal_strlit("0");
        reveal_strlit("1");
        reveal_strlit("2");
        reveal_strlit("3");
        reveal_strlit("4");
        reveal_strlit("5");
        reveal_strlit("6");
        reveal_strlit("7");
        reveal_strlit("8");
        reveal_strlit("9");
        reveal_strlit("A");
        reveal_strlit("B");
        reveal_strlit("C");
        reveal_strlit("D");
        reveal_strlit("E");
        reveal_strlit("F");
        assert(text@ =~= seq![digit(value as nat)]);
    }
    text
}

/// Counts the digits of `number` to the `radix`.
pub(crate) fn count_digits(number: u128, radix: u128) -> (count: usize)
    requires
        2 <= radix <= 16,
    ensures
        count == digits(number as nat, radix as nat).len(),
        1 <= count <= 128,
{
    let mut count: usize = 1;
    let mut rest = number;
    proof {
        lemma2_to64();
        assert(rest * pow2(0) == rest);
    }
    while rest >= radix
        invariant
            2 <= radix <= 16,
            1 <= count <= 128,
            count + digits(rest as nat, radix as nat).len() == 1 + digits(
                number as nat,
                radix as nat,
            ).len(),
            rest * pow2((count - 1) as nat) <= number,
        decreases rest,
    {
        proof {
            let bound = pow2((count - 1) as nat);
            lemma_div_less(rest as nat, radix as nat);
            lemma_pow2_unfold(count as nat);
            assert(pow2(count as nat) <= number && (rest / radix) * (2 * bound) <= number)
                by (nonlinear_arith)
                requires
                    rest >= 2,
                    2 * (rest / radix) <= rest,
                    rest * bound <= number,
                    pow2(count as nat) == 2 * bound,
            ;
            if count >= 128 {
                lemma_pow2_grows(128, count as nat);
                lemma_pow2_128();
            }
        }
        rest = rest / radix;
        count = count + 1;
    }
    count
}

/// Appends the digits of `number` to the `radix`.
pub(crate) fn push_digits(text: &mut String, number: u128, radix: u128)
    requires
        2 <= radix <= 16,
    ensures
        final(text)@ == old(text)@ + digits(number as nat, radix as nat),
    decreases number,
{
    if number >= radix {
        proof {
            lemma_div_less(number as nat, radix as nat);
        }
        push_digits(text, number / radix, radix);
    }
    let last = (number % radix) as u8;
    text.append(digit_str(last));
    proof {
        assert(last as nat == number as nat % radix as nat);
        if number >= radix {
            assert((number / radix) as nat == number as nat / radix as nat);
            assert(text@ =~= old(text)@ + digits(number as nat / radix as nat, radix as nat).push(
                digit(last as nat),
            ));
        } else {
            assert(number % radix == number) by (nonlinear_arith)
                requires
                    0 <= number < radix,
            ;
            assert(text@ =~= old(text)@ + seq![digit(number as nat)]);
        }
    }
}

/// Appends the digits of `number` to the `radix`, padded with zeros to
/// `pads` places.
pub(crate) fn push_padded(text: &mut String, number: u128, radix: u128, pads: usize)
    requires
        2 <= radix <= 16,
    ensures
        final(text)@ == old(text)@ + padded(number as nat, radix as nat, pads as nat),
{
    let count = count_digits(number, radix);
    let mut at = count;
    while at < pads
        invariant
            count <= at,
            at <= pads || at == count,
            text@ == old(text)@ + zeros((at - count) as nat),
        decreases pads - at,
    {
        text.append("0");
        proof {
            reveal_strlit("0");
            assert(text@ =~= old(text)@ + zeros((at + 1 - count) as nat));
        }
        at = at + 1;
    }
    push_digits(text, number, radix);
    assert(text@ =~= old(text)@ + padded(number as nat, radix as nat, pads as nat));
}

} // verus!
