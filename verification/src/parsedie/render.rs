//! Numbers as text.

use super::number::{magnitude, Number};
use vstd::prelude::*;
use vstd::string::StringExecFns;

verus! {

/// `String::push` of the standard library, which appends one character to
/// the end of the string.
pub assume_specification[ String::push ](s: &mut String, ch: char)
    ensures
        final(s)@ == old(s)@.push(ch),
;

/// The character for a digit below ten.
pub open spec fn digit_char(d: int) -> char {
    if d == 0 {
        '0'
    } else if d == 1 {
        '1'
    } else if d == 2 {
        '2'
    } else if d == 3 {
        '3'
    } else if d == 4 {
        '4'
    } else if d == 5 {
        '5'
    } else if d == 6 {
        '6'
    } else if d == 7 {
        '7'
    } else if d == 8 {
        '8'
    } else {
        '9'
    }
}

/// The decimal digits of a natural number, most significant first.
pub open spec fn digits_text(n: nat) -> Seq<char>
    decreases n,
{
    if n < 10 {
        seq![digit_char(n as int)]
    } else {
        digits_text(n / 10).push(digit_char((n % 10) as int))
    }
}

/// An integer in decimal, with a leading `-` if it is negative.
pub open spec fn decimal_text(n: int) -> Seq<char> {
    if n < 0 {
        seq!['-'] + digits_text(magnitude(n))
    } else {
        digits_text(magnitude(n))
    }
}

/// A number as text: an integer in decimal, any other value as numerator,
/// `/` and denominator.
pub open spec fn number_text(v: Number) -> Seq<char> {
    if v.denom() == 1 {
        decimal_text(v.numer())
    } else {
        decimal_text(v.numer()) + seq!['/'] + decimal_text(v.denom())
    }
}

/// The text of one digit.
fn digit_str(d: u8) -> (s: &'static str)
    requires
        d < 10,
    ensures
        s@ == seq![digit_char(d as int)],
{
    proof {
        reveal_strlit("0");
        reveal_strlit("1");
        reveal_strlit("2");
        reveal_strlit("3");
        reveal_strlit("4");
        reveal_strlit("5");
        reveal_strlit("6");
        reveal_strlit("7");
        reveal_strlit("8");
        reveal_strlit("9");
    }
    let s = if d == 0 {
        "0"
    } else if d == 1 {
        "1"
    } else if d == 2 {
        "2"
    } else if d == 3 {
        "3"
    } else if d == 4 {
        "4"
    } else if d == 5 {
        "5"
    } else if d == 6 {
        "6"
    } else if d == 7 {
        "7"
    } else if d == 8 {
        "8"
    } else {
        "9"
    };
    assert(s@ =~= seq![digit_char(d as int)]);
    s
}

/// Appends the decimal digits of `m` to `out`.
fn push_digits(out: &mut String, m: u128)
    ensures
        final(out)@ == old(out)@ + digits_text(m as nat),
    decreases m,
{
    if m >= 10 {
        push_digits(out, m / 10);
    }
    out.append(digit_str((m % 10) as u8));
    assert(out@ =~= old(out)@ + digits_text(m as nat));
}

/// Appends `n` in decimal to `out`.
pub fn push_decimal(out: &mut String, n: i128)
    ensures
        final(out)@ == old(out)@ + decimal_text(n as int),
{
    if n >= 0 {
        push_digits(out, n as u128);
    } else {
        proof {
            reveal_strlit("-");
        }
        out.append("-");
        let m: u128 = if n == i128::MIN {
            170141183460469231731687303715884105728u128
        } else {
            (-n) as u128
        };
        push_digits(out, m);
        assert(out@ =~= old(out)@ + decimal_text(n as int));
    }
}

/// Appends a number to `out`: an integer in decimal, any other value as
/// numerator, `/` and denominator.
pub fn push_number(out: &mut String, v: &Number)
    ensures
        final(out)@ == old(out)@ + number_text(*v),
{
    push_decimal(out, v.numerator());
    if !v.is_integer() {
        proof {
            reveal_strlit("/");
        }
        out.append("/");
        push_decimal(out, v.denominator());
        assert(out@ =~= old(out)@ + number_text(*v));
    }
}

} // verus!
