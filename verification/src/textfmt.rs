//! Decimal text for chart coordinates.
//!
//! Coordinates are carried as integers in hundredths of an SVG drawing
//! unit; a coordinate is printed as its whole part followed by exactly
//! two fractional digits, the shape a path attribute expects.

use vstd::prelude::*;
use vstd::string::StringExecFns;

verus! {

/// The character for a single decimal digit.
pub open spec fn digit_char(d: int) -> char {
    if d == 0 {
        '0'
    } else if d == 1 {
        '1'
    } else if d == 2 {
        '2'
    } else if d == 3 {
        '3'
    } else if d == 4 {
        '4'
    } else if d == 5 {
        '5'
    } else if d == 6 {
        '6'
    } else if d == 7 {
        '7'
    } else if d == 8 {
        '8'
    } else {
        '9'
    }
}

/// Decimal digits of `n`, most significant first.
pub open spec fn dec_text(n: int) -> Seq<char>
    decreases n,
{
    if n < 10 {
        seq![digit_char(n)]
    } else {
        dec_text(n / 10).push(digit_char(n % 10))
    }
}

/// Text of a coordinate given in hundredths of a unit: the whole part,
/// a point, and exactly two fractional digits.
pub open spec fn coord_text(c: int) -> Seq<char> {
    dec_text(c / 100) + seq!['.', digit_char((c % 100) / 10), digit_char(c % 10)]
}

/// The one-character string for a decimal digit.
fn digit_str(d: u64) -> (s: &'static str)
    requires
        d < 10,
    ensures
        s@ =~= seq![digit_char(d as int)],
{
    if d == 0 {
        proof {
            reveal_strlit("0");
        }
        "0"
    } else if d == 1 {
        proof {
            reveal_strlit("1");
        }
        "1"
    } else if d == 2 {
        proof {
            reveal_strlit("2");
        }
        "2"
    } else if d == 3 {
        proof {
            reveal_strlit("3");
        }
        "3"
    } else if d == 4 {
        proof {
            reveal_strlit("4");
        }
        "4"
    } else if d == 5 {
        proof {
            reveal_strlit("5");
        }
        "5"
    } else if d == 6 {
        proof {
            reveal_strlit("6");
        }
        "6"
    } else if d == 7 {
        proof {
            reveal_strlit("7");
        }
        "7"
    } else if d == 8 {
        proof {
            reveal_strlit("8");
        }
        "8"
    } else {
        proof {
            reveal_strlit("9");
        }
        "9"
    }
}

/// Appends the decimal digits of `n` to `s`.
pub fn append_dec(s: &mut String, n: u64)
    ensures
        final(s)@ == old(s)@ + dec_text(n as int),
    decreases n,
{
    if n < 10 {
        s.append(digit_str(n));
        proof {
            assert(final(s)@ =~= old(s)@ + dec_text(n as int));
        }
    } else {
        append_dec(s, n / 10);
        s.append(digit_str(n % 10));
        proof {
            assert(final(s)@ =~= old(s)@ + dec_text(n as int));
        }
    }
}

/// Appends a coordinate given in hundredths of a unit, as whole part,
/// point, and two fractional digits.
pub fn append_coord(s: &mut String, c: u64)
    ensures
        final(s)@ == old(s)@ + coord_text(c as int),
{
    append_dec(s, c / 100);
    proof {
        reveal_strlit(".");
    }
    s.append(".");
    let rem = c % 100;
    s.append(digit_str(rem / 10));
    s.append(digit_str(rem % 10));
    proof {
        assert((rem / 10) as int == (c as int % 100) / 10);
        assert((rem % 10) as int == c as int % 10);
        assert(final(s)@ =~= old(s)@ + coord_text(c as int));
    }
}

} // verus!
