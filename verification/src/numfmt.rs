//! Decimal formatting of coordinates, verified down to the exact character
//! sequence, so that path-data strings can be pinned down in contracts.

use vstd::prelude::*;

verus! {

/// The decimal digit character for `d` (meaningful for `0 <= d <= 9`).
pub open spec fn digit_char(d: int) -> char {
    if d == 0 { '0' }
    else if d == 1 { '1' }
    else if d == 2 { '2' }
    else if d == 3 { '3' }
    else if d == 4 { '4' }
    else if d == 5 { '5' }
    else if d == 6 { '6' }
    else if d == 7 { '7' }
    else if d == 8 { '8' }
    else { '9' }
}

/// The decimal digits of a non-negative integer, most significant first.
pub open spec fn dec_str(n: int) -> Seq<char>
    decreases n,
{
    if n <= 9 {
        seq![digit_char(n)]
    } else {
        dec_str(n / 10).push(digit_char(n % 10))
    }
}

/// The decimal rendering of an integer, with a leading minus sign when
/// negative.
pub open spec fn int_str(v: int) -> Seq<char> {
    if v < 0 {
        seq!['-'] + dec_str(-v)
    } else {
        dec_str(v)
    }
}

/// Append the digit character for `d` to `s`.
pub fn push_digit(s: &mut String, d: u64)
    requires
        d <= 9,
    ensures
        final(s)@ == old(s)@.push(digit_char(d as int)),
{
    let piece: &str = match d {
        0 => "0",
        1 => "1",
        2 => "2",
        3 => "3",
        4 => "4",
        5 => "5",
        6 => "6",
        7 => "7",
        8 => "8",
        _ => "9",
    };
    proof {
        reveal_strlit("0");
        reveal_strlit("1");
        reveal_strlit("2");
        reveal_strlit("3");
        reveal_strlit("4");
        reveal_strlit("5");
        reveal_strlit("6");
        reveal_strlit("7");
        reveal_strlit("8");
        reveal_strlit("9");
        assert(piece@ =~= seq![digit_char(d as int)]);
    }
    s.append(piece);
    proof {
        assert(s@ =~= old(s)@.push(digit_char(d as int)));
    }
}

/// Append the decimal digits of `n` to `s`.
pub fn push_dec(s: &mut String, n: u64)
    ensures
        final(s)@ == old(s)@ + dec_str(n as int),
    decreases n,
{
    if n <= 9 {
        push_digit(s, n);
        proof {
            assert(s@ =~= old(s)@ + dec_str(n as int));
        }
    } else {
        push_dec(s, n / 10);
        push_digit(s, n % 10);
        proof {
            assert(s@ =~= old(s)@ + dec_str(n as int));
        }
    }
}

/// Append the decimal rendering of `v` to `s`, minus sign included.
pub fn push_i64(s: &mut String, v: i64)
    ensures
        final(s)@ == old(s)@ + int_str(v as int),
{
    if v >= 0 {
        push_dec(s, v as u64);
    } else {
        proof {
            reveal_strlit("-");
        }
        s.append("-");
        let wide: i128 = v as i128;
        let mag: u64 = (-wide) as u64;
        proof {
            assert(mag as int == -(v as int));
        }
        push_dec(s, mag);
        proof {
            assert(old(s)@ + seq!['-'] + dec_str(-(v as int)) =~= old(s)@ + int_str(v as int));
        }
    }
}

/// Append a single space to `s`.
pub fn push_space(s: &mut String)
    ensures
        final(s)@ == old(s)@.push(' '),
{
    proof {
        reveal_strlit(" ");
    }
    s.append(" ");
    proof {
        assert(s@ =~= old(s)@.push(' '));
    }
}

} // verus!
