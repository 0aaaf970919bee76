//! Decimal rendering of small numbers, used by the display helpers that turn
//! tiles, trains and card faces into text.

use vstd::prelude::*;
use vstd::string::StringExecFns;

verus! {

/// The character for a single decimal digit.
pub open spec fn digit_char(d: int) -> char {
    if d == 0 {
        '0'
    } else if d == 1 {
        '1'
    } else if d == 2 {
        '2'
    } else if d == 3 {
        '3'
    } else if d == 4 {
        '4'
    } else if d == 5 {
        '5'
    } else if d == 6 {
        '6'
    } else if d == 7 {
        '7'
    } else if d == 8 {
        '8'
    } else {
        '9'
    }
}

/// The usual decimal writing of a non-negative number, with no leading
/// zeroes (a single zero for 0).
pub open spec fn decimal(n: int) -> Seq<char>
    decreases n,
{
    if n < 10 {
        seq![digit_char(n)]
    } else {
        decimal(n / 10).push(digit_char(n % 10))
    }
}

/// One decimal digit as text.
fn digit_text(d: u8) -> (s: &'static str)
    requires
        d <= 9,
    ensures
        s@ == seq![digit_char(d as int)],
{
    proof {
        reveal_strlit("0");
        reveal_strlit("1");
        reveal_strlit("2");
        reveal_strlit("3");
        reveal_strlit("4");
        reveal_strlit("5");
        reveal_strlit("6");
        reveal_strlit("7");
        reveal_strlit("8");
        reveal_strlit("9");
    }
    let s = match d {
        0 => "0",
        1 => "1",
        2 => "2",
        3 => "3",
        4 => "4",
        5 => "5",
        6 => "6",
        7 => "7",
        8 => "8",
        _ => "9",
    };
    proof {
        assert(s@ =~= seq![digit_char(d as int)]);
    }
    s
}

/// Appends the decimal writing of `n` to the string being built.
pub fn push_decimal(out: &mut String, n: u8)
    ensures
        final(out)@ == old(out)@ + decimal(n as int),
{
    let ones = n % 10;
    let tens = (n / 10) % 10;
    let hundreds = n / 100;
    if n >= 100 {
        out.append(digit_text(hundreds));
    }
    if n >= 10 {
        out.append(digit_text(tens));
    }
    out.append(digit_text(ones));
    proof {
        if n < 10 {
            assert(decimal(n as int) == seq![digit_char(n as int)]);
            assert(final(out)@ =~= old(out)@ + decimal(n as int));
        } else if n < 100 {
            assert(n / 10 < 10);
            assert(decimal(n as int) == decimal(n as int / 10).push(digit_char(n as int % 10)));
            assert(decimal(n as int / 10) == seq![digit_char(n as int / 10)]);
            assert(tens == n as int / 10 && ones == n as int % 10);
            assert(final(out)@ =~= old(out)@ + decimal(n as int));
        } else {
            let q = n as int / 10;
            assert(10 <= q < 26);
            assert(decimal(n as int) == decimal(q).push(digit_char(n as int % 10)));
            assert(decimal(q) == decimal(q / 10).push(digit_char(q % 10)));
            assert(q / 10 < 10);
            assert(decimal(q / 10) == seq![digit_char(q / 10)]);
            assert(hundreds == q / 10 && tens == q % 10 && ones == n as int % 10);
            assert(final(out)@ =~= old(out)@ + decimal(n as int));
        }
    }
}

/// The decimal writing of `n` as a fresh string.
pub fn decimal_string(n: u8) -> (s: String)
    ensures
        s@ == decimal(n as int),
{
    let mut s = String::new();
    push_decimal(&mut s, n);
    proof {
        assert(s@ =~= decimal(n as int));
    }
    s
}

} // verus!
