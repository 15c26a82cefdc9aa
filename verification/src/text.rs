//! Decimal rendering of numbers and fractions.

use vstd::prelude::*;
use vstd::math::abs;
use vstd::string::StringExecFns;
use crate::ratio::Ratio;

verus! {

/// The character for a single decimal digit.
pub open spec fn digit_char(d: nat) -> char {
    if d == 0 {
        '0'
    } else if d == 1 {
        '1'
    } else if d == 2 {
        '2'
    } else if d == 3 {
        '3'
    } else if d == 4 {
        '4'
    } else if d == 5 {
        '5'
    } else if d == 6 {
        '6'
    } else if d == 7 {
        '7'
    } else if d == 8 {
        '8'
    } else {
        '9'
    }
}

/// The decimal digits of `n`, most significant first, without leading zeros.
pub open spec fn decimal(n: nat) -> Seq<char>
    decreases n,
{
    if n < 10 {
        seq![digit_char(n)]
    } else {
        decimal(n / 10) + seq![digit_char(n % 10)]
    }
}

/// The text of a fraction: a minus sign if it is negative, the numerator's
/// magnitude, and, unless the denominator is one, a slash and the denominator.
pub open spec fn rendering(q: Ratio) -> Seq<char> {
    let sign = if q.num < 0 {
        seq!['-']
    } else {
        Seq::<char>::empty()
    };
    let whole = sign + decimal(abs(q.num));
    if q.den == 1 {
        whole
    } else {
        whole + seq!['/'] + decimal(q.den as nat)
    }
}

/// The one-character string for a decimal digit.
fn digit_str(d: u64) -> (s: &'static str)
    requires
        d < 10,
    ensures
        s@ =~= seq![digit_char(d as nat)],
{
    proof {
        reveal_strlit("0");
        reveal_strlit("1");
        reveal_strlit("2");
        reveal_strlit("3");
        reveal_strlit("4");
        reveal_strlit("5");
        reveal_strlit("6");
        reveal_strlit("7");
        reveal_strlit("8");
        reveal_strlit("9");
    }
    if d == 0 {
        "0"
    } else if d == 1 {
        "1"
    } else if d == 2 {
        "2"
    } else if d == 3 {
        "3"
    } else if d == 4 {
        "4"
    } else if d == 5 {
        "5"
    } else if d == 6 {
        "6"
    } else if d == 7 {
        "7"
    } else if d == 8 {
        "8"
    } else {
        "9"
    }
}

/// Appends the decimal digits of `n` to `out`.
pub fn push_decimal(out: &mut String, n: u64)
    ensures
        final(out)@ == old(out)@ + decimal(n as nat),
    decreases n,
{
    if n >= 10 {
        push_decimal(out, n / 10);
    }
    out.append(digit_str(n % 10));
    proof {
        if n >= 10 {
            assert(out@ =~= old(out)@ + (decimal((n / 10) as nat) + seq![
                digit_char((n % 10) as nat),
            ]));
        }
    }
}

/// Appends a minus sign to `out`.
pub fn push_minus(out: &mut String)
    ensures
        final(out)@ == old(out)@ + seq!['-'],
{
    proof {
        reveal_strlit("-");
    }
    out.append("-");
    assert(out@ =~= old(out)@ + seq!['-']);
}

/// Appends a slash to `out`.
pub fn push_slash(out: &mut String)
    ensures
        final(out)@ == old(out)@ + seq!['/'],
{
    proof {
        reveal_strlit("/");
    }
    out.append("/");
    assert(out@ =~= old(out)@ + seq!['/']);
}

} // verus!
