//! Text rendering of numbers and values, built from verified pieces.

use vstd::prelude::*;

verus! {

/// Decimal digits of a natural number, most significant first (`0` is "0").
pub open spec fn nat_digits(n: nat) -> Seq<char>
    decreases n,
{
    if n < 10 {
        seq![digit_char(n)]
    } else {
        nat_digits(n / 10).push(digit_char(n % 10))
    }
}

/// The character of a digit `0..=9`.
pub open spec fn digit_char(d: nat) -> char {
    if d == 0 { '0' } else if d == 1 { '1' } else if d == 2 { '2' } else if d == 3 { '3' }
    else if d == 4 { '4' } else if d == 5 { '5' } else if d == 6 { '6' } else if d == 7 { '7' }
    else if d == 8 { '8' } else { '9' }
}

/// Decimal rendering of a signed integer (`-` then the magnitude).
pub open spec fn int_digits(n: int) -> Seq<char> {
    if n < 0 {
        seq!['-'] + nat_digits((-n) as nat)
    } else {
        nat_digits(n as nat)
    }
}

/// Append `t` to `s`.
pub fn push_str(s: &mut String, t: &str)
    ensures
        final(s)@ == old(s)@ + t@,
{
    s.append(t);
}


/// Append the digit character of `d < 10`.
pub fn push_digit(s: &mut String, d: u128)
    requires
        d < 10,
    ensures
        final(s)@ == old(s)@ + seq![digit_char(d as nat)],
{
    if d == 0 {
        proof { reveal_strlit("0"); }
        push_str(s, "0");
    } else if d == 1 {
        proof { reveal_strlit("1"); }
        push_str(s, "1");
    } else if d == 2 {
        proof { reveal_strlit("2"); }
        push_str(s, "2");
    } else if d == 3 {
        proof { reveal_strlit("3"); }
        push_str(s, "3");
    } else if d == 4 {
        proof { reveal_strlit("4"); }
        push_str(s, "4");
    } else if d == 5 {
        proof { reveal_strlit("5"); }
        push_str(s, "5");
    } else if d == 6 {
        proof { reveal_strlit("6"); }
        push_str(s, "6");
    } else if d == 7 {
        proof { reveal_strlit("7"); }
        push_str(s, "7");
    } else if d == 8 {
        proof { reveal_strlit("8"); }
        push_str(s, "8");
    } else {
        proof { reveal_strlit("9"); }
        push_str(s, "9");
    }
}

/// Append the decimal digits of `n`.
pub fn push_nat(s: &mut String, n: u128)
    ensures
        final(s)@ == old(s)@ + nat_digits(n as nat),
    decreases n,
{
    if n >= 10 {
        push_nat(s, n / 10);
        push_digit(s, n % 10);
        proof {
            assert(old(s)@ + nat_digits((n / 10) as nat) + seq![digit_char((n % 10) as nat)]
                =~= old(s)@ + nat_digits((n / 10) as nat).push(digit_char((n % 10) as nat)));
        }
    } else {
        push_digit(s, n);
    }
}

/// Append the decimal rendering of a signed integer.
pub fn push_int(s: &mut String, n: i128)
    ensures
        final(s)@ == old(s)@ + int_digits(n as int),
{
    let m: u128 = crate::decimal::abs_u128(n);
    if n < 0 {
        proof { reveal_strlit("-"); }
        push_str(s, "-");
        push_nat(s, m);
        proof {
            assert(old(s)@ + seq!['-'] + nat_digits(m as nat) =~= old(s)@ + (seq!['-'] + nat_digits(m as nat)));
        }
    } else {
        push_nat(s, m);
    }
}

} // verus!
