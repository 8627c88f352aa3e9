//! The numeric and textual orders that comparisons are decided by, as
//! signs (-1, 0, 1).

use vstd::prelude::*;
use crate::decimal::{dec_order_sign, dec_sign, law_dec_order_by_value, pow10};
use crate::value::Value;

verus! {

/// Sign of `a - b`.
pub open spec fn sign(v: int) -> int {
    if v < 0 {
        -1
    } else if v == 0 {
        0
    } else {
        1
    }
}

/// Lexicographic order of two character sequences by code point (the
/// byte order of their UTF-8 encodings).
pub open spec fn seq_order(a: Seq<char>, b: Seq<char>) -> int
    decreases a.len(),
{
    if a.len() == 0 {
        if b.len() == 0 {
            0
        } else {
            -1
        }
    } else if b.len() == 0 {
        1
    } else if (a[0] as int) < (b[0] as int) {
        -1
    } else if a[0] == b[0] {
        seq_order(a.drop_first(), b.drop_first())
    } else {
        1
    }
}

/// The order of two values, when they are comparable: decimals and
/// integers numerically (across the two kinds too), strings
/// lexicographically, booleans with `false < true`. Everything else
/// (nulls, mismatched kinds) is incomparable.
pub open spec fn value_order(lhs: Value, rhs: Value) -> Option<int> {
    match (lhs, rhs) {
        (Value::Dec { u: a, s: x }, Value::Dec { u: b, s: y }) => Some(dec_sign(a, x, b, y)),
        (Value::Dec { u: a, s: x }, Value::I64(b)) => Some(dec_sign(a, x, b as i128, 0)),
        (Value::I64(a), Value::Dec { u: b, s: y }) => Some(dec_sign(a as i128, 0, b, y)),
        (Value::I64(a), Value::I64(b)) => Some(sign(a - b)),
        (Value::Str(a), Value::Str(b)) => Some(seq_order(a@, b@)),
        (Value::Bool(a), Value::Bool(b)) => Some(sign((if a { 1int } else { 0 }) - (if b { 1int } else { 0 }))),
        _ => None,
    }
}

/// `seq_order(a[i..], b[i..])` unfolds one position.
proof fn lemma_seq_order_step(a: Seq<char>, b: Seq<char>, i: int)
    requires
        0 <= i < a.len(),
        i < b.len(),
        a[i] == b[i],
    ensures
        seq_order(a.subrange(i, a.len() as int), b.subrange(i, b.len() as int)) == seq_order(
            a.subrange(i + 1, a.len() as int),
            b.subrange(i + 1, b.len() as int),
        ),
{
    assert(a.subrange(i, a.len() as int).drop_first() =~= a.subrange(i + 1, a.len() as int));
    assert(b.subrange(i, b.len() as int).drop_first() =~= b.subrange(i + 1, b.len() as int));
}

/// Lexicographic order of two strings as -1, 0 or 1.
pub fn str_order(a: &str, b: &str) -> (r: i8)
    ensures
        r == seq_order(a@, b@),
{
    let n = a.unicode_len();
    let m = b.unicode_len();
    let mut i: usize = 0;
    proof {
        assert(a@.subrange(0, a@.len() as int) =~= a@);
        assert(b@.subrange(0, b@.len() as int) =~= b@);
    }
    while i < n && i < m
        invariant
            i <= n,
            i <= m,
            n == a@.len(),
            m == b@.len(),
            seq_order(a@, b@) == seq_order(a@.subrange(i as int, n as int), b@.subrange(i as int, m as int)),
        decreases n - i,
    {
        let x = a.get_char(i);
        let y = b.get_char(i);
        proof {
            assert(a@.subrange(i as int, n as int)[0] == x);
            assert(b@.subrange(i as int, m as int)[0] == y);
        }
        if (x as u32) < (y as u32) {
            return -1;
        } else if x != y {
            return 1;
        }
        proof {
            lemma_seq_order_step(a@, b@, i as int);
        }
        i = i + 1;
    }
    if i == n {
        if i == m {
            0
        } else {
            -1
        }
    } else {
        1
    }
}

/// The order of two values as a sign, `None` when incomparable.
pub fn value_order_sign(lhs: &Value, rhs: &Value) -> (r: Option<i8>)
    ensures
        r is Some <==> value_order(*lhs, *rhs) is Some,
        r matches Some(o) ==> value_order(*lhs, *rhs) == Some(o as int),
{
    match (lhs, rhs) {
        (Value::Dec { u: a, s: x }, Value::Dec { u: b, s: y }) => Some(dec_order_sign(*a, *x, *b, *y)),
        (Value::Dec { u: a, s: x }, Value::I64(b)) => Some(dec_order_sign(*a, *x, *b as i128, 0)),
        (Value::I64(a), Value::Dec { u: b, s: y }) => Some(dec_order_sign(*a as i128, 0, *b, *y)),
        (Value::I64(a), Value::I64(b)) => {
            if *a < *b {
                Some(-1)
            } else if *a == *b {
                Some(0)
            } else {
                Some(1)
            }
        },
        (Value::Str(a), Value::Str(b)) => Some(str_order(a.as_str(), b.as_str())),
        (Value::Bool(a), Value::Bool(b)) => {
            if *a == *b {
                Some(0)
            } else if !*a {
                Some(-1)
            } else {
                Some(1)
            }
        },
        _ => None,
    }
}

/// Lexicographic order reverses when the operands swap.
pub proof fn lemma_seq_order_antisym(a: Seq<char>, b: Seq<char>)
    ensures
        seq_order(b, a) == -seq_order(a, b),
    decreases a.len(),
{
    if a.len() > 0 && b.len() > 0 && a[0] == b[0] {
        lemma_seq_order_antisym(a.drop_first(), b.drop_first());
    }
}

/// Every sequence is equal to itself in lexicographic order.
pub proof fn lemma_seq_order_refl(a: Seq<char>)
    ensures
        seq_order(a, a) == 0,
    decreases a.len(),
{
    if a.len() > 0 {
        lemma_seq_order_refl(a.drop_first());
    }
}

/// Swapping two values negates their order (and keeps incomparability).
pub proof fn lemma_value_order_antisym(a: Value, b: Value)
    ensures
        value_order(b, a) == (match value_order(a, b) {
            Some(o) => Some(-o),
            None => None,
        }),
{
    match (a, b) {
        (Value::Str(x), Value::Str(y)) => lemma_seq_order_antisym(x@, y@),
        _ => {},
    }
}

/// Every value other than null is comparable with itself and equal to it.
pub proof fn lemma_value_order_refl(a: Value)
    ensures
        value_order(a, a) == (if a is Null { None } else { Some(0int) }),
{
    match a {
        Value::Str(x) => lemma_seq_order_refl(x@),
        _ => {},
    }
}

/// Numbers are ordered by value, whatever their kind and scale: a decimal
/// `a·10^-p` against a decimal `b·10^-q` by the sign of `a·10^q - b·10^p`,
/// against an integer `n` by the sign of `a - n·10^p` (and the mirror of
/// that the other way round), integers by the sign of their difference;
/// booleans put `false` before `true`.
pub proof fn law_numbers_ordered_by_value(a: i128, p: u8, b: i128, q: u8, n: i64, m: i64)
    ensures
        value_order(Value::Dec { u: a, s: p }, Value::Dec { u: b, s: q }) == Some(sign(a * pow10(q as nat) - b * pow10(p as nat))),
        value_order(Value::Dec { u: a, s: p }, Value::I64(n)) == Some(sign(a - n * pow10(p as nat))),
        value_order(Value::I64(n), Value::Dec { u: b, s: q }) == Some(sign(n * pow10(q as nat) - b)),
        value_order(Value::I64(n), Value::I64(m)) == Some(sign(n - m)),
        value_order(Value::Bool(false), Value::Bool(true)) == Some(-1int),
        value_order(Value::Bool(true), Value::Bool(false)) == Some(1int),
{
    law_dec_order_by_value(a, p, b, q);
    law_dec_order_by_value(a, p, n as i128, 0);
    law_dec_order_by_value(n as i128, 0, b, q);
    assert(pow10(0) == 1);
}

} // verus!
