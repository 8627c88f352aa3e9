//! Value-equality keys of logically inserted facts: values with Java
//! `equals` semantics, except that nulls collapse into one key and
//! decimals are keyed by value across scales (`1.10` and `1.1` are the
//! same key).

use vstd::prelude::*;
use crate::decimal::{dec_norm, dec_normalize, dec_sign, pow10, lemma_pow10_pos, lemma_pow10_add, is_normalized, abs_int};
use crate::value::Value;

verus! {

/// One component of a value-equality key. `F` carries the bit pattern of
/// a double (bit equality: NaN equals NaN, +0.0 differs from -0.0).
#[derive(Clone, PartialEq, Eq, Hash, Debug)]
pub enum KeyVal {
    I(i64),
    F(u64),
    S(String),
    B(bool),
    Null,
    D(i128, u8),
}

/// The key component of a value (decimals normalized).
pub open spec fn key_of(v: Value) -> KeyVal {
    match v {
        Value::I64(n) => KeyVal::I(n),
        Value::Str(s) => KeyVal::S(s),
        Value::Bool(b) => KeyVal::B(b),
        Value::Null => KeyVal::Null,
        Value::Dec { u, s } => {
            let (nu, ns) = dec_norm(u as int, s as nat);
            KeyVal::D(nu as i128, ns as u8)
        },
    }
}

/// The key of a list of field values.
pub fn key_vals(vals: &[Value]) -> (r: Vec<KeyVal>)
    ensures
        r@ == vals@.map_values(|v: Value| key_of(v)),
{
    let mut out: Vec<KeyVal> = Vec::new();
    let mut i: usize = 0;
    while i < vals.len()
        invariant
            i <= vals@.len(),
            out@ == vals@.subrange(0, i as int).map_values(|v: Value| key_of(v)),
        decreases vals@.len() - i,
    {
        let k = match &vals[i] {
            Value::I64(n) => KeyVal::I(*n),
            Value::Str(s) => KeyVal::S(s.clone()),
            Value::Bool(b) => KeyVal::B(*b),
            Value::Null => KeyVal::Null,
            Value::Dec { u, s } => {
                let (nu, ns) = dec_normalize(*u, *s);
                KeyVal::D(nu, ns)
            },
        };
        proof {
            assert(k == key_of(vals@[i as int]));
        }
        out.push(k);
        i = i + 1;
        proof {
            assert(out@ =~= vals@.subrange(0, i as int).map_values(|v: Value| key_of(v)));
        }
    }
    proof {
        assert(vals@.subrange(0, vals@.len() as int) =~= vals@);
    }
    out
}

/// The canonical form keeps the value, never raises the scale, and is
/// normalized.
pub proof fn lemma_dec_norm(u: int, s: nat)
    ensures
        dec_norm(u, s).1 <= s,
        dec_norm(u, s).0 * pow10((s - dec_norm(u, s).1) as nat) == u,
        is_normalized(dec_norm(u, s).0, dec_norm(u, s).1),
        abs_int(dec_norm(u, s).0) <= abs_int(u),
    decreases s,
{
    if s > 0 && u % 10 == 0 {
        lemma_dec_norm(u / 10, (s - 1) as nat);
        let (n, t) = dec_norm(u / 10, (s - 1) as nat);
        assert(pow10((s - t) as nat) == 10 * pow10((s - 1 - t) as nat));
        assert(u == (u / 10) * 10) by (nonlinear_arith)
            requires u % 10 == 0;
        assert(n * (10 * pow10((s - 1 - t) as nat)) == (n * pow10((s - 1 - t) as nat)) * 10) by (nonlinear_arith);
        assert(abs_int(u / 10) <= abs_int(u)) by (nonlinear_arith)
            requires u % 10 == 0;
    } else {
        assert(pow10(0) == 1);
    }
}

/// Two normalized decimals with the same value at a common scale are the
/// same pair.
proof fn lemma_normal_form_unique(n1: int, t1: nat, n2: int, t2: nat, big: nat)
    requires
        is_normalized(n1, t1),
        is_normalized(n2, t2),
        t1 <= big,
        t2 <= big,
        t2 <= t1,
        n1 * pow10((big - t1) as nat) == n2 * pow10((big - t2) as nat),
    ensures
        n1 == n2 && t1 == t2,
{
    let p = pow10((big - t1) as nat);
    lemma_pow10_pos((big - t1) as nat);
    lemma_pow10_add((t1 - t2) as nat, (big - t1) as nat);
    assert(pow10((big - t2) as nat) == pow10((t1 - t2) as nat) * p);
    let q = pow10((t1 - t2) as nat);
    assert(n1 * p == (n2 * q) * p) by (nonlinear_arith)
        requires n1 * p == n2 * (q * p);
    assert(n1 == n2 * q) by (nonlinear_arith)
        requires n1 * p == (n2 * q) * p, p >= 1;
    if t1 > t2 {
        assert(q == 10 * pow10((t1 - t2 - 1) as nat));
        let r = pow10((t1 - t2 - 1) as nat);
        assert(n1 == (n2 * r) * 10) by (nonlinear_arith)
            requires n1 == n2 * (10 * r);
        vstd::arithmetic::div_mod::lemma_mod_multiples_basic(n2 * r, 10);
    } else {
        assert(q == 1);
    }
}

/// Decimal keys are value keys: two decimals have the same key exactly
/// when they are numerically equal, whatever their scales.
pub proof fn law_dec_key_is_value(u1: i128, s1: u8, u2: i128, s2: u8)
    ensures
        (key_of(Value::Dec { u: u1, s: s1 }) == key_of(Value::Dec { u: u2, s: s2 })) == (dec_sign(u1, s1, u2, s2) == 0),
{
    lemma_dec_norm(u1 as int, s1 as nat);
    lemma_dec_norm(u2 as int, s2 as nat);
    let (n1, t1) = dec_norm(u1 as int, s1 as nat);
    let (n2, t2) = dec_norm(u2 as int, s2 as nat);
    let big: nat = if s1 >= s2 { s1 as nat } else { s2 as nat };
    lemma_pow10_add((s1 - t1) as nat, (big - s1) as nat);
    lemma_pow10_add((s2 - t2) as nat, (big - s2) as nat);
    let a1 = pow10((s1 - t1) as nat);
    let b1 = pow10((big - s1) as nat);
    let a2 = pow10((s2 - t2) as nat);
    let b2 = pow10((big - s2) as nat);
    assert((u1 as int) * b1 == n1 * pow10((big - t1) as nat)) by (nonlinear_arith)
        requires u1 == n1 * a1, pow10((big - t1) as nat) == a1 * b1;
    assert((u2 as int) * b2 == n2 * pow10((big - t2) as nat)) by (nonlinear_arith)
        requires u2 == n2 * a2, pow10((big - t2) as nat) == a2 * b2;
    if dec_sign(u1, s1, u2, s2) == 0 {
        if t2 <= t1 {
            lemma_normal_form_unique(n1, t1, n2, t2, big);
        } else {
            lemma_normal_form_unique(n2, t2, n1, t1, big);
        }
    }
    if n1 == n2 && t1 == t2 {
        assert(dec_sign(u1, s1, u2, s2) == 0);
    }
    if key_of(Value::Dec { u: u1, s: s1 }) == key_of(Value::Dec { u: u2, s: s2 }) {
        assert((n1 as i128) == (n2 as i128));
        assert((t1 as u8) == (t2 as u8));
    }
}

} // verus!
