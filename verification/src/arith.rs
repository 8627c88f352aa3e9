//! Integer arithmetic of right-hand-side expressions and dynamic
//! salience, with Java `long` semantics: `+ - *` wrap, `/` truncates
//! toward zero (`MIN / -1` wraps to `MIN`), `%` keeps the dividend's sign
//! (`MIN % -1` is 0), and division by zero is an error. A salience
//! computed in integers keeps the low 32 bits. Double operands belong to
//! the double layer.

use vstd::prelude::*;
use crate::allen::wsub;
use crate::canon::{debug_str, str_debug};
use crate::decimal::abs_int;
use crate::expiry::wadd;
use crate::render::push_str;
use crate::value::EngineError;

verus! {

/// `v` wrapped into 64 bits from `[MIN, 2^63]`.
pub open spec fn wrap_top(v: int) -> i64 {
    if v > i64::MAX {
        (v - 0x1_0000_0000_0000_0000) as i64
    } else {
        v as i64
    }
}

/// Truncating quotient (`y != 0`), wrapped.
pub open spec fn java_quot(x: i64, y: i64) -> i64 {
    let q = abs_int(x as int) / abs_int(y as int);
    wrap_top(if (x < 0) != (y < 0) { -q } else { q })
}

/// Remainder with the dividend's sign (`y != 0`).
pub open spec fn java_rem(x: i64, y: i64) -> i64 {
    let r = abs_int(x as int) % abs_int(y as int);
    (if x < 0 { -r } else { r }) as i64
}

/// The operators of RHS arithmetic.
pub open spec fn java_op_ok(op: char) -> bool {
    op == '+' || op == '-' || op == '*' || op == '/' || op == '%'
}

/// The value of `x op y` (`y != 0` for `/` and `%`).
pub open spec fn java_result(op: char, x: i64, y: i64) -> i64 {
    if op == '+' {
        wadd(x, y)
    } else if op == '-' {
        wsub(x, y)
    } else if op == '*' {
        vstd::wrapping::i64_specs::wrapping_mul(x, y)
    } else if op == '/' {
        java_quot(x, y)
    } else {
        java_rem(x, y)
    }
}

/// The error text of a division by zero in rule `rname`.
pub open spec fn div_zero_msg(rname: Seq<char>) -> Seq<char> {
    "rule "@ + str_debug(rname) + ": java.lang.ArithmeticException: / by zero"@
}

/// Magnitude of an `i64` as a `u64`.
fn abs_u64(x: i64) -> (m: u64)
    ensures
        m == abs_int(x as int),
{
    if x >= 0 {
        x as u64
    } else {
        ((-(x + 1)) as u64) + 1
    }
}

/// Truncating division (see `java_quot`).
fn quot(x: i64, y: i64) -> (r: i64)
    requires
        y != 0,
    ensures
        r == java_quot(x, y),
{
    let ux = abs_u64(x);
    let uy = abs_u64(y);
    let q = ux / uy;
    proof {
        assert(q <= ux) by (nonlinear_arith)
            requires
                q == ux / uy,
                uy >= 1,
        ;
    }
    if (x < 0) != (y < 0) {
        if q == 0x8000_0000_0000_0000u64 {
            i64::MIN
        } else {
            -(q as i64)
        }
    } else {
        if q == 0x8000_0000_0000_0000u64 {
            i64::MIN
        } else {
            q as i64
        }
    }
}

/// Remainder with the dividend's sign (see `java_rem`).
fn rem(x: i64, y: i64) -> (r: i64)
    requires
        y != 0,
    ensures
        r == java_rem(x, y),
{
    let ux = abs_u64(x);
    let uy = abs_u64(y);
    let m = ux % uy;
    proof {
        assert(m < uy) by (nonlinear_arith)
            requires
                m == ux % uy,
                uy >= 1,
        ;
    }
    if x < 0 {
        -(m as i64)
    } else {
        m as i64
    }
}

/// `x op y` on integers with Java `long` semantics; a division or
/// remainder by zero is an error naming the rule.
pub fn java_arith(rname: &str, op: char, x: i64, y: i64) -> (r: Result<i64, EngineError>)
    requires
        java_op_ok(op),
    ensures
        r is Err <==> ((op == '/' || op == '%') && y == 0),
        r matches Ok(v) ==> v == java_result(op, x, y),
        r matches Err(e) ==> e.0@ == div_zero_msg(rname@),
{
    if (op == '/' || op == '%') && y == 0 {
        let mut m = String::new();
        push_str(&mut m, "rule ");
        let d = debug_str(rname);
        push_str(&mut m, d.as_str());
        push_str(&mut m, ": java.lang.ArithmeticException: / by zero");
        proof {
            assert(m@ =~= div_zero_msg(rname@));
        }
        return Err(EngineError(m));
    }
    if op == '+' {
        Ok(x.wrapping_add(y))
    } else if op == '-' {
        Ok(x.wrapping_sub(y))
    } else if op == '*' {
        Ok(x.wrapping_mul(y))
    } else if op == '/' {
        Ok(quot(x, y))
    } else {
        Ok(rem(x, y))
    }
}

/// Negation with Java `long` semantics (`-MIN` is `MIN`).
pub fn java_neg(x: i64) -> (r: i64)
    ensures
        r == (if x == i64::MIN { i64::MIN as int } else { -x }),
{
    if x == i64::MIN {
        i64::MIN
    } else {
        -x
    }
}

/// A dynamic salience computed in integers: `a`, or `a op b` with `+`,
/// `-`, and any other operator read as `*`, wrapped, then its low 32 bits.
pub open spec fn spec_int_salience(a: i64, op: Option<(char, i64)>) -> i32 {
    let v = match op {
        None => a,
        Some((c, b)) => if c == '+' {
            wadd(a, b)
        } else if c == '-' {
            wsub(a, b)
        } else {
            vstd::wrapping::i64_specs::wrapping_mul(a, b)
        },
    };
    v as i32
}

/// The integer dynamic salience (see `spec_int_salience`).
pub fn int_salience(a: i64, op: Option<(char, i64)>) -> (r: i32)
    ensures
        r == spec_int_salience(a, op),
{
    let v = match op {
        None => a,
        Some((c, b)) => {
            if c == '+' {
                a.wrapping_add(b)
            } else if c == '-' {
                a.wrapping_sub(b)
            } else {
                a.wrapping_mul(b)
            }
        },
    };
    v as i32
}

/// Division truncates toward zero and the remainder keeps the dividend's
/// sign: for `y != 0` (and outside the one overflowing `MIN / -1`),
/// `x == (x / y)·y + x % y`, `|x % y| < |y|`, a nonzero remainder has the
/// sign of `x`, and `|(x / y)·y| <= |x|`. `MIN / -1` wraps to `MIN`, and
/// `x % -1`, `x % 1` are 0.
pub proof fn law_quot_rem(x: i64, y: i64)
    requires
        y != 0,
    ensures
        !(x == i64::MIN && y == -1) ==> ({
            let q = java_result('/', x, y) as int;
            let r = java_result('%', x, y) as int;
            &&& q * y + r == x
            &&& abs_int(r) < abs_int(y as int)
            &&& (r != 0 ==> ((r < 0) == (x < 0)))
            &&& abs_int(q * y) <= abs_int(x as int)
        }),
        java_result('/', i64::MIN, -1i64) == i64::MIN,
        java_result('%', x, -1i64) == 0,
        java_result('%', x, 1) == 0,
{
    let ax = abs_int(x as int);
    let ay = abs_int(y as int);
    let q0 = ax / ay;
    let r0 = ax % ay;
    assert(ax == q0 * ay + r0 && 0 <= r0 < ay && q0 >= 0) by (nonlinear_arith)
        requires
            ay >= 1,
            ax >= 0,
            q0 == ax / ay,
            r0 == ax % ay,
    ;
    assert(q0 * ay <= ax);
    assert(q0 <= ax) by (nonlinear_arith)
        requires
            ay >= 1,
            q0 >= 0,
            q0 * ay <= ax,
    ;
    if !(x == i64::MIN && y == -1) {
        if (x < 0) == (y < 0) && ax == 0x8000_0000_0000_0000 {
            assert(ay >= 2);
            assert(q0 * 2 <= ax) by (nonlinear_arith)
                requires
                    ay >= 2,
                    q0 >= 0,
                    q0 * ay <= ax,
            ;
        }
        let qi: int = if (x < 0) != (y < 0) { -q0 } else { q0 };
        assert(java_quot(x, y) as int == qi);
        let ri: int = if x < 0 { -r0 } else { r0 };
        assert(java_rem(x, y) as int == ri);
        assert(qi * y + ri == x) by (nonlinear_arith)
            requires
                ax == q0 * ay + r0,
                ax == (if x < 0 { -(x as int) } else { x as int }),
                ay == (if y < 0 { -(y as int) } else { y as int }),
                qi == (if (x < 0) != (y < 0) { -q0 } else { q0 }),
                ri == (if x < 0 { -r0 } else { r0 }),
        ;
        assert(abs_int(qi * y) == q0 * ay) by (nonlinear_arith)
            requires
                q0 >= 0,
                ay >= 1,
                ay == (if y < 0 { -(y as int) } else { y as int }),
                qi == (if (x < 0) != (y < 0) { -q0 } else { q0 }),
                abs_int(qi * y) == (if qi * y < 0 { -(qi * y) } else { qi * y }),
        ;
    }
    assert(abs_int(-1int) == 1);
    assert(abs_int(1int) == 1);
    assert(ax % 1 == 0);
}

} // verus!
