//! Constraint comparison, type checking of comparisons, assignability and
//! value coercion into declared field types.

use vstd::prelude::*;
use crate::decimal::{dec_fits, dec_parse, dec_rescale, fits_precision, parse_decimal, rescaled, fits_i128, pow10};
use crate::order::{value_order, value_order_sign, lemma_value_order_antisym, lemma_value_order_refl};
use crate::render::{push_str, push_nat, nat_digits};
use crate::value::{CmpOp, EngineError, FieldType, Literal, Value};

verus! {

/// Whether an order sign satisfies the operator.
pub open spec fn op_holds(o: int, op: CmpOp) -> bool {
    match op {
        CmpOp::Eq => o == 0,
        CmpOp::Ne => o != 0,
        CmpOp::Lt => o < 0,
        CmpOp::Le => o <= 0,
        CmpOp::Gt => o > 0,
        CmpOp::Ge => o >= 0,
    }
}

/// `lhs op rhs`: false whenever the two values are incomparable.
pub open spec fn cmp_holds(lhs: Value, op: CmpOp, rhs: Value) -> bool {
    match value_order(lhs, rhs) {
        Some(o) => op_holds(o, op),
        None => false,
    }
}

/// Literal comparison: same-kind values by their natural order, decimals
/// against integers numerically; incomparable pairs are false under every
/// operator (`!=` included).
pub fn eval_cmp(lhs: &Value, op: CmpOp, rhs: &Value) -> (r: bool)
    ensures
        r == cmp_holds(*lhs, op, *rhs),
{
    match value_order_sign(lhs, rhs) {
        None => false,
        Some(o) => match op {
            CmpOp::Eq => o == 0,
            CmpOp::Ne => o != 0,
            CmpOp::Lt => o < 0,
            CmpOp::Le => o <= 0,
            CmpOp::Gt => o > 0,
            CmpOp::Ge => o >= 0,
        },
    }
}

/// Join-constraint comparison. Over integers, decimals, strings and
/// booleans it decides exactly as `eval_cmp`; the coercion of a double
/// binding against an integer field belongs to the double layer.
pub fn eval_cmp_join(lhs: &Value, op: CmpOp, rhs: &Value) -> (r: bool)
    ensures
        r == cmp_holds(*lhs, op, *rhs),
{
    eval_cmp(lhs, op, rhs)
}

/// `eval_cmp` for the range-index scans.
pub fn eval_cmp_pub(lhs: &Value, op: CmpOp, rhs: &Value) -> (r: bool)
    ensures
        r == cmp_holds(*lhs, op, *rhs),
{
    eval_cmp(lhs, op, rhs)
}

/// `eval_cmp_join` for the query evaluator.
pub fn eval_cmp_join_pub(lhs: &Value, op: CmpOp, rhs: &Value) -> (r: bool)
    ensures
        r == cmp_holds(*lhs, op, *rhs),
{
    eval_cmp_join(lhs, op, rhs)
}

/// Debug rendering of a field type.
pub open spec fn ft_debug(ft: FieldType) -> Seq<char> {
    match ft {
        FieldType::I64 => "I64"@,
        FieldType::Double => "F64"@,
        FieldType::Str => "Str"@,
        FieldType::Bool => "Bool"@,
        FieldType::Dec { p, s } => "Dec { p: "@ + nat_digits(p as nat) + ", s: "@ + nat_digits(s as nat) + " }"@,
    }
}

/// Debug rendering of an operator.
pub open spec fn op_debug(op: CmpOp) -> Seq<char> {
    match op {
        CmpOp::Eq => "Eq"@,
        CmpOp::Ne => "Ne"@,
        CmpOp::Lt => "Lt"@,
        CmpOp::Le => "Le"@,
        CmpOp::Gt => "Gt"@,
        CmpOp::Ge => "Ge"@,
    }
}

/// Append the debug rendering of a field type.
pub fn push_ft_debug(s: &mut String, ft: FieldType)
    ensures
        final(s)@ == old(s)@ + ft_debug(ft),
{
    match ft {
        FieldType::I64 => push_str(s, "I64"),
        FieldType::Double => push_str(s, "F64"),
        FieldType::Str => push_str(s, "Str"),
        FieldType::Bool => push_str(s, "Bool"),
        FieldType::Dec { p, s: sc } => {
            push_str(s, "Dec { p: ");
            push_nat(s, p as u128);
            push_str(s, ", s: ");
            push_nat(s, sc as u128);
            push_str(s, " }");
            proof {
                assert(final(s)@ =~= old(s)@ + ft_debug(ft));
            }
        },
    }
}

/// Append the debug rendering of an operator.
pub fn push_op_debug(s: &mut String, op: CmpOp)
    ensures
        final(s)@ == old(s)@ + op_debug(op),
{
    match op {
        CmpOp::Eq => push_str(s, "Eq"),
        CmpOp::Ne => push_str(s, "Ne"),
        CmpOp::Lt => push_str(s, "Lt"),
        CmpOp::Le => push_str(s, "Le"),
        CmpOp::Gt => push_str(s, "Gt"),
        CmpOp::Ge => push_str(s, "Ge"),
    }
}

/// Numeric field types (integer or double).
pub open spec fn is_numeric(t: FieldType) -> bool {
    t is I64 || t is Double
}

/// The pairs of operand types a comparison accepts: numeric with numeric,
/// decimal with decimal or integer (either side), string with string, and
/// boolean with boolean under `==`/`!=` only. Decimal against double is
/// refused outright.
pub open spec fn cmp_types_ok(lhs: FieldType, op: CmpOp, rhs: FieldType) -> bool {
    !((lhs is Dec && rhs is Double) || (lhs is Double && rhs is Dec)) && (
    (is_numeric(lhs) && is_numeric(rhs))
        || (lhs is Dec && (rhs is Dec || rhs is I64))
        || (lhs is I64 && rhs is Dec)
        || (lhs is Str && rhs is Str)
        || (lhs is Bool && rhs is Bool && (op is Eq || op is Ne)))
}

/// The error text for a decimal-against-double comparison in rule `rule`.
pub open spec fn walled_msg(rule: Seq<char>) -> Seq<char> {
    "rule "@ + rule
        + ": decimal-vs-double comparison is WALLED (money never meets floats, D-097 ruling 4)"@
}

/// The error text for any other refused operand pair.
pub open spec fn mismatch_msg(rule: Seq<char>, lhs: FieldType, op: CmpOp, rhs: FieldType) -> Seq<char> {
    "rule "@ + rule + ": constraint type mismatch ("@ + ft_debug(lhs) + " "@ + op_debug(op) + " "@
        + ft_debug(rhs) + ")"@
}

/// Compile-time check that a comparison's operand types are compatible;
/// the error names the rule and the refused pair.
pub fn check_cmp_types(rule: &str, lhs: FieldType, op: CmpOp, rhs: FieldType) -> (r: Result<(), EngineError>)
    ensures
        r is Ok <==> cmp_types_ok(lhs, op, rhs),
        r matches Err(e) ==> e.0@ == (if (lhs is Dec && rhs is Double) || (lhs is Double && rhs is Dec) {
            walled_msg(rule@)
        } else {
            mismatch_msg(rule@, lhs, op, rhs)
        }),
{
    let lhs_dec = match lhs { FieldType::Dec { .. } => true, _ => false };
    let rhs_dec = match rhs { FieldType::Dec { .. } => true, _ => false };
    let lhs_num = match lhs { FieldType::I64 | FieldType::Double => true, _ => false };
    let rhs_num = match rhs { FieldType::I64 | FieldType::Double => true, _ => false };
    if (lhs_dec && rhs == FieldType::Double) || (lhs == FieldType::Double && rhs_dec) {
        let mut m = String::new();
        push_str(&mut m, "rule ");
        push_str(&mut m, rule);
        push_str(&mut m, ": decimal-vs-double comparison is WALLED (money never meets floats, D-097 ruling 4)");
        proof {
            assert(m@ =~= walled_msg(rule@));
        }
        return Err(EngineError(m));
    }
    let ok = (lhs_num && rhs_num) || (lhs_dec && (rhs_dec || rhs == FieldType::I64)) || (lhs
        == FieldType::I64 && rhs_dec) || (lhs == FieldType::Str && rhs == FieldType::Str) || (lhs
        == FieldType::Bool && rhs == FieldType::Bool && (op == CmpOp::Eq || op == CmpOp::Ne));
    if ok {
        Ok(())
    } else {
        let mut m = String::new();
        push_str(&mut m, "rule ");
        push_str(&mut m, rule);
        push_str(&mut m, ": constraint type mismatch (");
        push_ft_debug(&mut m, lhs);
        push_str(&mut m, " ");
        push_op_debug(&mut m, op);
        push_str(&mut m, " ");
        push_ft_debug(&mut m, rhs);
        push_str(&mut m, ")");
        proof {
            assert(m@ =~= mismatch_msg(rule@, lhs, op, rhs));
        }
        Err(EngineError(m))
    }
}


/// Assignability of a value of type `src` into a field of type `dst`:
/// the same type, integer into double (Java widening), integer into a
/// decimal, and decimal into any decimal (rescaled and precision-checked
/// when the value arrives).
pub open spec fn spec_assignable(src: FieldType, dst: FieldType) -> bool {
    (src is Dec && dst is Dec) || (src is I64 && dst is Dec) || src == dst || (src is I64 && dst is Double)
}

/// Whether `src`-typed values may be assigned to a `dst` field.
pub fn assignable(src: FieldType, dst: FieldType) -> (r: bool)
    ensures
        r == spec_assignable(src, dst),
{
    match (src, dst) {
        (FieldType::Dec { .. }, FieldType::Dec { .. }) => true,
        (FieldType::I64, FieldType::Dec { .. }) => true,
        _ => src == dst || (src == FieldType::I64 && dst == FieldType::Double),
    }
}

/// Conversion of a decimal (`u·10^-s0`) into `DECIMAL(p, s)`: rescaled to
/// `s` (exact widening, half-away-from-zero narrowing), then within
/// precision `p`; `None` on overflow or precision loss.
pub open spec fn dec_into(u: int, s0: nat, p: nat, s: nat) -> Option<Value> {
    let v = rescaled(u, s0, s);
    if fits_i128(v) && fits_precision(v, p) {
        Some(Value::Dec { u: v as i128, s: s as u8 })
    } else {
        None
    }
}

/// The value a field of type `target` receives for `v` (an integer into a
/// `Double` field excepted: that widening yields a double). Null passes
/// (nullability is checked by the store); decimal fields take exact
/// decimal text, integers and decimals, rescaled to the declared scale
/// within the declared precision; otherwise only a value of exactly the
/// target type passes, so no other value enters a `Double` field.
pub open spec fn coerced(v: Value, target: FieldType) -> Option<Value> {
    match (v, target) {
        (Value::Null, _) => Some(Value::Null),
        (Value::Str(txt), FieldType::Dec { p, s }) => match parse_decimal(txt@) {
            Some((u0, s0)) => if fits_i128(u0) && s0 <= 255 {
                dec_into(u0, s0, p as nat, s as nat)
            } else {
                None
            },
            None => None,
        },
        (Value::I64(n), FieldType::Dec { p, s }) => dec_into(n as int, 0, p as nat, s as nat),
        (Value::Dec { u, s: s0 }, FieldType::Dec { p, s }) => dec_into(u as int, s0 as nat, p as nat, s as nat),
        (Value::I64(n), FieldType::I64) => Some(Value::I64(n)),
        (Value::Str(t), FieldType::Str) => Some(Value::Str(t)),
        (Value::Bool(b), FieldType::Bool) => Some(Value::Bool(b)),
        _ => None,
    }
}

/// Decimal into `DECIMAL(p, s)`.
fn dec_into_exec(u0: i128, s0: u8, p: u8, s: u8) -> (r: Option<Value>)
    ensures
        r == dec_into(u0 as int, s0 as nat, p as nat, s as nat),
{
    match dec_rescale(u0, s0, s) {
        Some((u, t)) => {
            if dec_fits(u, p) {
                Some(Value::Dec { u, s: t })
            } else {
                None
            }
        },
        None => None,
    }
}

/// Coerce a value into a field of type `target` (see `coerced`). An
/// integer into a `Double` field widens into an IEEE double, which this
/// library does not hold; the caller's double layer converts it.
pub fn coerce(v: Value, target: FieldType) -> (r: Option<Value>)
    requires
        !(v is I64 && target == FieldType::Double),
    ensures
        r == coerced(v, target),
{
    match (v, target) {
        (Value::Null, _) => Some(Value::Null),
        (Value::Str(txt), FieldType::Dec { p, s }) => match dec_parse(txt.as_str()) {
            Some((u0, s0)) => dec_into_exec(u0, s0, p, s),
            None => None,
        },
        (Value::I64(n), FieldType::Dec { p, s }) => dec_into_exec(n as i128, 0, p, s),
        (Value::Dec { u, s: s0 }, FieldType::Dec { p, s }) => dec_into_exec(u, s0, p, s),
        (Value::I64(n), FieldType::I64) => Some(Value::I64(n)),
        (Value::Str(t), FieldType::Str) => Some(Value::Str(t)),
        (Value::Bool(b), FieldType::Bool) => Some(Value::Bool(b)),
        _ => None,
    }
}

/// The value of a written literal.
pub open spec fn spec_lit_value(l: Literal) -> Value {
    match l {
        Literal::I64(n) => Value::I64(n),
        Literal::Str(s) => Value::Str(s),
        Literal::Bool(b) => Value::Bool(b),
        Literal::Null => Value::Null,
    }
}

/// The value of a written literal.
pub fn lit_value(l: &Literal) -> (r: Value)
    ensures
        r == spec_lit_value(*l),
{
    match l {
        Literal::I64(n) => Value::I64(*n),
        Literal::Str(s) => Value::Str(s.clone()),
        Literal::Bool(b) => Value::Bool(*b),
        Literal::Null => Value::Null,
    }
}

/// The type of a written literal (null reads as an integer; callers
/// handle null before dispatching on type).
pub open spec fn spec_lit_type(l: Literal) -> FieldType {
    match l {
        Literal::I64(_) => FieldType::I64,
        Literal::Str(_) => FieldType::Str,
        Literal::Bool(_) => FieldType::Bool,
        Literal::Null => FieldType::I64,
    }
}

/// The type of a written literal.
pub fn lit_type(l: &Literal) -> (r: FieldType)
    ensures
        r == spec_lit_type(*l),
{
    match l {
        Literal::I64(_) => FieldType::I64,
        Literal::Str(_) => FieldType::Str,
        Literal::Bool(_) => FieldType::Bool,
        Literal::Null => FieldType::I64,
    }
}

/// User-facing name of a field type.
pub open spec fn spec_ft_name(ft: FieldType) -> Seq<char> {
    match ft {
        FieldType::I64 => "i64"@,
        FieldType::Double => "f64"@,
        FieldType::Str => "String"@,
        FieldType::Bool => "bool"@,
        FieldType::Dec { .. } => "decimal"@,
    }
}

/// User-facing name of a field type.
pub fn ft_name(ft: FieldType) -> (r: &'static str)
    ensures
        r@ == spec_ft_name(ft),
{
    match ft {
        FieldType::I64 => "i64",
        FieldType::Double => "f64",
        FieldType::Str => "String",
        FieldType::Bool => "bool",
        FieldType::Dec { .. } => "decimal",
    }
}

/// A literal compared against a decimal field, as a decimal: integers
/// scale exactly, decimals pass, everything else has no decimal form.
pub open spec fn spec_lit_for_dec(v: Value) -> Option<Value> {
    match v {
        Value::I64(n) => Some(Value::Dec { u: n as i128, s: 0 }),
        Value::Dec { u, s } => Some(Value::Dec { u, s }),
        _ => None,
    }
}

/// A literal compared against a decimal field, as a decimal (written
/// doubles are recovered by the double layer).
pub fn lit_for_dec(v: &Value) -> (r: Option<Value>)
    ensures
        r == spec_lit_for_dec(*v),
{
    match v {
        Value::I64(n) => Some(Value::Dec { u: *n as i128, s: 0 }),
        Value::Dec { u, s } => Some(Value::Dec { u: *u, s: *s }),
        _ => None,
    }
}

/// The operator that reads the same comparison from the other side.
pub open spec fn mirror(op: CmpOp) -> CmpOp {
    match op {
        CmpOp::Eq => CmpOp::Eq,
        CmpOp::Ne => CmpOp::Ne,
        CmpOp::Lt => CmpOp::Gt,
        CmpOp::Le => CmpOp::Ge,
        CmpOp::Gt => CmpOp::Lt,
        CmpOp::Ge => CmpOp::Le,
    }
}

/// Swapping the operands mirrors the operator: `a op b` holds exactly when
/// `b op' a` does, with `<` read as `>` and `<=` as `>=` (an incomparable
/// pair is false both ways).
pub proof fn law_comparison_mirror(a: Value, op: CmpOp, b: Value)
    ensures
        cmp_holds(a, op, b) == cmp_holds(b, mirror(op), a),
{
    lemma_value_order_antisym(a, b);
}

/// On comparable values `!=` is the negation of `==`; on incomparable
/// ones (a null, or values of unrelated kinds) both are false.
pub proof fn law_ne_is_not_eq(a: Value, b: Value)
    ensures
        value_order(a, b) is Some ==> cmp_holds(a, CmpOp::Ne, b) == !cmp_holds(a, CmpOp::Eq, b),
        value_order(a, b) is None ==> !cmp_holds(a, CmpOp::Ne, b) && !cmp_holds(a, CmpOp::Eq, b),
{
}

/// Every value except null equals itself; null compares under no
/// operator, not even with itself.
pub proof fn law_eq_reflexive(a: Value)
    ensures
        cmp_holds(a, CmpOp::Eq, a) == !(a is Null),
        a is Null ==> !cmp_holds(a, CmpOp::Ne, a),
{
    lemma_value_order_refl(a);
}

/// Coercion is idempotent: a value a field received is received unchanged
/// when it is coerced into the field's type again.
pub proof fn law_coerce_idempotent(v: Value, target: FieldType)
    requires
        coerced(v, target) is Some,
    ensures
        coerced(coerced(v, target).unwrap(), target) == coerced(v, target),
{
    assert(pow10(0) == 1);
}

/// `v` is a (non-null) value a field of type `t` holds: an integer, a
/// string, a boolean, or a decimal of any precision and scale.
pub open spec fn of_type(v: Value, t: FieldType) -> bool {
    match (v, t) {
        (Value::I64(_), FieldType::I64) => true,
        (Value::Str(_), FieldType::Str) => true,
        (Value::Bool(_), FieldType::Bool) => true,
        (Value::Dec { .. }, FieldType::Dec { .. }) => true,
        _ => false,
    }
}

/// The type check accepts exactly the comparisons the values can make:
/// for any values `a` of type `lt` and `b` of type `rt` (neither a
/// double type), `lt op rt` passes exactly when `a` and `b` are ordered
/// against each other, booleans only under `==` and `!=`. So decimals
/// compare with decimals of any precision and scale and with integers,
/// under every operator.
pub proof fn law_type_check_matches_values(lt: FieldType, op: CmpOp, rt: FieldType, a: Value, b: Value)
    requires
        of_type(a, lt),
        of_type(b, rt),
    ensures
        cmp_types_ok(lt, op, rt) == (value_order(a, b) is Some && (lt is Bool ==> (op is Eq || op is Ne))),
{
}

/// Decimal operands compare exactly with decimals of every precision and
/// scale and with integers (either side), under every operator.
pub proof fn law_decimal_comparisons_accepted(p1: u8, s1: u8, p2: u8, s2: u8, op: CmpOp)
    ensures
        cmp_types_ok(FieldType::Dec { p: p1, s: s1 }, op, FieldType::Dec { p: p2, s: s2 }),
        cmp_types_ok(FieldType::Dec { p: p1, s: s1 }, op, FieldType::I64),
        cmp_types_ok(FieldType::I64, op, FieldType::Dec { p: p2, s: s2 }),
{
}

/// A double operand compares with integers and doubles, under every
/// operator, and with nothing else; a decimal never meets a double.
pub proof fn law_double_operands(op: CmpOp, t: FieldType)
    ensures
        cmp_types_ok(FieldType::Double, op, t) == (t is I64 || t is Double),
        cmp_types_ok(t, op, FieldType::Double) == (t is I64 || t is Double),
{
}

} // verus!
