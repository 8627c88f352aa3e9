use seine_engine::compare::{
    assignable, check_cmp_types, coerce, eval_cmp, eval_cmp_join, eval_cmp_join_pub, eval_cmp_pub, ft_name,
    lit_for_dec, lit_type, lit_value,
};
use seine_engine::value::{CmpOp, EngineError, FieldType, Literal, Value};

fn s(x: &str) -> Value {
    Value::Str(x.to_string())
}

fn dec(u: i128, sc: u8) -> Value {
    Value::Dec { u, s: sc }
}

#[test]
fn integer_comparisons() {
    assert!(eval_cmp(&Value::I64(3), CmpOp::Lt, &Value::I64(5)));
    assert!(eval_cmp(&Value::I64(5), CmpOp::Ge, &Value::I64(5)));
    assert!(!eval_cmp(&Value::I64(5), CmpOp::Gt, &Value::I64(5)));
    assert!(eval_cmp(&Value::I64(-1), CmpOp::Ne, &Value::I64(1)));
    assert!(eval_cmp(&Value::I64(i64::MIN), CmpOp::Lt, &Value::I64(i64::MAX)));
}

#[test]
fn decimal_comparisons_are_numeric_across_scales() {
    // 1.10 == 1.1
    assert!(eval_cmp(&dec(110, 2), CmpOp::Eq, &dec(11, 1)));
    // 2.5 > 2
    assert!(eval_cmp(&dec(25, 1), CmpOp::Gt, &Value::I64(2)));
    // 2 < 2.01
    assert!(eval_cmp(&Value::I64(2), CmpOp::Lt, &dec(201, 2)));
    // 3 == 3.000
    assert!(eval_cmp(&Value::I64(3), CmpOp::Eq, &dec(3000, 3)));
    // -0.5 < 0
    assert!(eval_cmp(&dec(-5, 1), CmpOp::Lt, &Value::I64(0)));
}

#[test]
fn decimal_comparison_with_scale_overflow() {
    // the larger-scale side cannot be matched by scaling the other up:
    // i128::MAX at scale 0 against 1 at scale 38
    assert!(eval_cmp(&dec(i128::MAX, 0), CmpOp::Gt, &dec(1, 38)));
    assert!(eval_cmp(&dec(i128::MIN, 0), CmpOp::Lt, &dec(1, 38)));
}

#[test]
fn string_and_bool_comparisons() {
    assert!(eval_cmp(&s("apple"), CmpOp::Lt, &s("banana")));
    assert!(eval_cmp(&s("ab"), CmpOp::Lt, &s("abc")));
    assert!(eval_cmp(&s("Z"), CmpOp::Lt, &s("a")));
    assert!(eval_cmp(&s("x"), CmpOp::Eq, &s("x")));
    assert!(eval_cmp(&Value::Bool(false), CmpOp::Lt, &Value::Bool(true)));
    assert!(eval_cmp(&Value::Bool(true), CmpOp::Eq, &Value::Bool(true)));
}

#[test]
fn incomparable_pairs_are_false_under_every_operator() {
    let ops = [CmpOp::Eq, CmpOp::Ne, CmpOp::Lt, CmpOp::Le, CmpOp::Gt, CmpOp::Ge];
    for op in ops {
        assert!(!eval_cmp(&Value::Null, op, &Value::Null));
        assert!(!eval_cmp(&Value::I64(1), op, &s("1")));
        assert!(!eval_cmp(&Value::Bool(true), op, &Value::I64(1)));
        assert!(!eval_cmp(&dec(1, 0), op, &s("1")));
    }
}

#[test]
fn comparison_mirrors_when_operands_swap() {
    let pairs = [(Value::I64(1), Value::I64(2)), (dec(15, 1), Value::I64(1)), (s("a"), s("b"))];
    for (a, b) in pairs.iter() {
        assert_eq!(eval_cmp(a, CmpOp::Lt, b), eval_cmp(b, CmpOp::Gt, a));
        assert_eq!(eval_cmp(a, CmpOp::Le, b), eval_cmp(b, CmpOp::Ge, a));
        assert_eq!(eval_cmp(a, CmpOp::Eq, b), eval_cmp(b, CmpOp::Eq, a));
        assert_eq!(eval_cmp(a, CmpOp::Ne, b), !eval_cmp(a, CmpOp::Eq, b));
    }
    assert!(eval_cmp(&s("q"), CmpOp::Eq, &s("q")));
    assert!(eval_cmp(&dec(7, 3), CmpOp::Eq, &dec(7, 3)));
}

#[test]
fn join_and_exported_variants_agree() {
    assert!(eval_cmp_join(&Value::I64(4), CmpOp::Eq, &dec(40, 1)));
    assert!(eval_cmp_pub(&s("a"), CmpOp::Le, &s("a")));
    assert!(eval_cmp_join_pub(&Value::I64(4), CmpOp::Gt, &Value::I64(3)));
    assert!(!eval_cmp_join_pub(&Value::Null, CmpOp::Ne, &Value::I64(3)));
}

#[test]
fn check_cmp_types_accepts_compatible_pairs() {
    assert_eq!(check_cmp_types("r", FieldType::I64, CmpOp::Lt, FieldType::Double), Ok(()));
    assert_eq!(check_cmp_types("r", FieldType::Dec { p: 10, s: 2 }, CmpOp::Eq, FieldType::I64), Ok(()));
    assert_eq!(check_cmp_types("r", FieldType::I64, CmpOp::Ge, FieldType::Dec { p: 5, s: 0 }), Ok(()));
    assert_eq!(check_cmp_types("r", FieldType::Str, CmpOp::Gt, FieldType::Str), Ok(()));
    assert_eq!(check_cmp_types("r", FieldType::Bool, CmpOp::Ne, FieldType::Bool), Ok(()));
}

#[test]
fn check_cmp_types_walls_decimal_against_double() {
    let e = check_cmp_types("price", FieldType::Dec { p: 10, s: 2 }, CmpOp::Lt, FieldType::Double).unwrap_err();
    assert_eq!(
        e,
        EngineError(
            "rule price: decimal-vs-double comparison is WALLED (money never meets floats, D-097 ruling 4)"
                .to_string()
        )
    );
    let e2 = check_cmp_types("p2", FieldType::Double, CmpOp::Eq, FieldType::Dec { p: 3, s: 1 }).unwrap_err();
    assert!(e2.0.starts_with("rule p2: decimal-vs-double"));
}

#[test]
fn check_cmp_types_reports_mismatch() {
    let e = check_cmp_types("r1", FieldType::Bool, CmpOp::Lt, FieldType::Bool).unwrap_err();
    assert_eq!(e.0, "rule r1: constraint type mismatch (Bool Lt Bool)");
    let e = check_cmp_types("r2", FieldType::Str, CmpOp::Eq, FieldType::I64).unwrap_err();
    assert_eq!(e.0, "rule r2: constraint type mismatch (Str Eq I64)");
    let e = check_cmp_types("r3", FieldType::Dec { p: 12, s: 4 }, CmpOp::Ne, FieldType::Str).unwrap_err();
    assert_eq!(e.0, "rule r3: constraint type mismatch (Dec { p: 12, s: 4 } Ne Str)");
}

#[test]
fn assignability() {
    assert!(assignable(FieldType::I64, FieldType::Double));
    assert!(!assignable(FieldType::Double, FieldType::I64));
    assert!(assignable(FieldType::I64, FieldType::Dec { p: 5, s: 2 }));
    assert!(assignable(FieldType::Dec { p: 5, s: 2 }, FieldType::Dec { p: 9, s: 0 }));
    assert!(!assignable(FieldType::Dec { p: 5, s: 2 }, FieldType::I64));
    assert!(assignable(FieldType::Str, FieldType::Str));
    assert!(!assignable(FieldType::Bool, FieldType::Str));
}

#[test]
fn coerce_into_decimal_fields() {
    let t = FieldType::Dec { p: 5, s: 2 };
    assert_eq!(coerce(s("12.345"), t), Some(dec(1235, 2))); // half away from zero
    assert_eq!(coerce(s("-12.345"), t), Some(dec(-1235, 2)));
    assert_eq!(coerce(s("1.5"), t), Some(dec(150, 2)));
    assert_eq!(coerce(Value::I64(7), t), Some(dec(700, 2)));
    assert_eq!(coerce(dec(12344, 3), t), Some(dec(1234, 2)));
    // precision 5 holds at most 999.99
    assert_eq!(coerce(Value::I64(1000), t), None);
    assert_eq!(coerce(s("999.99"), t), Some(dec(99999, 2)));
    // not decimal text
    assert_eq!(coerce(s("abc"), t), None);
    assert_eq!(coerce(s("1."), t), None);
    assert_eq!(coerce(Value::Bool(true), t), None);
}

#[test]
fn coerce_exact_types_and_null() {
    assert_eq!(coerce(Value::Null, FieldType::Str), Some(Value::Null));
    assert_eq!(coerce(Value::I64(3), FieldType::I64), Some(Value::I64(3)));
    assert_eq!(coerce(s("x"), FieldType::Str), Some(s("x")));
    assert_eq!(coerce(Value::Bool(false), FieldType::Bool), Some(Value::Bool(false)));
    assert_eq!(coerce(s("3"), FieldType::I64), None);
    assert_eq!(coerce(Value::I64(1), FieldType::Bool), None);
}

#[test]
fn literals() {
    assert_eq!(lit_value(&Literal::I64(4)), Value::I64(4));
    assert_eq!(lit_value(&Literal::Str("k".to_string())), s("k"));
    assert_eq!(lit_value(&Literal::Bool(true)), Value::Bool(true));
    assert_eq!(lit_value(&Literal::Null), Value::Null);
    assert_eq!(lit_type(&Literal::I64(4)), FieldType::I64);
    assert_eq!(lit_type(&Literal::Str("k".to_string())), FieldType::Str);
    assert_eq!(lit_type(&Literal::Bool(false)), FieldType::Bool);
    assert_eq!(lit_type(&Literal::Null), FieldType::I64);
    assert_eq!(lit_for_dec(&Value::I64(-3)), Some(dec(-3, 0)));
    assert_eq!(lit_for_dec(&dec(25, 1)), Some(dec(25, 1)));
    assert_eq!(lit_for_dec(&s("2.5")), None);
}

#[test]
fn field_type_names() {
    assert_eq!(ft_name(FieldType::I64), "i64");
    assert_eq!(ft_name(FieldType::Double), "f64");
    assert_eq!(ft_name(FieldType::Str), "String");
    assert_eq!(ft_name(FieldType::Bool), "bool");
    assert_eq!(ft_name(FieldType::Dec { p: 1, s: 0 }), "decimal");
}

#[test]
fn coercing_again_changes_nothing() {
    let t = FieldType::Dec { p: 6, s: 2 };
    let once = coerce(s("3.14159"), t).unwrap();
    assert_eq!(once, dec(314, 2));
    assert_eq!(coerce(once.clone(), t), Some(once));
    let n = coerce(Value::I64(12), FieldType::I64).unwrap();
    assert_eq!(coerce(n.clone(), FieldType::I64), Some(n));
}

#[test]
fn coerce_into_double_fields_without_doubles() {
    assert_eq!(coerce(Value::Null, FieldType::Double), Some(Value::Null));
    assert_eq!(coerce(s("1.5"), FieldType::Double), None);
    assert_eq!(coerce(Value::Bool(true), FieldType::Double), None);
    assert_eq!(coerce(dec(15, 1), FieldType::Double), None);
}

#[test]
fn mismatch_renders_double_as_f64() {
    let e = check_cmp_types("r", FieldType::Double, CmpOp::Eq, FieldType::Str).unwrap_err();
    assert_eq!(e.0, "rule r: constraint type mismatch (F64 Eq Str)");
}
