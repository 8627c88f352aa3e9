use seine_engine::arith::{int_salience, java_arith, java_neg};

#[test]
fn java_long_arithmetic() {
    assert_eq!(java_arith("r", '+', i64::MAX, 1), Ok(i64::MIN));
    assert_eq!(java_arith("r", '-', i64::MIN, 1), Ok(i64::MAX));
    assert_eq!(java_arith("r", '*', i64::MAX, 2), Ok(-2));
    assert_eq!(java_arith("r", '/', 7, 2), Ok(3));
    assert_eq!(java_arith("r", '/', -7, 2), Ok(-3));
    assert_eq!(java_arith("r", '/', 7, -2), Ok(-3));
    assert_eq!(java_arith("r", '/', i64::MIN, -1), Ok(i64::MIN));
    assert_eq!(java_arith("r", '/', i64::MIN, 1), Ok(i64::MIN));
    assert_eq!(java_arith("r", '%', -7, 2), Ok(-1));
    assert_eq!(java_arith("r", '%', 7, -2), Ok(1));
    assert_eq!(java_arith("r", '%', i64::MIN, -1), Ok(0));
    assert_eq!(java_neg(i64::MIN), i64::MIN);
    assert_eq!(java_neg(5), -5);
}

#[test]
fn division_by_zero_names_the_rule() {
    let e = java_arith("calc", '/', 1, 0).unwrap_err();
    assert_eq!(e.0, "rule \"calc\": java.lang.ArithmeticException: / by zero");
    assert!(java_arith("calc", '%', 1, 0).is_err());
    assert_eq!(java_arith("calc", '+', 1, 0), Ok(1));
}

#[test]
fn integer_salience_keeps_low_bits() {
    assert_eq!(int_salience(7, None), 7);
    assert_eq!(int_salience(10, Some(('-', 3))), 7);
    assert_eq!(int_salience(1 << 32, None), 0);
    assert_eq!(int_salience((1 << 32) + 5, Some(('+', 1))), 6);
    assert_eq!(int_salience(i32::MAX as i64, Some(('+', 1))), i32::MIN);
    assert_eq!(int_salience(3, Some(('*', 4))), 12);
}
