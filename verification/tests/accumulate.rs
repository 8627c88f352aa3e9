use seine_engine::accumulate::{values_equal, AccCtx, AccFunc};
use seine_engine::value::{FieldType, Value};

fn dec(u: i128, s: u8) -> Value {
    Value::Dec { u, s }
}

#[test]
fn integer_sum_and_reverse() {
    let mut a = AccCtx::new();
    a.apply(AccFunc::Sum, 1, &Value::I64(5));
    a.apply(AccFunc::Sum, 2, &Value::I64(-2));
    a.apply(AccFunc::Sum, 3, &Value::Null); // skipped
    assert_eq!(a.result_value(AccFunc::Sum, FieldType::I64), Some(Value::I64(3)));
    assert!(a.try_reverse(AccFunc::Sum, 1, &Value::I64(5)));
    assert_eq!(a.result_value(AccFunc::Sum, FieldType::I64), Some(Value::I64(-2)));
}

#[test]
fn decimal_sum_aligns_scales() {
    let mut a = AccCtx::new();
    // an empty decimal sum is zero at the field's scale
    assert_eq!(a.result_value(AccFunc::Sum, FieldType::Dec { p: 10, s: 2 }), Some(dec(0, 2)));
    a.apply(AccFunc::Sum, 1, &dec(15, 1)); // 1.5
    a.apply(AccFunc::Sum, 2, &dec(225, 2)); // 2.25
    assert_eq!(a.sum_d, (375, 2));
    assert_eq!(a.result_value(AccFunc::Sum, FieldType::Dec { p: 10, s: 2 }), Some(dec(375, 2)));
    assert!(a.try_reverse(AccFunc::Sum, 1, &dec(15, 1)));
    assert_eq!(a.sum_d, (225, 2));
    assert!(a.try_reverse(AccFunc::Sum, 2, &dec(225, 2)));
    // back to zero, at the aligned scale
    assert_eq!(a.sum_d, (0, 2));
}

#[test]
fn count_counts_every_match() {
    let mut a = AccCtx::new();
    a.apply(AccFunc::Count, 1, &Value::I64(1));
    a.apply(AccFunc::Count, 2, &Value::Null);
    assert_eq!(a.result_value(AccFunc::Count, FieldType::I64), Some(Value::I64(2)));
    assert!(a.try_reverse(AccFunc::Count, 2, &Value::Null));
    assert_eq!(a.count, 1);
}

#[test]
fn average_counts_non_null_contributions() {
    let mut a = AccCtx::new();
    a.apply(AccFunc::Average, 1, &Value::I64(4));
    a.apply(AccFunc::Average, 2, &Value::Null);
    assert_eq!(a.count, 1);
    assert!(a.try_reverse(AccFunc::Average, 1, &Value::I64(4)));
    assert_eq!(a.count, 0);
}

#[test]
fn min_and_max_keep_the_extreme_and_cannot_reverse() {
    let mut mn = AccCtx::new();
    let mut mx = AccCtx::new();
    for (f, n) in [(1u32, 5i64), (2, 2), (3, 9), (4, 2)] {
        mn.apply(AccFunc::Min, f, &Value::I64(n));
        mx.apply(AccFunc::Max, f, &Value::I64(n));
    }
    assert_eq!(mn.result_value(AccFunc::Min, FieldType::I64), Some(Value::I64(2)));
    assert_eq!(mx.result_value(AccFunc::Max, FieldType::I64), Some(Value::I64(9)));
    assert!(!mn.try_reverse(AccFunc::Min, 2, &Value::I64(2)));
    assert_eq!(mn.minmax, Some(Value::I64(2)));
    // decimals by value
    let mut d = AccCtx::new();
    d.apply(AccFunc::Max, 1, &dec(150, 2));
    d.apply(AccFunc::Max, 2, &dec(16, 1));
    assert_eq!(d.minmax, Some(dec(16, 1)));
    // strings tie: the first value stays
    let mut s = AccCtx::new();
    s.apply(AccFunc::Min, 1, &Value::Str("b".to_string()));
    s.apply(AccFunc::Min, 2, &Value::Str("a".to_string()));
    assert_eq!(s.minmax, Some(Value::Str("b".to_string())));
    // an empty min has no result
    assert_eq!(AccCtx::new().result_value(AccFunc::Min, FieldType::I64), None);
}

#[test]
fn collections() {
    let mut a = AccCtx::new();
    a.apply(AccFunc::Collect, 7, &Value::Null);
    a.apply(AccFunc::Collect, 8, &Value::I64(1));
    assert_eq!(a.list, vec![7, 8]);
    assert!(a.try_reverse(AccFunc::Collect, 7, &Value::Null));
    assert_eq!(a.list, vec![8]);
    a.apply(AccFunc::CollectList, 1, &Value::I64(3));
    a.apply(AccFunc::CollectList, 2, &Value::I64(3));
    a.apply(AccFunc::CollectList, 3, &Value::Null); // skipped
    assert_eq!(a.vlist, vec![(1, Value::I64(3)), (2, Value::I64(3))]);
    assert!(a.try_reverse(AccFunc::CollectList, 1, &Value::I64(3)));
    assert_eq!(a.vlist, vec![(2, Value::I64(3))]);
    assert_eq!(a.result_value(AccFunc::CollectList, FieldType::I64), Some(Value::I64(0)));
}

#[test]
fn collect_set_counts_values() {
    let mut a = AccCtx::new();
    a.apply(AccFunc::CollectSet, 1, &Value::Str("x".to_string()));
    a.apply(AccFunc::CollectSet, 2, &Value::Str("y".to_string()));
    a.apply(AccFunc::CollectSet, 3, &Value::Str("x".to_string()));
    assert_eq!(a.vset, vec![(Value::Str("x".to_string()), 2), (Value::Str("y".to_string()), 1)]);
    assert!(a.try_reverse(AccFunc::CollectSet, 1, &Value::Str("x".to_string())));
    assert_eq!(a.vset, vec![(Value::Str("x".to_string()), 1), (Value::Str("y".to_string()), 1)]);
    assert!(a.try_reverse(AccFunc::CollectSet, 3, &Value::Str("x".to_string())));
    assert_eq!(a.vset, vec![(Value::Str("y".to_string()), 1)]);
    // decimals are distinct set members at distinct scales
    a.apply(AccFunc::CollectSet, 4, &dec(110, 2));
    a.apply(AccFunc::CollectSet, 5, &dec(11, 1));
    assert_eq!(a.vset.len(), 3);
}

#[test]
fn reset_keeps_the_result_handle() {
    let mut a = AccCtx::new();
    a.result = Some(42);
    a.propagated = true;
    a.apply(AccFunc::Sum, 1, &Value::I64(5));
    a.apply(AccFunc::Collect, 1, &Value::I64(5));
    a.reset_state();
    assert_eq!(a.result, Some(42));
    assert!(a.propagated);
    assert_eq!(a.sum_i, 0);
    assert!(a.list.is_empty());
}

#[test]
fn value_equality() {
    assert!(values_equal(&Value::Str("a".to_string()), &Value::Str("a".to_string())));
    assert!(!values_equal(&Value::I64(1), &dec(1, 0)));
    assert!(!values_equal(&dec(10, 1), &dec(1, 0)));
    assert!(values_equal(&Value::Null, &Value::Null));
}
