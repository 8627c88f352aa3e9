use seine_engine::allen::{during_bounds, overlap_bounds};
use seine_engine::canon::{scalar_canon_key, scalar_view, string_canon_key};
use seine_engine::gexpr::{eval_alpha_test, eval_gexpr, first_group_field, matches_alpha, matches_leaf, str_contains, GExpr, Src, Test};
use seine_engine::keys::{key_vals, KeyVal};
use seine_engine::store::{dur_of, FactStore};
use seine_engine::value::{CmpOp, Value};

fn s(x: &str) -> Value {
    Value::Str(x.to_string())
}

#[test]
fn decimal_keys_are_value_identical_across_scales() {
    let a = key_vals(&[Value::Dec { u: 110, s: 2 }]);
    let b = key_vals(&[Value::Dec { u: 11, s: 1 }]);
    assert_eq!(a, b);
    assert_eq!(a, vec![KeyVal::D(11, 1)]);
    assert_ne!(key_vals(&[Value::Dec { u: 11, s: 1 }]), key_vals(&[Value::Dec { u: 12, s: 1 }]));
}

#[test]
fn keys_collapse_nulls_and_keep_other_values() {
    let k = key_vals(&[Value::I64(3), s("x"), Value::Bool(true), Value::Null, Value::Dec { u: 500, s: 2 }]);
    assert_eq!(k, vec![KeyVal::I(3), KeyVal::S("x".to_string()), KeyVal::B(true), KeyVal::Null, KeyVal::D(5, 0)]);
    assert_eq!(key_vals(&[]), Vec::<KeyVal>::new());
}

#[test]
fn canonical_keys_render_boxed_json() {
    assert_eq!(scalar_canon_key(&Value::I64(-12)), "{\"type\":\"Long\",\"fields\":{\"value\":-12}}");
    assert_eq!(scalar_canon_key(&Value::Bool(true)), "{\"type\":\"Boolean\",\"fields\":{\"value\":true}}");
    assert_eq!(scalar_canon_key(&Value::Bool(false)), "{\"type\":\"Boolean\",\"fields\":{\"value\":false}}");
    assert_eq!(scalar_canon_key(&Value::Null), "Null");
    assert_eq!(scalar_canon_key(&Value::Dec { u: -15, s: 1 }), "Dec { u: -15, s: 1 }");
    assert_eq!(scalar_canon_key(&Value::I64(i64::MIN)), "{\"type\":\"Long\",\"fields\":{\"value\":-9223372036854775808}}");
}

#[test]
fn canonical_key_of_a_string_quotes_and_escapes_it() {
    assert_eq!(scalar_canon_key(&s("ab")), "{\"type\":\"String\",\"fields\":{\"value\":\"ab\"}}");
    assert_eq!(scalar_canon_key(&s("a\"b")), "{\"type\":\"String\",\"fields\":{\"value\":\"a\\\"b\"}}");
    assert_eq!(scalar_canon_key(&s("tab\there")), "{\"type\":\"String\",\"fields\":{\"value\":\"tab\\there\"}}");
    assert_eq!(string_canon_key("\"q\""), "{\"type\":\"String\",\"fields\":{\"value\":\"q\"}}");
}

#[test]
fn canonical_keys_order_by_type_then_value() {
    let mut keys = vec![
        scalar_canon_key(&s("b")),
        scalar_canon_key(&Value::I64(2)),
        scalar_canon_key(&Value::Bool(true)),
        scalar_canon_key(&s("a")),
    ];
    keys.sort();
    assert_eq!(keys[0], scalar_canon_key(&Value::Bool(true)));
    assert_eq!(keys[1], scalar_canon_key(&Value::I64(2)));
    assert_eq!(keys[2], scalar_canon_key(&s("a")));
    assert_eq!(keys[3], scalar_canon_key(&s("b")));
}

#[test]
fn boxed_scalar_views() {
    let v = scalar_view(Value::I64(5));
    assert_eq!(v.type_label, "Long");
    assert_eq!(v.fields, vec![("value".to_string(), Value::I64(5))]);
    assert_eq!(v.handle, u32::MAX);
    assert!(v.elems.is_none());
    assert_eq!(scalar_view(s("z")).type_label, "String");
    assert_eq!(scalar_view(Value::Bool(true)).type_label, "Boolean");
    assert_eq!(scalar_view(Value::Null).type_label, "Null");
    assert_eq!(scalar_view(Value::Dec { u: 1, s: 0 }).type_label, "Decimal");
}

fn store() -> FactStore {
    FactStore {
        rows: vec![
            vec![Value::I64(10), s("hello world"), Value::Null, Value::I64(30)],
            vec![Value::I64(20), s("bye"), Value::Bool(true), s("30")],
        ],
    }
}

#[test]
fn durations() {
    let st = store();
    assert_eq!(dur_of(&st, 0, Some(3)), 30);
    assert_eq!(dur_of(&st, 1, Some(3)), 0); // not an integer
    assert_eq!(dur_of(&st, 0, Some(2)), 0); // null
    assert_eq!(dur_of(&st, 0, None), 0); // point event
}

#[test]
fn interval_bound_defaults() {
    assert_eq!(overlap_bounds(&[]), (1, i64::MAX));
    assert_eq!(overlap_bounds(&[15]), (1, 15));
    assert_eq!(overlap_bounds(&[10, 25]), (10, 25));
    assert_eq!(overlap_bounds(&[1, 2, 3]), (1, i64::MAX));
    assert_eq!(during_bounds(&[]), (1, i64::MAX, 1, i64::MAX));
    assert_eq!(during_bounds(&[5]), (1, 5, 1, 5));
    assert_eq!(during_bounds(&[2, 9]), (2, 9, 2, 9));
    assert_eq!(during_bounds(&[1, 2, 3, 4]), (1, 2, 3, 4));
    assert_eq!(during_bounds(&[1, 2, 3]), (1, i64::MAX, 1, i64::MAX));
}

#[test]
fn substring_search() {
    assert!(str_contains("hello world", "lo w"));
    assert!(str_contains("hello", ""));
    assert!(!str_contains("hello", "hello!"));
    assert!(!str_contains("abc", "ac"));
    assert!(str_contains("aab", "ab"));
}

fn cmp(field_idx: usize, op: CmpOp, v: Value) -> GExpr {
    GExpr::Cmp { field_idx, op, rhs: Src::Lit(v) }
}

#[test]
fn group_leaves() {
    let st = store();
    assert_eq!(eval_gexpr(&cmp(0, CmpOp::Gt, Value::I64(5)), &st, 0, None, None), Some(true));
    assert_eq!(eval_gexpr(&cmp(0, CmpOp::Gt, Value::I64(15)), &st, 0, None, None), Some(false));
    // a null operand is UNKNOWN
    assert_eq!(eval_gexpr(&cmp(2, CmpOp::Eq, Value::I64(1)), &st, 0, None, None), None);
    assert_eq!(eval_gexpr(&GExpr::IsNull { field_idx: 2, negated: false }, &st, 0, None, None), Some(true));
    assert_eq!(eval_gexpr(&GExpr::IsNull { field_idx: 2, negated: true }, &st, 0, None, None), Some(false));
    assert_eq!(eval_gexpr(&GExpr::Unknown, &st, 0, None, None), None);
    let c = GExpr::Contains { field_idx: 1, needle: "world".to_string() };
    assert_eq!(eval_gexpr(&c, &st, 0, None, None), Some(true));
    assert_eq!(eval_gexpr(&c, &st, 1, None, None), Some(false));
    let c2 = GExpr::Contains { field_idx: 0, needle: "1".to_string() };
    assert_eq!(eval_gexpr(&c2, &st, 0, None, None), Some(false)); // not a string
}

#[test]
fn group_in_lists() {
    let st = store();
    let inl = GExpr::InList { field_idx: 0, items: vec![Value::I64(1), Value::I64(10)], negated: false };
    assert_eq!(eval_gexpr(&inl, &st, 0, None, None), Some(true));
    let notin = GExpr::InList { field_idx: 0, items: vec![Value::I64(1), Value::I64(10)], negated: true };
    assert_eq!(eval_gexpr(&notin, &st, 0, None, None), Some(false));
    // a null member makes a miss UNKNOWN
    let with_null = GExpr::InList { field_idx: 0, items: vec![Value::I64(1), Value::Null], negated: true };
    assert_eq!(eval_gexpr(&with_null, &st, 0, None, None), None);
    let miss = GExpr::InList { field_idx: 0, items: vec![Value::I64(1)], negated: true };
    assert_eq!(eval_gexpr(&miss, &st, 0, None, None), Some(true));
    // numeric promotion: 10 matches 10.0
    let promoted = GExpr::InList { field_idx: 0, items: vec![Value::Dec { u: 100, s: 1 }], negated: false };
    assert_eq!(eval_gexpr(&promoted, &st, 0, None, None), Some(true));
}

#[test]
fn group_three_valued_logic() {
    let st = store();
    let t = cmp(0, CmpOp::Eq, Value::I64(10));
    let f = cmp(0, CmpOp::Eq, Value::I64(11));
    let u = GExpr::Unknown;
    let and = |xs: Vec<GExpr>| GExpr::And(xs);
    let or = |xs: Vec<GExpr>| GExpr::Or(xs);
    let ev = |g: &GExpr| eval_gexpr(g, &st, 0, None, None);
    assert_eq!(ev(&and(vec![cmp(0, CmpOp::Eq, Value::I64(10)), GExpr::Unknown])), None);
    assert_eq!(ev(&and(vec![GExpr::Unknown, cmp(0, CmpOp::Eq, Value::I64(11))])), Some(false));
    assert_eq!(ev(&or(vec![GExpr::Unknown, cmp(0, CmpOp::Eq, Value::I64(10))])), Some(true));
    assert_eq!(ev(&or(vec![cmp(0, CmpOp::Eq, Value::I64(11)), GExpr::Unknown])), None);
    assert_eq!(ev(&and(vec![])), Some(true));
    assert_eq!(ev(&or(vec![])), Some(false));
    // negation keeps UNKNOWN
    assert_eq!(ev(&GExpr::Not(Box::new(u))), None);
    assert_eq!(ev(&GExpr::Not(Box::new(t))), Some(false));
    assert_eq!(ev(&GExpr::Not(Box::new(f))), Some(true));
}

#[test]
fn group_field_references() {
    let st = store();
    // own tuple position 1: reference (1, 0) reads fact f itself
    let own = GExpr::Cmp { field_idx: 0, op: CmpOp::Eq, rhs: Src::Field(1, 0) };
    assert_eq!(eval_gexpr(&own, &st, 0, None, Some(1)), Some(true));
    // cross-pattern reference to tuple position 0 of the left tuple [1]
    let left = vec![1u32];
    let cross = GExpr::Cmp { field_idx: 0, op: CmpOp::Lt, rhs: Src::Field(0, 0) };
    assert_eq!(eval_gexpr(&cross, &st, 0, Some(&left), Some(1)), Some(true));
    let cross_null = GExpr::Cmp { field_idx: 0, op: CmpOp::Lt, rhs: Src::Field(0, 2) };
    assert_eq!(eval_gexpr(&cross_null, &st, 1, Some(&vec![0u32]), Some(1)), None);
}

#[test]
fn alpha_tests() {
    assert!(eval_alpha_test(&s("abc"), &Test::Contains("bc".to_string())));
    assert!(!eval_alpha_test(&s("abc"), &Test::Contains("x".to_string())));
    assert!(!eval_alpha_test(&Value::I64(1), &Test::Contains("1".to_string())));
    assert!(eval_alpha_test(&Value::Null, &Test::IsNull { negated: false }));
    assert!(eval_alpha_test(&Value::I64(0), &Test::IsNull { negated: true }));
    assert!(!eval_alpha_test(&Value::Null, &Test::Unknown));
}

#[test]
fn first_group_field_follows_first_operands() {
    let g = GExpr::And(vec![GExpr::Not(Box::new(GExpr::IsNull { field_idx: 3, negated: false })), cmp(1, CmpOp::Eq, Value::I64(0))]);
    assert_eq!(first_group_field(&g), 3);
    assert_eq!(first_group_field(&GExpr::Unknown), 0);
    assert_eq!(first_group_field(&GExpr::Or(vec![GExpr::Contains { field_idx: 2, needle: String::new() }])), 2);
}

#[test]
fn null_free_groups_are_two_valued() {
    let st = FactStore { rows: vec![vec![Value::I64(1), s("a")]] };
    let g = GExpr::Or(vec![
        GExpr::And(vec![cmp(0, CmpOp::Ge, Value::I64(1)), GExpr::Contains { field_idx: 1, needle: "b".to_string() }]),
        GExpr::Not(Box::new(GExpr::InList { field_idx: 0, items: vec![Value::I64(2)], negated: false })),
    ]);
    assert_eq!(eval_gexpr(&g, &st, 0, None, None), Some(true));
    let h = GExpr::And(vec![cmp(0, CmpOp::Lt, Value::I64(1)), GExpr::IsNull { field_idx: 1, negated: false }]);
    assert_eq!(eval_gexpr(&h, &st, 0, None, None), Some(false));
}

#[test]
fn regex_leaf_outcomes_around_the_verdict() {
    assert_eq!(matches_leaf(&Value::Null, true), None);
    assert_eq!(matches_leaf(&s("abc"), true), Some(true));
    assert_eq!(matches_leaf(&s("abc"), false), Some(false));
    assert_eq!(matches_leaf(&Value::I64(3), true), Some(false));
    assert!(matches_alpha(&s("x"), true));
    assert!(!matches_alpha(&Value::Null, true));
    assert!(!matches_alpha(&Value::I64(1), true));
}
