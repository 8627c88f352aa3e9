use seine_engine::tms::{why, EqKeyEntry};
use seine_engine::value::{FactView, Value};

#[test]
fn first_logical_insert_asks_for_the_fact() {
    let mut e = EqKeyEntry::new();
    assert!(e.merge_logical(0, &vec![1, 2], 0, &vec![Value::I64(5)]));
    // nothing recorded until the fact exists
    assert!(e.beliefs.is_empty());
    e.attach_justified(9, 0, &vec![1, 2], 0);
    assert_eq!(e.justified, Some(9));
    assert!(e.had_justified);
    assert_eq!(e.beliefs.len(), 1);
    assert!(e.supports(0, &vec![1, 2]));
}

#[test]
fn further_supports_merge_and_repeat_is_idempotent() {
    let mut e = EqKeyEntry::new();
    e.attach_justified(9, 0, &vec![1], 0);
    assert!(!e.merge_logical(1, &vec![3], 1, &vec![]));
    assert_eq!(e.beliefs.len(), 2);
    assert!(!e.merge_logical(1, &vec![3], 2, &vec![]));
    assert_eq!(e.beliefs.len(), 2);
    assert_eq!(e.beliefs[1].seq, 1);
    // a justified key records no pending values
    assert!(e.pending_vals.is_none());
}

#[test]
fn stated_only_key_records_dependency_and_pending_values() {
    let mut e = EqKeyEntry::new();
    e.note_stated(4);
    assert!(!e.merge_logical(2, &vec![7], 5, &vec![Value::Str("a".to_string())]));
    assert_eq!(e.justified, None);
    assert_eq!(e.beliefs.len(), 1);
    assert_eq!(e.pending_vals, Some(vec![Value::Str("a".to_string())]));
    // the first pending values stay
    assert!(!e.merge_logical(3, &vec![8], 6, &vec![Value::I64(1)]));
    assert_eq!(e.pending_vals, Some(vec![Value::Str("a".to_string())]));
    assert_eq!(e.beliefs.len(), 2);
}

#[test]
fn dropping_supports_and_reading_the_graph() {
    let mut e = EqKeyEntry::new();
    e.attach_justified(9, 0, &vec![1], 0);
    assert!(!e.merge_logical(1, &vec![2], 1, &vec![]));
    e.note_stated(5);
    e.note_stated(6);
    let names = vec!["a".to_string(), "b".to_string()];
    let sv = e.supports_view(&names);
    assert_eq!(sv.len(), 2);
    assert_eq!(sv[0].rule, "a");
    assert_eq!(sv[1].rule, "b");
    assert_eq!(sv[1].tuple, vec![2]);
    assert!(sv[0].seq < sv[1].seq);
    assert_eq!(e.live_siblings(&vec![6, 9]), vec![6]);
    let view = FactView { type_label: "T".to_string(), fields: vec![], handle: 9, elems: None };
    let j = e.justification(view, &names, &vec![5]);
    assert_eq!(j.fact, 9);
    assert_eq!(j.stated_siblings, vec![5]);
    assert_eq!(j.supports.len(), 2);
    let other = EqKeyEntry::new();
    let keys = vec![other, e];
    assert_eq!(why(&keys, 9), Some(1));
    assert_eq!(why(&keys, 5), None);
    let mut e = keys.into_iter().nth(1).unwrap();
    assert!(!e.drop_support(0, &vec![1]));
    assert_eq!(e.beliefs.len(), 1);
    assert!(!e.drop_support(0, &vec![3])); // not a support: nothing changes
    assert!(e.drop_support(1, &vec![2]));
    assert!(e.beliefs.is_empty());
}
