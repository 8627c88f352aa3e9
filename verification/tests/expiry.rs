use seine_engine::expiry::{deadline_class, expiry_deadline, length_admission, ring_admit, window_time_admits, DeadlineClass, PseudoClock};

#[test]
fn deadlines_run_from_the_end_of_the_event() {
    assert_eq!(expiry_deadline(100, 30, 50, true), 181);
    assert_eq!(expiry_deadline(100, 0, 50, false), 150);
    // overflow wraps
    assert_eq!(expiry_deadline(i64::MAX, 0, 1, false), i64::MIN);
    assert_eq!(expiry_deadline(i64::MAX - 1, 0, 1, true), i64::MIN);
}

#[test]
fn deadline_classes() {
    assert_eq!(deadline_class(-1, 0), DeadlineClass::Leaked);
    assert_eq!(deadline_class(0, 0), DeadlineClass::Due);
    assert_eq!(deadline_class(5, 10), DeadlineClass::Due);
    assert_eq!(deadline_class(11, 10), DeadlineClass::Scheduled);
    // a wrapped deadline leaks
    let d = expiry_deadline(i64::MAX, 0, 10, true);
    assert_eq!(deadline_class(d, 0), DeadlineClass::Leaked);
}

#[test]
fn time_window_admission_boundary() {
    assert!(window_time_admits(100, 50, 149));
    assert!(!window_time_admits(100, 50, 150)); // start + n <= now rejects
    assert!(!window_time_admits(i64::MAX, 1, 0)); // wraps negative
}

#[test]
fn length_window_ring() {
    let mut ring = Vec::new();
    assert_eq!(ring_admit(&mut ring, 1, 2), None);
    assert_eq!(ring_admit(&mut ring, 2, 2), None);
    assert_eq!(ring_admit(&mut ring, 3, 2), Some(1));
    assert_eq!(ring, vec![2, 3]);
    let mut zero = Vec::new();
    assert_eq!(ring_admit(&mut zero, 7, 0), Some(7));
    assert!(zero.is_empty());
    assert_eq!(length_admission(&vec![2, 3], &vec![], 3, false), None);
    assert_eq!(length_admission(&vec![2, 3], &vec![9], 9, false), None);
    assert_eq!(length_admission(&vec![2, 3], &vec![], 4, true), Some(true));
    assert_eq!(length_admission(&vec![], &vec![], 4, false), Some(false));
}

#[test]
fn pseudo_clock_releases_due_events_in_deadline_order() {
    let mut c = PseudoClock::new();
    c.schedule(30, 3);
    c.schedule(10, 1);
    c.schedule(30, 4);
    c.schedule(20, 2);
    c.schedule(50, 5);
    assert_eq!(c.deadlines.iter().map(|e| e.0).collect::<Vec<_>>(), vec![10, 20, 30, 50]);
    assert_eq!(c.advance(5), Ok(vec![]));
    assert_eq!(c.advance(25), Ok(vec![1, 2, 3, 4]));
    assert_eq!(c.clock_ms, 30);
    assert_eq!(c.deadlines.len(), 1);
    assert_eq!(c.advance(-1).unwrap_err().0, "advance must be >= 0");
    assert_eq!(c.clock_ms, 30);
    assert_eq!(c.advance(20), Ok(vec![5]));
    assert!(c.deadlines.is_empty());
}

#[test]
fn pseudo_clock_wraps() {
    let mut c = PseudoClock::new();
    c.advance(i64::MAX).unwrap();
    c.schedule(-5, 9);
    // the clock wraps to MIN, so a deadline of -5 is not yet due
    assert_eq!(c.advance(1), Ok(vec![]));
    assert_eq!(c.clock_ms, i64::MIN);
}
