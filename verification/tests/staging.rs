use seine_engine::rulenet::RuleNet;
use seine_engine::staged::Staged;

fn net() -> RuleNet {
    RuleNet {
        s0: vec![Staged::empty()],
        lia: 0,
        path: Vec::new(),
        term_pending: Staged::empty_tuples(),
        peer_live: Vec::new(),
        queue: Vec::new(),
        item_sal: 0,
        queued: false,
    }
}

fn facts(es: &[(u32, Option<usize>, u32)]) -> Vec<u32> {
    es.iter().map(|e| e.0).collect()
}

#[test]
fn staged_lists_append_and_take() {
    let mut s = Staged::empty();
    assert!(s.is_empty());
    assert!(!s.maybe_contains(&4));
    s.add_ins(4, None);
    s.add_upd(5, Some(2));
    s.add_del(6, None);
    assert!(!s.is_empty());
    assert!(s.maybe_contains(&5));
    let t = s.take();
    assert!(s.is_empty());
    assert!(!s.maybe_contains(&4));
    assert_eq!(t.ins, vec![(4, None, 0)]);
    assert_eq!(t.upd, vec![(5, Some(2), 0)]);
    assert_eq!(t.del, vec![(6, None, 0)]);
}

#[test]
fn insert_then_delete_cancels() {
    let mut n = net();
    n.s0_add_ins(1, None);
    n.s0_add_ins(2, None);
    n.s0_add_del(1, None);
    assert_eq!(facts(&n.s0[0].ins), vec![2]);
    assert!(n.s0[0].del.is_empty());
    assert!(n.s0_dirty());
    n.s0_add_del(2, None);
    assert!(!n.s0_dirty());
}

#[test]
fn duplicate_stagings_fold() {
    let mut n = net();
    n.s0_add_ins(1, None);
    n.s0_add_ins(1, None);
    n.s0_add_upd(1, None);
    assert_eq!(facts(&n.s0[0].ins), vec![1]);
    assert!(n.s0[0].upd.is_empty());
    n.s0_add_upd(3, None);
    n.s0_add_upd(3, None);
    assert_eq!(facts(&n.s0[0].upd), vec![3]);
    // a delete drops staged updates and stages once
    n.s0_add_del(3, None);
    n.s0_add_del(3, None);
    assert!(n.s0[0].upd.is_empty());
    assert_eq!(facts(&n.s0[0].del), vec![3]);
    // an update of a staged delete is dropped
    n.s0_add_upd(3, None);
    assert!(n.s0[0].upd.is_empty());
}

#[test]
fn windows_close_and_folds_span_them() {
    let mut n = net();
    n.s0_close_window(); // empty window stays open
    assert_eq!(n.s0.len(), 1);
    n.s0_add_ins(1, None);
    n.s0_close_window();
    assert_eq!(n.s0.len(), 2);
    n.s0_add_ins(2, None);
    n.s0_add_ins(1, None); // already staged in an earlier window
    assert_eq!(facts(&n.s0[1].ins), vec![2]);
    n.s0_add_del(1, None); // cancels the insert in the first window
    assert!(n.s0[0].ins.is_empty());
    assert!(n.s0[1].del.is_empty());
    assert!(n.s0_dirty());
}

#[test]
fn peer_merge_prepends_and_tracks_live_tuples() {
    let mut n = net();
    let mut fresh = Staged::empty_tuples();
    fresh.ins.push((vec![1, 2], None, 0));
    fresh.ins.push((vec![3, 4], None, 0));
    n.peer_merge_term(&fresh);
    // per-entry prepends: the batch lands reversed
    let ins: Vec<Vec<u32>> = n.term_pending.ins.iter().map(|e| e.0.clone()).collect();
    assert_eq!(ins, vec![vec![3, 4], vec![1, 2]]);
    assert_eq!(n.peer_live, vec![vec![1, 2], vec![3, 4]]);
    // a re-insert of a staged tuple moves it to the head
    let mut again = Staged::empty_tuples();
    again.ins.push((vec![1, 2], Some(5), 1));
    n.peer_merge_term(&again);
    let ins: Vec<Vec<u32>> = n.term_pending.ins.iter().map(|e| e.0.clone()).collect();
    assert_eq!(ins, vec![vec![1, 2], vec![3, 4]]);
    assert_eq!(n.term_pending.ins[0].1, None); // the earlier entry moved, origin kept
}

#[test]
fn peer_merge_live_insert_arrives_as_update_and_delete_ends_lifetime() {
    let mut n = net();
    let mut fresh = Staged::empty_tuples();
    fresh.ins.push((vec![1], None, 0));
    n.peer_merge_term(&fresh);
    let _ = n.term_pending.take_tuples();
    // the peer object is live: a re-insert stages an update
    n.peer_merge_term(&fresh);
    assert!(n.term_pending.ins.is_empty());
    let upd: Vec<Vec<u32>> = n.term_pending.upd.iter().map(|e| e.0.clone()).collect();
    assert_eq!(upd, vec![vec![1]]);
    // an update of a staged tuple is skipped
    let mut u = Staged::empty_tuples();
    u.upd.push((vec![1], Some(3), 0));
    n.peer_merge_term(&u);
    assert_eq!(n.term_pending.upd.len(), 1);
    // a delete ends the lifetime
    let mut d = Staged::empty_tuples();
    d.del.push((vec![1], None, 0));
    n.peer_merge_term(&d);
    assert!(n.peer_live.is_empty());
    assert_eq!(n.term_pending.del.len(), 1);
}
