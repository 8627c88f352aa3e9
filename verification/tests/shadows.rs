use seine_engine::shadow_bf::BfShadow;
use seine_engine::shadow_ex::ExShadow;
use seine_engine::shadow_pn::PnShadow;
use seine_engine::shadow_px::PxShadow;

#[test]
fn event_not_unblocked_emits_arrival_order() {
    let mut b = BfShadow::new(1, 0, 2, 1);
    b.on_p_insert(1);
    assert!(b.exec_queued); // the first P links the join and completes the segment
    b.on_p_insert(2);
    b.on_p_insert(3);
    b.pre_fire();
    assert_eq!(b.rtm, vec![3, 2, 1]); // the staged batch lands reversed
    assert_eq!(b.q, vec![1, 2, 3]); // firing order = reverse(rtm)
    assert_eq!(b.emit_rank.get(&1), Some(&0));
    assert_eq!(b.emit_rank.get(&3), Some(&2));
    assert!(!b.exec_queued);
    b.post_fire();
    assert!(b.q.is_empty());
    assert!(b.emit_rank.is_empty());
}

#[test]
fn event_not_blocks_then_releases_on_last_retract() {
    let mut b = BfShadow::new(1, 0, 2, 1);
    b.on_e0_insert(100, false);
    assert_eq!(b.e0_alive, vec![100]);
    b.on_p_insert(1);
    b.on_p_insert(2);
    b.pre_fire();
    assert!(b.if_propagated && b.if_blocked);
    assert!(b.q.is_empty());
    b.post_fire();
    b.on_delete(100);
    assert!(b.not_linked && b.exec_queued);
    assert_eq!(b.q, vec![1, 2]);
    b.pre_fire();
    assert_eq!(b.q, vec![1, 2]);
}

#[test]
fn event_not_expiry_registers_and_retracts_at_quiescence() {
    let mut b = BfShadow::new(1, 0, 2, 1);
    b.on_e0_insert(100, false);
    b.on_p_insert(1);
    b.pre_fire();
    assert!(b.q.is_empty());
    b.post_fire();
    b.on_advance_due(100);
    b.on_advance_due(100); // registered once
    assert_eq!(b.pending_exp, vec![100]);
    assert_eq!(b.e0_alive, vec![100]); // alive until quiescence
    b.pre_fire();
    assert!(b.e0_alive.is_empty());
    assert!(b.pending_exp.is_empty());
    assert_eq!(b.q, vec![1]);
}

#[test]
fn event_not_update_moves_to_tail_and_hoists_in_queue() {
    let mut b = BfShadow::new(1, 0, 2, 1);
    b.on_p_insert(1);
    b.on_p_insert(2);
    b.on_p_insert(3);
    b.pre_fire();
    b.on_p_update(3);
    assert_eq!(b.rtm, vec![2, 1, 3]);
    assert_eq!(b.q, vec![3, 1, 2]);
    assert_eq!(b.emit_rank.get(&3), Some(&0));
    assert_eq!(b.emit_rank.get(&2), Some(&2));
}

#[test]
fn event_not_p_insert_then_delete_annihilates() {
    let mut b = BfShadow::new(1, 0, 2, 1);
    b.on_p_insert(7);
    b.on_delete(7);
    assert!(b.staged.is_empty());
    assert!(b.rtm.is_empty());
    assert_eq!(b.join_count, 0);
    assert!(!b.join_linked);
}

#[test]
fn event_not_delete_cancels_queued_emission() {
    let mut b = BfShadow::new(1, 0, 2, 1);
    b.on_p_insert(1);
    b.on_p_insert(2);
    b.pre_fire();
    b.on_delete(1);
    assert_eq!(b.q, vec![2]);
    assert_eq!(b.rtm, vec![2]);
    assert_eq!(b.join_count, 1);
}

#[test]
fn exists_first_satisfaction_emits_after_drain() {
    // two P's, then the witness, then a third P: the first fire-loop eval
    // drains the post-witness P and emits reverse(rtm) = [3, 1, 2]
    let mut e = ExShadow::new(1, 0, 2, 1);
    e.on_p_insert(1);
    e.on_p_insert(2);
    assert!(!e.exec_queued); // one-sided: nothing queued
    e.on_e1_insert(100, false);
    assert!(e.exec_queued);
    assert_eq!(e.rtm, vec![2, 1]);
    e.on_p_insert(3);
    e.pre_fire();
    assert_eq!(e.q, vec![3, 1, 2]);
    assert_eq!(e.emit_rank.get(&3), Some(&0));
    assert!(e.if_through);
}

#[test]
fn exists_unsatisfy_cancels_and_resatisfy_reemits() {
    let mut e = ExShadow::new(1, 0, 2, 1);
    e.on_p_insert(1);
    e.on_e1_insert(100, false);
    e.pre_fire();
    assert_eq!(e.q, vec![1]);
    e.post_fire();
    e.on_delete(100);
    assert!(!e.if_through);
    assert!(e.q.is_empty());
    e.on_e1_insert(101, false);
    assert!(e.if_through); // the resident initial left re-satisfies at once
    assert_eq!(e.q, vec![1]);
}

#[test]
fn exists_p_insert_then_delete_annihilates() {
    let mut e = ExShadow::new(1, 0, 2, 1);
    e.on_p_insert(9);
    e.on_delete(9);
    assert!(e.staged.is_empty());
    assert_eq!(e.join_count, 0);
}

#[test]
fn plain_not_first_fire_initializes_and_emits() {
    let mut p = PnShadow::new(1, 0, 2, 1);
    p.on_p_insert(1);
    p.on_p_insert(2);
    assert!(!p.exec_queued);
    p.pre_fire(false);
    assert_eq!(p.rtm, vec![2, 1]);
    assert_eq!(p.q, vec![1, 2]);
    assert_eq!(p.emit_rank.get(&2), Some(&1));
}

#[test]
fn plain_not_blocker_delete_releases() {
    let mut p = PnShadow::new(1, 0, 2, 1);
    p.on_d_insert(50, false, 0);
    p.on_p_insert(1);
    p.pre_fire(false);
    assert!(p.if_blocked);
    assert!(p.q.is_empty());
    p.on_d_delete(50, false, false, 1);
    assert!(p.exec_queued);
    p.pre_fire(false);
    assert!(!p.if_blocked);
    assert_eq!(p.q, vec![1]);
}

#[test]
fn plain_not_staged_blocker_insert_delete_annihilates() {
    let mut p = PnShadow::new(1, 0, 2, 1);
    p.on_d_insert(50, false, 0);
    p.on_d_delete(50, false, false, 1);
    assert!(p.d_staged.is_empty());
    assert!(p.d_alive.is_empty());
    p.on_p_insert(1);
    p.on_p_delete(1);
    assert!(p.staged.is_empty());
}

#[test]
fn plain_not_churn_delete_hops_before_same_stamp_inserts() {
    let mut p = PnShadow::new(1, 0, 2, 1);
    p.on_d_insert(60, false, 3);
    p.pre_fire(false); // 60 processed
    p.on_d_insert(61, false, 7);
    p.on_d_insert(62, false, 7);
    p.on_d_delete(60, false, true, 7);
    assert_eq!(p.d_staged, vec![(false, 60, 7), (true, 61, 7), (true, 62, 7)]);
    let mut p2 = PnShadow::new(1, 0, 2, 1);
    p2.on_d_insert(60, false, 3);
    p2.pre_fire(false);
    p2.on_d_insert(61, false, 7);
    p2.on_d_delete(60, false, false, 7);
    assert_eq!(p2.d_staged, vec![(true, 61, 7), (false, 60, 7)]);
}

#[test]
fn plain_exists_satisfy_then_explicit_unsatisfy() {
    let mut x = PxShadow::new(1, 0, 2, 1);
    x.on_p_insert(1);
    x.on_p_insert(2);
    assert!(!x.queued());
    x.on_d_insert(50, true, false, false, 0);
    assert_eq!(x.counter, 1);
    assert!(x.exec_link); // satisfy-link with the join populated
    x.pre_fire();
    assert_eq!(x.q, vec![1, 2]);
    assert!(!x.queued());
    x.post_fire();
    x.on_d_delete(50, true, false, false, false, 1);
    assert_eq!(x.counter, 0);
    assert!(x.exec_wm);
    x.quiescence();
    assert!(x.if_blocked);
    assert!(x.q.is_empty());
}

#[test]
fn plain_exists_alpha_failing_witness_is_ignored() {
    let mut x = PxShadow::new(1, 0, 2, 1);
    x.on_d_insert(50, false, false, false, 0);
    assert!(x.d_staged.is_empty());
    assert_eq!(x.counter, 0);
    assert_eq!(x.alpha_state.get(&50), Some(&false));
    x.on_d_delete(50, true, false, false, false, 1);
    assert!(!x.exec_wm); // never passed the alpha: silent
    assert!(x.alpha_state.get(&50).is_none());
}

#[test]
fn plain_exists_witness_update_classification() {
    let mut x = PxShadow::new(1, 0, 2, 1);
    x.on_d_insert(50, true, false, false, 0);
    // leaving the alpha while still staged annihilates
    x.on_d_update(50, false, 1);
    assert!(x.d_staged.is_empty());
    assert_eq!(x.counter, 0);
    // entering the alpha stages a fresh insert
    x.on_d_update(50, true, 2);
    assert_eq!(x.d_staged, vec![(true, 50, 2)]);
    assert_eq!(x.counter, 1);
    x.quiescence();
    assert_eq!(x.d_alive, vec![50]);
    // leaving it once processed defers a delete, counter untouched
    x.on_d_update(50, false, 3);
    assert_eq!(x.d_staged, vec![(false, 50, 3)]);
    assert_eq!(x.counter, 1);
}

#[test]
fn plain_exists_staged_insert_delete_annihilates() {
    let mut x = PxShadow::new(1, 0, 2, 1);
    x.on_p_insert(3);
    x.on_p_delete(3);
    assert!(x.staged.is_empty());
    x.on_d_insert(50, true, false, false, 0);
    x.on_d_delete(50, false, false, false, false, 1);
    assert!(x.d_staged.is_empty());
    assert_eq!(x.counter, 0);
    assert!(x.alpha_state.is_empty());
    assert!(!x.exec_wm); // a cascade delete is silent
}

#[test]
fn exists_quiescence_expiry_keeps_drained_emissions() {
    let mut e = ExShadow::new(1, 0, 2, 1);
    e.on_p_insert(1);
    e.on_e1_insert(100, true); // due at insertion: registers its expiry
    assert_eq!(e.pending_exp, vec![100]);
    e.pre_fire();
    // the fire-loop emission survives the quiescence unsatisfy
    assert_eq!(e.q, vec![1]);
    assert!(!e.if_through);
    assert!(e.e1_alive.is_empty());
    assert_eq!(e.q_floor, 0);
}

#[test]
fn updates_of_staged_p_change_nothing() {
    let mut b = BfShadow::new(1, 0, 2, 1);
    b.on_p_insert(1);
    b.on_p_update(1);
    assert_eq!(b.staged, vec![1]);
    assert!(b.rtm.is_empty() && b.q.is_empty());
    let mut e = ExShadow::new(1, 0, 2, 1);
    e.on_p_insert(1);
    e.on_p_update(1);
    assert_eq!(e.staged, vec![1]);
    let mut p = PnShadow::new(1, 0, 2, 1);
    p.on_p_insert(1);
    p.on_p_update(1);
    assert_eq!(p.staged, vec![1]);
    let mut x = PxShadow::new(1, 0, 2, 1);
    x.on_p_insert(1);
    x.on_p_update(1);
    assert_eq!(x.staged, vec![1]);
    assert!(x.rtm.is_empty());
}

#[test]
fn event_not_join_counter_counts_the_p_memories() {
    let mut b = BfShadow::new(1, 0, 2, 1);
    for id in [1u32, 2, 3] {
        b.on_p_insert(id);
        assert_eq!(b.join_count as usize, b.staged.len() + b.rtm.len());
    }
    b.pre_fire();
    b.on_delete(2);
    b.on_p_update(3);
    b.on_e0_insert(100, false);
    b.on_delete(100);
    assert_eq!(b.join_count as usize, b.staged.len() + b.rtm.len());
    assert_eq!(b.join_count, 2);
    assert!(b.join_linked);
    b.on_delete(1);
    b.on_delete(3);
    assert_eq!(b.join_count, 0);
    assert!(!b.join_linked);
}

#[test]
fn join_counter_exact_over_a_run_with_fresh_p_ids() {
    let mut b = BfShadow::new(1, 0, 2, 1);
    b.on_p_insert(1);
    b.on_e0_insert(50, true);
    b.on_p_insert(2);
    b.pre_fire();
    b.on_p_insert(3);
    b.on_p_update(1);
    b.on_delete(2);
    b.on_advance_due(50);
    b.post_fire();
    b.pre_fire();
    assert_eq!(b.join_count as usize, b.staged.len() + b.rtm.len());
    assert_eq!(b.join_linked, b.join_count > 0);
}
