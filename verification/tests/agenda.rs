use std::collections::HashMap;

use seine_engine::agenda::{fire_limit_check, higher_waits, pick_agenda_item, pick_dynamic, pick_ranked, Act, AgendaItem};
use seine_engine::rulenet::RuleNet;
use seine_engine::staged::Staged;
use seine_engine::value::EngineError;

fn item(sal: i32, decl: usize, is_query: bool, idx: usize, live: bool) -> AgendaItem {
    AgendaItem { sal, decl, is_query, idx, live }
}

fn act(t: Vec<u32>, sal: i32, seq: u64) -> Act {
    Act { t, sal, seq }
}

fn net() -> RuleNet {
    RuleNet {
        s0: vec![Staged::empty()],
        lia: 0,
        path: Vec::new(),
        term_pending: Staged::empty_tuples(),
        peer_live: Vec::new(),
        queue: Vec::new(),
        item_sal: 0,
        queued: false,
    }
}

#[test]
fn agenda_pops_by_salience_then_declaration() {
    let items = [
        item(0, 2, false, 2, true),
        item(5, 3, false, 3, true),
        item(5, 1, false, 1, true),
        item(9, 0, false, 0, false), // not live
    ];
    assert_eq!(pick_agenda_item(&items), Some((false, 1)));
    // a query is an item at salience 0 in the main group
    let with_query = [item(-1, 0, false, 0, true), item(0, 4, true, 0, true)];
    assert_eq!(pick_agenda_item(&with_query), Some((true, 0)));
    assert_eq!(pick_agenda_item(&[item(3, 0, false, 0, false)]), None);
    assert_eq!(pick_agenda_item(&[]), None);
    // a full tie keeps the first scanned
    assert_eq!(pick_agenda_item(&[item(1, 1, false, 7, true), item(1, 1, true, 8, true)]), Some((false, 7)));
}

#[test]
fn halting_on_a_higher_item() {
    assert!(higher_waits(0, &[3, -1], false));
    assert!(!higher_waits(5, &[5, 1], false));
    assert!(higher_waits(-2, &[], true));
    assert!(!higher_waits(0, &[], true));
}

#[test]
fn fire_limit() {
    assert_eq!(fire_limit_check(9, 10), Ok(()));
    assert_eq!(
        fire_limit_check(10, 10),
        Err(EngineError("fire limit 10 reached (non-terminating?)".to_string()))
    );
    assert_eq!(fire_limit_check(0, 0).unwrap_err().0, "fire limit 0 reached (non-terminating?)");
}

#[test]
fn dynamic_pick_is_highest_then_newest() {
    let q = vec![act(vec![1], 2, 1), act(vec![2], 5, 2), act(vec![3], 5, 3), act(vec![4], 1, 4)];
    assert_eq!(pick_dynamic(&q), 2);
    let tie = vec![act(vec![1], 5, 7), act(vec![2], 5, 7)];
    assert_eq!(pick_dynamic(&tie), 1);
    assert_eq!(pick_dynamic(&Vec::new()), 0);
}

#[test]
fn ranked_pick_follows_the_shadow_then_fifo() {
    let q = vec![act(vec![0, 10], 0, 1), act(vec![0, 11], 0, 2), act(vec![0, 12], 0, 3)];
    let mut rank = HashMap::new();
    rank.insert(12u32, 0usize);
    rank.insert(10u32, 1usize);
    assert_eq!(pick_ranked(&q, 1, Some(&rank)), 2);
    // unranked facts sort after ranked ones; without a map the pick is FIFO
    rank.remove(&12);
    assert_eq!(pick_ranked(&q, 1, Some(&rank)), 0);
    assert_eq!(pick_ranked(&q, 1, None), 0);
    assert_eq!(pick_ranked(&q, 5, Some(&rank)), 0);
    assert_eq!(pick_ranked(&Vec::new(), 0, None), 0);
}

#[test]
fn dynamic_item_salience_follows_its_queue() {
    let mut n = net();
    n.push_act(vec![1], 3, 1, true);
    assert!(n.queued);
    assert_eq!(n.item_sal, 3);
    assert_eq!(n.queue_top_sal(), Some(3));
    // the top stays: the sticky value stays
    n.push_act(vec![2], 1, 2, true);
    assert_eq!(n.item_sal, 3);
    // a new top re-adds the item at it
    n.push_act(vec![3], 7, 3, true);
    assert_eq!(n.item_sal, 7);
    assert_eq!(n.item_salience(None), 7);
    assert_eq!(n.item_salience(Some(-4)), -4);
    // removing the top: the item follows after the firing
    n.queue.remove(2);
    n.resort_dynamic_item();
    assert_eq!(n.item_sal, 3);
    // an emptied queue re-adds at 0
    n.queue.clear();
    n.queued = false;
    n.update_item_salience(true, 3);
    assert_eq!(n.item_sal, 0);
    assert!(n.queued);
}

#[test]
fn static_items_keep_their_state() {
    let mut n = net();
    n.push_act(vec![1], 9, 1, false);
    assert!(!n.queued);
    assert_eq!(n.item_sal, 0);
    assert_eq!(n.queue.len(), 1);
    assert_eq!(n.queue_top_sal(), Some(9));
}
