//! The firing-order shadow of a gated `not <PLAIN>() P()` rule in a stream
//! session, the plain-blocker sibling of the event-not shadow. Deltas from
//! the event machine: plain operations (P and blocker alike) stage until a
//! network evaluation, with no per-arrival force-flush; the executor
//! evaluates only when queued (a blocker delete always queues, a blocker
//! or P insert only while the left is through); the first-ever evaluation
//! drains the staged rights even while blocked; the not consumes its staged
//! blocker operations one by one in arrival order, a release (last blocker
//! gone) propagating the left into the join and a later insert re-blocking
//! (unfired emissions cancel, the drain persists); a blocker delete that
//! meets its own still-staged insert annihilates both. Blocker events reach
//! the shadow from every provenance; in-fire ones evaluate at once when
//! queued.

use vstd::prelude::*;
use std::collections::HashMap;
use crate::seqs::{extend_from, extend_rev, retain_ne, without, vec_move_tail, vec_remove_first, build_rank, rank_map, move_tail, remove_first, StagedOp, first_ins_idx, ops_find_ins, churn_at, ops_del_pos, first_idx, lemma_first_idx, lemma_first_ins_idx, lemma_without_len};
use crate::value::{FactId, TypeId};

verus! {

broadcast use vstd::std_specs::hash::group_hash_axioms;

/// Flush shadow of one gated plain-not rule (see the module doc).
pub struct PnShadow {
    pub d_tid: TypeId,
    pub d_ep: u32,
    pub p_tid: TypeId,
    pub p_ep: u32,
    pub rtm: Vec<FactId>,
    pub staged: Vec<FactId>,
    /// Pending blocker operations in arrival order.
    pub d_staged: Vec<StagedOp>,
    pub d_alive: Vec<FactId>,
    pub if_propagated: bool,
    pub if_blocked: bool,
    pub smem_init: bool,
    pub exec_queued: bool,
    /// Predicted emission order for the current fire cycle.
    pub q: Vec<FactId>,
    /// Fact -> rank in `q`, rebuilt after every change of `q`.
    pub emit_rank: HashMap<FactId, usize>,
}

/// Mathematical state of a `PnShadow`.
#[verifier::ext_equal]
pub struct PnView {
    pub d_tid: TypeId,
    pub d_ep: u32,
    pub p_tid: TypeId,
    pub p_ep: u32,
    pub rtm: Seq<FactId>,
    pub staged: Seq<FactId>,
    pub d_staged: Seq<StagedOp>,
    pub d_alive: Seq<FactId>,
    pub if_propagated: bool,
    pub if_blocked: bool,
    pub smem_init: bool,
    pub exec_queued: bool,
    pub q: Seq<FactId>,
    pub emit_rank: Map<FactId, usize>,
}

impl View for PnShadow {
    type V = PnView;

    open spec fn view(&self) -> PnView {
        PnView {
            d_tid: self.d_tid,
            d_ep: self.d_ep,
            p_tid: self.p_tid,
            p_ep: self.p_ep,
            rtm: self.rtm@,
            staged: self.staged@,
            d_staged: self.d_staged@,
            d_alive: self.d_alive@,
            if_propagated: self.if_propagated,
            if_blocked: self.if_blocked,
            smem_init: self.smem_init,
            exec_queued: self.exec_queued,
            q: self.q@,
            emit_rank: self.emit_rank@,
        }
    }
}

/// The released left propagates into the join: staged right-inserts drain
/// (reversed into `rtm`) and the emissions are the staged children in
/// arrival order followed by the pre-drain `rtm` reversed.
pub open spec fn pn_join_left_ins(v: PnView, pending: Seq<FactId>) -> (PnView, Seq<FactId>) {
    (PnView { rtm: v.rtm + v.staged.reverse(), staged: Seq::empty(), ..v }, pending + v.staged + v.rtm.reverse())
}

/// One staged blocker operation: an insert (re-)blocks a through left
/// (pending and queued emissions cancel); a delete of the last blocker
/// releases a blocked left into the join.
pub open spec fn pn_d_op(v: PnView, pending: Seq<FactId>, op: StagedOp) -> (PnView, Seq<FactId>) {
    if op.0 {
        let a = PnView { d_alive: v.d_alive.push(op.1), ..v };
        if a.if_propagated && !a.if_blocked {
            (PnView { if_blocked: true, q: Seq::empty(), ..a }, Seq::empty())
        } else {
            (a, pending)
        }
    } else {
        let a = PnView { d_alive: without(v.d_alive, op.1), ..v };
        if a.d_alive.len() == 0 && a.if_propagated && a.if_blocked {
            pn_join_left_ins(PnView { if_blocked: false, ..a }, pending)
        } else {
            (a, pending)
        }
    }
}

/// The staged blocker operations, consumed in arrival order.
pub open spec fn pn_d_ops(v: PnView, pending: Seq<FactId>, ops: Seq<StagedOp>) -> (PnView, Seq<FactId>)
    decreases ops.len(),
{
    if ops.len() == 0 {
        (v, pending)
    } else {
        let (w, p) = pn_d_ops(v, pending, ops.drop_last());
        pn_d_op(w, p, ops.last())
    }
}

/// One network evaluation: the first-ever one drains the staged rights;
/// the blocker operations apply in order; a join whose left was populated
/// when the evaluation began drains its backlog (emitting iff through);
/// the fire loop's first evaluation propagates the initial left; the
/// pending emissions join `q`, which is re-ranked.
pub open spec fn pn_eval(v: PnView, fire_loop: bool) -> PnView {
    let left_at_start = v.if_propagated && !v.if_blocked;
    let v0 = if !v.smem_init {
        PnView { smem_init: true, rtm: v.rtm + v.staged.reverse(), staged: Seq::empty(), ..v }
    } else {
        v
    };
    let (v1, p1) = pn_d_ops(PnView { d_staged: Seq::empty(), ..v0 }, Seq::empty(), v0.d_staged);
    let (v2, p2) = if left_at_start && v1.staged.len() > 0 {
        (
            PnView { rtm: v1.rtm + v1.staged.reverse(), staged: Seq::empty(), ..v1 },
            if !v1.if_blocked { p1 + v1.staged } else { p1 },
        )
    } else {
        (v1, p1)
    };
    let (v3, p3) = if fire_loop && !v2.if_propagated {
        let b = PnView { if_propagated: true, if_blocked: v2.d_alive.len() > 0, ..v2 };
        if !b.if_blocked { pn_join_left_ins(b, p2) } else { (b, p2) }
    } else {
        (v2, p2)
    };
    PnView { q: v3.q + p3, emit_rank: rank_map(v3.q + p3), ..v3 }
}

/// A P insert stages; it queues the executor while the left is through.
pub open spec fn pn_on_p_insert(v: PnView, id: FactId) -> PnView {
    let a = PnView { staged: v.staged.push(id), ..v };
    if a.if_propagated && !a.if_blocked { PnView { exec_queued: true, ..a } } else { a }
}

/// A bare-P update moves it to the tail of `rtm` (a staged P is untouched).
pub open spec fn pn_on_p_update(v: PnView, id: FactId) -> PnView {
    PnView { rtm: move_tail(v.rtm, id), ..v }
}

/// A P delete annihilates its staged insert or leaves `rtm`; its queued
/// emission is cancelled and `q` re-ranked.
pub open spec fn pn_on_p_delete(v: PnView, id: FactId) -> PnView {
    let a = if v.staged.contains(id) {
        PnView { staged: remove_first(v.staged, id), ..v }
    } else {
        PnView { rtm: remove_first(v.rtm, id), ..v }
    };
    PnView { q: without(a.q, id), emit_rank: rank_map(without(a.q, id)), ..a }
}

/// A blocker reaching working memory stages its insert (queueing while
/// through); in-fire, a queued executor evaluates at once.
pub open spec fn pn_on_d_insert(v: PnView, id: FactId, in_fire: bool, stamp: u64) -> PnView {
    let a = PnView { d_staged: v.d_staged.push((true, id, stamp)), ..v };
    let b = if a.if_propagated && !a.if_blocked { PnView { exec_queued: true, ..a } } else { a };
    if in_fire && b.exec_queued { PnView { exec_queued: false, ..pn_eval(b, false) } } else { b }
}

/// A blocker leaving working memory: a still-staged insert of it
/// annihilates; otherwise the delete stages (a churn retract before the
/// same-stamp trailing inserts) and queues, evaluating at once in-fire.
pub open spec fn pn_on_d_delete(v: PnView, id: FactId, in_fire: bool, churn: bool, stamp: u64) -> PnView {
    let i = first_ins_idx(v.d_staged, id);
    if i < v.d_staged.len() {
        PnView { d_staged: v.d_staged.remove(i), d_alive: without(v.d_alive, id), ..v }
    } else {
        let at = if churn { churn_at(v.d_staged, stamp) } else { v.d_staged.len() as int };
        let a = PnView { d_staged: v.d_staged.insert(at, (false, id, stamp)), exec_queued: true, ..v };
        if in_fire { PnView { exec_queued: false, ..pn_eval(a, false) } } else { a }
    }
}

/// The fire-call analog: the fire-loop evaluation when queued, before the
/// first-ever fire, or with agenda items pending.
pub open spec fn pn_pre_fire(v: PnView, has_items: bool) -> PnView {
    let a = if v.exec_queued || !v.if_propagated || has_items { pn_eval(v, true) } else { v };
    PnView { exec_queued: false, ..a }
}

/// The fire boundary consumes the prediction.
pub open spec fn pn_post_fire(v: PnView) -> PnView {
    PnView { q: Seq::empty(), emit_rank: Map::empty(), ..v }
}

impl PnShadow {
    /// A fresh shadow: empty memories, nothing propagated.
    pub fn new(d_tid: TypeId, d_ep: u32, p_tid: TypeId, p_ep: u32) -> (r: Self)
        ensures
            r@ == (PnView {
                d_tid,
                d_ep,
                p_tid,
                p_ep,
                rtm: Seq::empty(),
                staged: Seq::empty(),
                d_staged: Seq::empty(),
                d_alive: Seq::empty(),
                if_propagated: false,
                if_blocked: false,
                smem_init: false,
                exec_queued: false,
                q: Seq::empty(),
                emit_rank: Map::empty(),
            }),
    {
        PnShadow {
            d_tid,
            d_ep,
            p_tid,
            p_ep,
            rtm: Vec::new(),
            staged: Vec::new(),
            d_staged: Vec::new(),
            d_alive: Vec::new(),
            if_propagated: false,
            if_blocked: false,
            smem_init: false,
            exec_queued: false,
            q: Vec::new(),
            emit_rank: HashMap::new(),
        }
    }

    /// Rebuild the rank map of `q`.
    pub fn rerank(&mut self)
        ensures
            final(self)@ == (PnView { emit_rank: rank_map(old(self)@.q), ..old(self)@ }),
    {
        self.emit_rank = build_rank(&self.q);
    }

    /// The released left propagates into the join (see `pn_join_left_ins`).
    pub fn join_left_ins(&mut self, pending: &mut Vec<FactId>)
        ensures
            (final(self)@, final(pending)@) == pn_join_left_ins(old(self)@, old(pending)@),
    {
        let mut pre: Vec<FactId> = Vec::new();
        extend_rev(&mut pre, &self.rtm);
        extend_rev(&mut self.rtm, &self.staged);
        extend_from(pending, &self.staged);
        self.staged = Vec::new();
        extend_from(pending, &pre);
        proof {
            assert(Seq::<FactId>::empty() + old(self).rtm@.reverse() =~= old(self).rtm@.reverse());
        }
    }

    /// One network evaluation (see `pn_eval`).
    pub fn eval(&mut self, fire_loop: bool)
        ensures
            final(self)@ == pn_eval(old(self)@, fire_loop),
    {
        let mut pending: Vec<FactId> = Vec::new();
        let left_at_start = self.if_propagated && !self.if_blocked;
        if !self.smem_init {
            self.smem_init = true;
            extend_rev(&mut self.rtm, &self.staged);
            self.staged = Vec::new();
        }
        let mut ops: Vec<StagedOp> = Vec::new();
        std::mem::swap(&mut ops, &mut self.d_staged);
        let ghost start = self@;
        let mut i: usize = 0;
        proof {
            assert(ops@.subrange(0, 0) =~= Seq::<StagedOp>::empty());
        }
        while i < ops.len()
            invariant
                i <= ops.len(),
                (self@, pending@) == pn_d_ops(start, Seq::empty(), ops@.subrange(0, i as int)),
            decreases ops.len() - i,
        {
            let (is_ins, d, _) = ops[i];
            proof {
                assert(ops@.subrange(0, i + 1).drop_last() =~= ops@.subrange(0, i as int));
                assert(ops@.subrange(0, i + 1).last() == ops@[i as int]);
            }
            if is_ins {
                self.d_alive.push(d);
                if self.if_propagated && !self.if_blocked {
                    self.if_blocked = true;
                    pending = Vec::new();
                    self.q = Vec::new();
                }
            } else {
                retain_ne(&mut self.d_alive, d);
                if self.d_alive.len() == 0 && self.if_propagated && self.if_blocked {
                    self.if_blocked = false;
                    self.join_left_ins(&mut pending);
                }
            }
            i = i + 1;
        }
        proof {
            assert(ops@.subrange(0, ops.len() as int) =~= ops@);
        }
        if left_at_start && self.staged.len() > 0 {
            extend_rev(&mut self.rtm, &self.staged);
            if !self.if_blocked {
                extend_from(&mut pending, &self.staged);
            }
            self.staged = Vec::new();
        }
        if fire_loop && !self.if_propagated {
            self.if_propagated = true;
            self.if_blocked = self.d_alive.len() > 0;
            if !self.if_blocked {
                self.join_left_ins(&mut pending);
            }
        }
        extend_from(&mut self.q, &pending);
        self.rerank();
    }

    /// A P insert (see `pn_on_p_insert`).
    pub fn on_p_insert(&mut self, id: FactId)
        ensures
            final(self)@ == pn_on_p_insert(old(self)@, id),
    {
        self.staged.push(id);
        if self.if_propagated && !self.if_blocked {
            self.exec_queued = true;
        }
    }

    /// A bare-P update (see `pn_on_p_update`).
    pub fn on_p_update(&mut self, id: FactId)
        ensures
            final(self)@ == pn_on_p_update(old(self)@, id),
    {
        vec_move_tail(&mut self.rtm, id);
    }

    /// A P delete (see `pn_on_p_delete`).
    pub fn on_p_delete(&mut self, id: FactId)
        ensures
            final(self)@ == pn_on_p_delete(old(self)@, id),
    {
        if crate::seqs::vec_contains(&self.staged, id) {
            vec_remove_first(&mut self.staged, id);
        } else {
            vec_remove_first(&mut self.rtm, id);
        }
        retain_ne(&mut self.q, id);
        self.rerank();
    }

    /// A blocker reaching working memory (see `pn_on_d_insert`).
    pub fn on_d_insert(&mut self, id: FactId, in_fire: bool, seq: u64)
        ensures
            final(self)@ == pn_on_d_insert(old(self)@, id, in_fire, seq),
    {
        self.d_staged.push((true, id, seq));
        if self.if_propagated && !self.if_blocked {
            self.exec_queued = true;
        }
        if in_fire && self.exec_queued {
            self.eval(false);
            self.exec_queued = false;
        }
    }

    /// A blocker leaving working memory (see `pn_on_d_delete`).
    pub fn on_d_delete(&mut self, id: FactId, in_fire: bool, churn: bool, seq: u64)
        ensures
            final(self)@ == pn_on_d_delete(old(self)@, id, in_fire, churn, seq),
    {
        if let Some(pos) = ops_find_ins(&self.d_staged, id) {
            self.d_staged.remove(pos);
            retain_ne(&mut self.d_alive, id);
            return;
        }
        let at = ops_del_pos(&self.d_staged, churn, seq);
        self.d_staged.insert(at, (false, id, seq));
        self.exec_queued = true;
        if in_fire {
            self.eval(false);
            self.exec_queued = false;
        }
    }

    /// The fire-call analog (see `pn_pre_fire`).
    pub fn pre_fire(&mut self, has_items: bool)
        ensures
            final(self)@ == pn_pre_fire(old(self)@, has_items),
    {
        if self.exec_queued || !self.if_propagated || has_items {
            self.eval(true);
        }
        self.exec_queued = false;
    }

    /// The fire boundary (see `pn_post_fire`).
    pub fn post_fire(&mut self)
        ensures
            final(self)@ == pn_post_fire(old(self)@),
    {
        self.q = Vec::new();
        self.emit_rank = HashMap::new();
    }
}

/// A P inserted and deleted before any evaluation annihilates in the
/// staged backlog: the shadow is left as it was, except that the executor
/// may have been queued and the emission queue is re-ranked.
pub proof fn law_pn_p_insert_delete_annihilates(v: PnView, id: FactId)
    requires
        !v.staged.contains(id),
        !v.q.contains(id),
    ensures
        pn_on_p_delete(pn_on_p_insert(v, id), id) == (PnView {
            exec_queued: pn_on_p_delete(pn_on_p_insert(v, id), id).exec_queued,
            emit_rank: rank_map(v.q),
            ..v
        }),
{
    let a = pn_on_p_insert(v, id);
    let n = v.staged.len() as int;
    assert(a.staged[n] == id);
    lemma_first_idx(a.staged, id);
    if first_idx(a.staged, id) < n {
        assert(v.staged[first_idx(a.staged, id)] == id);
    }
    assert(first_idx(a.staged, id) == n);
    assert(a.staged.remove(n) =~= v.staged);
    lemma_without_len(v.q, id);
    let r = pn_on_p_delete(a, id);
    assert(r =~= PnView { exec_queued: r.exec_queued, emit_rank: rank_map(v.q), ..v });
}

/// A blocker that reaches working memory and leaves it before any
/// evaluation annihilates: the not never sees either operation, and the
/// shadow is left as it was except that the executor may have been queued.
pub proof fn law_pn_d_insert_delete_annihilates(v: PnView, id: FactId, s1: u64, in_fire: bool, churn: bool, s2: u64)
    requires
        first_ins_idx(v.d_staged, id) == v.d_staged.len(),
        !v.d_alive.contains(id),
    ensures
        pn_on_d_delete(pn_on_d_insert(v, id, false, s1), id, in_fire, churn, s2) == (PnView {
            exec_queued: pn_on_d_delete(pn_on_d_insert(v, id, false, s1), id, in_fire, churn, s2).exec_queued,
            ..v
        }),
{
    let a = pn_on_d_insert(v, id, false, s1);
    let n = v.d_staged.len() as int;
    assert(a.d_staged == v.d_staged.push((true, id, s1)));
    lemma_first_ins_idx(v.d_staged, id);
    lemma_first_ins_idx(a.d_staged, id);
    if first_ins_idx(a.d_staged, id) < n {
        assert(a.d_staged[first_ins_idx(a.d_staged, id)] == v.d_staged[first_ins_idx(a.d_staged, id)]);
    }
    assert(a.d_staged[n].0 && a.d_staged[n].1 == id);
    assert(first_ins_idx(a.d_staged, id) == n);
    assert(a.d_staged.remove(n) =~= v.d_staged);
    lemma_without_len(v.d_alive, id);
    let r = pn_on_d_delete(a, id, in_fire, churn, s2);
    assert(r =~= PnView { exec_queued: r.exec_queued, ..v });
}

/// An update of a P outside the right memory (a still-staged P)
/// changes nothing.
pub proof fn law_pn_staged_update_is_noop(v: PnView, id: FactId)
    requires
        !v.rtm.contains(id),
    ensures
        pn_on_p_update(v, id) == v,
{
    lemma_first_idx(v.rtm, id);
    let r = pn_on_p_update(v, id);
    assert(r =~= v);
}

} // verus!
