//! The firing-order shadow of a gated `not <EVENT>() P()` rule with bare
//! patterns. It replays, per external operation, the propagation machinery
//! that decides the event-not firing order: the join's right-memory list
//! order (`rtm`) and its staged right-insert backlog (`staged`), the
//! per-arrival force-flush of event inserts, expiries that only register and
//! retract at quiescence in deadline order, bare-P updates as reorders, and
//! the segment linking history (the not unlinks on an event right-insert and
//! relinks at the last event retract; the join unlinks at an empty right
//! memory). At each fire boundary it ranks the predicted emission order
//! (`q`) for the rule's agenda picks (`emit_rank`).

use vstd::prelude::*;
use std::collections::HashMap;
use crate::seqs::{lemma_without_len, lemma_move_len, extend_from, extend_rev, retain_ne, without, vec_contains, vec_move_tail, vec_position, build_rank, rank_map, move_tail, hoist_front, lemma_first_idx, lemma_without_distinct, lemma_reverse_distinct, lemma_move_tail_distinct};
use crate::value::{FactId, TypeId};

verus! {

broadcast use vstd::std_specs::hash::group_hash_axioms;

/// Flush shadow of one gated event-not rule (see the module doc).
pub struct BfShadow {
    pub e0_tid: TypeId,
    pub e0_ep: u32,
    pub p_tid: TypeId,
    pub p_ep: u32,
    pub rtm: Vec<FactId>,
    pub staged: Vec<FactId>,
    pub e0_alive: Vec<FactId>,
    pub pending_exp: Vec<FactId>,
    pub not_linked: bool,
    pub join_count: u32,
    pub join_linked: bool,
    pub exec_queued: bool,
    pub if_blocked: bool,
    pub if_propagated: bool,
    /// Predicted emission order for the current fire cycle.
    pub q: Vec<FactId>,
    /// Fact -> rank in `q`, consumed by the gated pick.
    pub emit_rank: HashMap<FactId, usize>,
}

/// Mathematical state of a `BfShadow`.
#[verifier::ext_equal]
pub struct BfView {
    pub e0_tid: TypeId,
    pub e0_ep: u32,
    pub p_tid: TypeId,
    pub p_ep: u32,
    pub rtm: Seq<FactId>,
    pub staged: Seq<FactId>,
    pub e0_alive: Seq<FactId>,
    pub pending_exp: Seq<FactId>,
    pub not_linked: bool,
    pub join_count: u32,
    pub join_linked: bool,
    pub exec_queued: bool,
    pub if_blocked: bool,
    pub if_propagated: bool,
    pub q: Seq<FactId>,
    pub emit_rank: Map<FactId, usize>,
}

impl View for BfShadow {
    type V = BfView;

    open spec fn view(&self) -> BfView {
        BfView {
            e0_tid: self.e0_tid,
            e0_ep: self.e0_ep,
            p_tid: self.p_tid,
            p_ep: self.p_ep,
            rtm: self.rtm@,
            staged: self.staged@,
            e0_alive: self.e0_alive@,
            pending_exp: self.pending_exp@,
            not_linked: self.not_linked,
            join_count: self.join_count,
            join_linked: self.join_linked,
            exec_queued: self.exec_queued,
            if_blocked: self.if_blocked,
            if_propagated: self.if_propagated,
            q: self.q@,
            emit_rank: self.emit_rank@,
        }
    }
}

/// The join counter covers every P in the right memory and its backlog,
/// and the join is linked exactly while the counter is positive.
pub open spec fn bf_inv(v: BfView) -> bool {
    &&& v.join_count >= v.staged.len() + v.rtm.len()
    &&& v.join_linked == (v.join_count > 0)
}

/// Both the not and the join are linked.
pub open spec fn bf_segment_linked(v: BfView) -> bool {
    v.not_linked && v.join_linked
}

/// The staged right-inserts drain LIFO into `rtm`; with lefts present the
/// children reach the terminal in arrival order.
pub open spec fn bf_drain(v: BfView, emit: bool) -> BfView {
    BfView {
        rtm: v.rtm + v.staged.reverse(),
        q: if emit { v.q + v.staged } else { v.q },
        staged: Seq::empty(),
        ..v
    }
}

/// The not consumes its event operation: an insert unlinks a linked
/// segment and blocks a propagated left (its queued children die); a
/// retract reports whether it unblocks (the last live event gone).
pub open spec fn bf_e0_step(v: BfView, e0_op: Option<(bool, FactId)>) -> (BfView, bool) {
    match e0_op {
        Some((true, _)) => {
            let a = if bf_segment_linked(v) { BfView { not_linked: false, ..v } } else { v };
            if a.if_propagated && !a.if_blocked {
                (BfView { if_blocked: true, q: Seq::empty(), ..a }, false)
            } else {
                (a, false)
            }
        },
        Some((false, id)) => {
            let a = BfView { e0_alive: without(v.e0_alive, id), ..v };
            (a, a.if_propagated && a.if_blocked && a.e0_alive.len() == 0)
        },
        None => (v, false),
    }
}

/// One network evaluation: the not's event step, the join drain, an
/// unblock emitting `reverse(rtm)`, and (fire loop only) the first
/// propagation of the initial left.
pub open spec fn bf_eval_window(v: BfView, e0_op: Option<(bool, FactId)>, fire_loop: bool) -> BfView {
    let (v1, unblock) = bf_e0_step(v, e0_op);
    let v2 = bf_drain(v1, v1.if_propagated && !v1.if_blocked);
    let v3 = if unblock { BfView { if_blocked: false, q: v2.q + v2.rtm.reverse(), ..v2 } } else { v2 };
    if fire_loop && !v3.if_propagated {
        let blocked = v3.e0_alive.len() > 0;
        BfView {
            if_propagated: true,
            if_blocked: blocked,
            q: if blocked { v3.q } else { v3.q + v3.rtm.reverse() },
            ..v3
        }
    } else {
        v3
    }
}

/// The queue-position retract of a live event: relink at the last event,
/// queue the executor while linked, then evaluate.
pub open spec fn bf_retract_event(v: BfView, id: FactId) -> BfView {
    let a = if v.e0_alive.len() == 1 {
        BfView { not_linked: true, exec_queued: true, ..v }
    } else if bf_segment_linked(v) {
        BfView { exec_queued: true, ..v }
    } else {
        v
    };
    bf_eval_window(a, Some((false, id)), false)
}

/// Quiescence retracts of the registered expirations, in order (events
/// deleted after registration are skipped).
pub open spec fn bf_expire_all(v: BfView, ids: Seq<FactId>) -> BfView
    decreases ids.len(),
{
    if ids.len() == 0 {
        v
    } else {
        let w = bf_expire_all(v, ids.drop_last());
        if w.e0_alive.contains(ids.last()) {
            bf_retract_event(w, ids.last())
        } else {
            w
        }
    }
}


/// An external event insert: staging queues the executor iff the segment
/// is linked (read before the unlink), then the stream force-flush; an
/// event already due at its insertion registers its expiry.
pub open spec fn bf_on_e0_insert(v: BfView, id: FactId, due_now: bool) -> BfView {
    let a = if bf_segment_linked(v) { BfView { exec_queued: true, ..v } } else { v };
    let b = BfView { e0_alive: a.e0_alive.push(id), ..a };
    let c = bf_eval_window(b, Some((true, id)), false);
    if due_now { BfView { pending_exp: c.pending_exp.push(id), ..c } } else { c }
}

/// An external P insert stages; the counter's first P links the join (and
/// queues iff that completes the segment), otherwise the first staged P
/// queues iff linked.
pub open spec fn bf_on_p_insert(v: BfView, id: FactId) -> BfView {
    let a = BfView { staged: v.staged.push(id), join_count: (v.join_count + 1) as u32, ..v };
    if a.join_count == 1 {
        let b = BfView { join_linked: true, ..a };
        if bf_segment_linked(b) { BfView { exec_queued: true, ..b } } else { b }
    } else if v.staged.len() == 0 && bf_segment_linked(a) {
        BfView { exec_queued: true, ..a }
    } else {
        a
    }
}

/// A bare-P update moves it to the tail of `rtm` (a still-staged P is
/// untouched); an already-formed emission queue hoists it to the front and
/// is re-ranked.
pub open spec fn bf_on_p_update(v: BfView, id: FactId) -> BfView {
    let a = BfView { rtm: move_tail(v.rtm, id), ..v };
    if a.q.contains(id) {
        BfView { q: hoist_front(a.q, id), emit_rank: rank_map(hoist_front(a.q, id)), ..a }
    } else {
        a
    }
}

/// An explicit delete: a live event retracts at its queue position; a P
/// decrements the join counter (unlinking at zero, else queueing while
/// linked), annihilates its staged insert or leaves `rtm`, and its queued
/// emission is cancelled.
pub open spec fn bf_on_delete(v: BfView, id: FactId) -> BfView {
    if v.e0_alive.contains(id) {
        bf_retract_event(BfView { pending_exp: without(v.pending_exp, id), ..v }, id)
    } else {
        let in_staged = v.staged.contains(id);
        let in_rtm = v.rtm.contains(id);
        let a = if in_staged || in_rtm {
            let c = (v.join_count - 1) as u32;
            if c == 0 {
                BfView { join_count: c, join_linked: false, ..v }
            } else if bf_segment_linked(v) {
                BfView { join_count: c, exec_queued: true, ..v }
            } else {
                BfView { join_count: c, ..v }
            }
        } else {
            v
        };
        let b = if in_staged {
            BfView { staged: without(a.staged, id), ..a }
        } else if in_rtm {
            BfView { rtm: without(a.rtm, id), ..a }
        } else {
            a
        };
        BfView { q: without(b.q, id), ..b }
    }
}

/// A clock advance made a live event's deadline due: register it once.
pub open spec fn bf_on_advance_due(v: BfView, id: FactId) -> BfView {
    if v.e0_alive.contains(id) && !v.pending_exp.contains(id) {
        BfView { pending_exp: v.pending_exp.push(id), ..v }
    } else {
        v
    }
}

/// The fire-call analog: the fire-loop evaluation if queued, then the
/// quiescence retracts in registration order, then a still-staged initial
/// left processes if a relink queued the executor; the emitted order is
/// ranked.
pub open spec fn bf_pre_fire(v: BfView) -> BfView {
    let a = if v.exec_queued { BfView { exec_queued: false, ..bf_eval_window(v, None, true) } } else { v };
    let b = bf_expire_all(BfView { pending_exp: Seq::empty(), ..a }, a.pending_exp);
    let c = if b.exec_queued && !b.if_propagated { bf_eval_window(b, None, true) } else { b };
    BfView { exec_queued: false, emit_rank: rank_map(c.q), ..c }
}

/// The fire boundary consumes the prediction.
pub open spec fn bf_post_fire(v: BfView) -> BfView {
    BfView { q: Seq::empty(), emit_rank: Map::empty(), ..v }
}

/// Evaluation keeps the P memories' total size and the counter.
pub proof fn lemma_bf_eval_keeps_inv(v: BfView, e0_op: Option<(bool, FactId)>, fire_loop: bool)
    ensures
        bf_eval_window(v, e0_op, fire_loop).join_count == v.join_count,
        bf_eval_window(v, e0_op, fire_loop).staged.len() + bf_eval_window(v, e0_op, fire_loop).rtm.len()
            == v.staged.len() + v.rtm.len(),
        bf_eval_window(v, e0_op, fire_loop).pending_exp == v.pending_exp,
{
}

/// The expiry sweep keeps the P memories' total size and the counter.
pub proof fn lemma_bf_expire_keeps_inv(v: BfView, ids: Seq<FactId>)
    ensures
        bf_expire_all(v, ids).join_count == v.join_count,
        bf_expire_all(v, ids).staged.len() + bf_expire_all(v, ids).rtm.len() == v.staged.len() + v.rtm.len(),
        bf_expire_all(v, ids).pending_exp == v.pending_exp,
    decreases ids.len(),
{
    if ids.len() > 0 {
        lemma_bf_expire_keeps_inv(v, ids.drop_last());
        let w = bf_expire_all(v, ids.drop_last());
        let a = if w.e0_alive.len() == 1 {
            BfView { not_linked: true, exec_queued: true, ..w }
        } else if bf_segment_linked(w) {
            BfView { exec_queued: true, ..w }
        } else {
            w
        };
        lemma_bf_eval_keeps_inv(a, Some((false, ids.last())), false);
    }
}

impl BfShadow {
    /// A fresh shadow: empty memories, the not linked, nothing propagated.
    pub fn new(e0_tid: TypeId, e0_ep: u32, p_tid: TypeId, p_ep: u32) -> (r: Self)
        ensures
            r@ == (BfView {
                e0_tid,
                e0_ep,
                p_tid,
                p_ep,
                rtm: Seq::empty(),
                staged: Seq::empty(),
                e0_alive: Seq::empty(),
                pending_exp: Seq::empty(),
                not_linked: true,
                join_count: 0,
                join_linked: false,
                exec_queued: false,
                if_blocked: false,
                if_propagated: false,
                q: Seq::empty(),
                emit_rank: Map::empty(),
            }),
            bf_inv(r@),
            bf_exact(r@),
    {
        BfShadow {
            e0_tid,
            e0_ep,
            p_tid,
            p_ep,
            rtm: Vec::new(),
            staged: Vec::new(),
            e0_alive: Vec::new(),
            pending_exp: Vec::new(),
            not_linked: true,
            join_count: 0,
            join_linked: false,
            exec_queued: false,
            if_blocked: false,
            if_propagated: false,
            q: Vec::new(),
            emit_rank: HashMap::new(),
        }
    }

    /// Whether the rule's segment is linked (not and join both linked).
    pub fn segment_linked(&self) -> (r: bool)
        ensures
            r == bf_segment_linked(self@),
    {
        self.not_linked && self.join_linked
    }

    /// Drain the staged right-inserts into `rtm` (see `bf_drain`).
    pub fn drain(&mut self, emit_children: bool)
        ensures
            final(self)@ == bf_drain(old(self)@, emit_children),
    {
        extend_rev(&mut self.rtm, &self.staged);
        if emit_children {
            extend_from(&mut self.q, &self.staged);
        }
        self.staged = Vec::new();
    }

    /// One network evaluation (see `bf_eval_window`).
    pub fn eval_window(&mut self, e0_op: Option<(bool, FactId)>, fire_loop: bool)
        ensures
            final(self)@ == bf_eval_window(old(self)@, e0_op, fire_loop),
    {
        let mut unblock = false;
        if let Some((is_ins, id)) = e0_op {
            if is_ins {
                if self.segment_linked() {
                    self.not_linked = false;
                }
                if self.if_propagated && !self.if_blocked {
                    self.if_blocked = true;
                    self.q = Vec::new();
                }
            } else {
                retain_ne(&mut self.e0_alive, id);
                if self.if_propagated && self.if_blocked && self.e0_alive.len() == 0 {
                    unblock = true;
                }
            }
        }
        let emit = self.if_propagated && !self.if_blocked;
        self.drain(emit);
        if unblock {
            self.if_blocked = false;
            extend_rev(&mut self.q, &self.rtm);
        }
        if fire_loop && !self.if_propagated {
            self.if_propagated = true;
            self.if_blocked = self.e0_alive.len() > 0;
            if !self.if_blocked {
                extend_rev(&mut self.q, &self.rtm);
            }
        }
    }

    /// An external event insert (see `bf_on_e0_insert`).
    pub fn on_e0_insert(&mut self, id: FactId, due_now: bool)
        requires
            bf_inv(old(self)@),
        ensures
            final(self)@ == bf_on_e0_insert(old(self)@, id, due_now),
            bf_inv(final(self)@),
            bf_exact(old(self)@) ==> bf_exact(final(self)@),
    {
        proof {
            if bf_exact(self@) {
                law_bf_join_count_exact(self@, id, due_now, None, false);
            }
        }
        if self.segment_linked() {
            self.exec_queued = true;
        }
        self.e0_alive.push(id);
        let ghost mid = self@;
        self.eval_window(Some((true, id)), false);
        proof {
            lemma_bf_eval_keeps_inv(mid, Some((true, id)), false);
        }
        if due_now {
            self.pending_exp.push(id);
        }
    }

    /// An external P insert (see `bf_on_p_insert`).
    pub fn on_p_insert(&mut self, id: FactId)
        requires
            bf_inv(old(self)@),
            old(self).join_count < u32::MAX,
        ensures
            final(self)@ == bf_on_p_insert(old(self)@, id),
            bf_inv(final(self)@),
            bf_exact(old(self)@) && !old(self)@.staged.contains(id) && !old(self)@.rtm.contains(id) ==> bf_exact(final(self)@),
    {
        proof {
            if bf_exact(self@) {
                law_bf_join_count_exact(self@, id, false, None, false);
            }
        }
        let staged_was_empty = self.staged.len() == 0;
        self.staged.push(id);
        self.join_count = self.join_count + 1;
        if self.join_count == 1 {
            self.join_linked = true;
            if self.segment_linked() {
                self.exec_queued = true;
            }
        } else if staged_was_empty && self.segment_linked() {
            self.exec_queued = true;
        }
    }

    /// An external bare-P update (see `bf_on_p_update`).
    pub fn on_p_update(&mut self, id: FactId)
        requires
            bf_inv(old(self)@),
        ensures
            final(self)@ == bf_on_p_update(old(self)@, id),
            bf_inv(final(self)@),
            bf_exact(old(self)@) ==> bf_exact(final(self)@),
    {
        proof {
            if bf_exact(self@) {
                law_bf_join_count_exact(self@, id, false, None, false);
            }
        }
        proof {
            lemma_move_len(self.rtm@, id);
            lemma_first_idx(self.q@, id);
        }
        vec_move_tail(&mut self.rtm, id);
        if let Some(pos) = vec_position(&self.q, id) {
            self.q.remove(pos);
            self.q.insert(0, id);
            proof {
                assert(self.q@ =~= hoist_front(old(self).q@, id));
            }
            self.emit_rank = build_rank(&self.q);
        }
    }

    /// An explicit external delete (see `bf_on_delete`).
    pub fn on_delete(&mut self, id: FactId)
        requires
            bf_inv(old(self)@),
        ensures
            final(self)@ == bf_on_delete(old(self)@, id),
            bf_inv(final(self)@),
            bf_exact(old(self)@) ==> bf_exact(final(self)@),
    {
        proof {
            if bf_exact(self@) {
                law_bf_join_count_exact(self@, id, false, None, false);
            }
        }
        if vec_contains(&self.e0_alive, id) {
            retain_ne(&mut self.pending_exp, id);
            if self.e0_alive.len() == 1 {
                self.not_linked = true;
                self.exec_queued = true;
            } else if self.segment_linked() {
                self.exec_queued = true;
            }
            let ghost mid = self@;
            self.eval_window(Some((false, id)), false);
            proof {
                lemma_bf_eval_keeps_inv(mid, Some((false, id)), false);
            }
            return;
        }
        let in_staged = vec_contains(&self.staged, id);
        let in_rtm = vec_contains(&self.rtm, id);
        proof {
            lemma_without_len(self.staged@, id);
            lemma_without_len(self.rtm@, id);
            if in_staged {
                assert(self.staged@.len() >= 1);
            }
            if in_rtm {
                assert(self.rtm@.len() >= 1);
            }
        }
        if in_staged || in_rtm {
            self.join_count = self.join_count - 1;
            if self.join_count == 0 {
                self.join_linked = false;
            } else if self.segment_linked() {
                self.exec_queued = true;
            }
        }
        if in_staged {
            retain_ne(&mut self.staged, id);
        } else if in_rtm {
            retain_ne(&mut self.rtm, id);
        }
        retain_ne(&mut self.q, id);
    }

    /// A clock advance made this event due (see `bf_on_advance_due`).
    pub fn on_advance_due(&mut self, id: FactId)
        requires
            bf_inv(old(self)@),
        ensures
            final(self)@ == bf_on_advance_due(old(self)@, id),
            bf_inv(final(self)@),
            bf_exact(old(self)@) ==> bf_exact(final(self)@),
    {
        proof {
            if bf_exact(self@) {
                law_bf_join_count_exact(self@, id, false, None, false);
            }
        }
        if vec_contains(&self.e0_alive, id) && !vec_contains(&self.pending_exp, id) {
            self.pending_exp.push(id);
        }
    }

    /// The fire-call analog (see `bf_pre_fire`).
    pub fn pre_fire(&mut self)
        requires
            bf_inv(old(self)@),
        ensures
            final(self)@ == bf_pre_fire(old(self)@),
            bf_inv(final(self)@),
            bf_exact(old(self)@) ==> bf_exact(final(self)@),
    {
        proof {
            if bf_exact(self@) {
                law_bf_join_count_exact(self@, 0, false, None, false);
            }
        }
        if self.exec_queued {
            let ghost v0 = self@;
            self.eval_window(None, true);
            self.exec_queued = false;
            proof {
                lemma_bf_eval_keeps_inv(v0, None, true);
            }
        }
        let ghost a = self@;
        let mut ids: Vec<FactId> = Vec::new();
        std::mem::swap(&mut ids, &mut self.pending_exp);
        let ghost start = self@;
        let mut i: usize = 0;
        proof {
            assert(ids@.subrange(0, 0) =~= Seq::<FactId>::empty());
            assert(start == BfView { pending_exp: Seq::empty(), ..a });
        }
        while i < ids.len()
            invariant
                i <= ids.len(),
                self@ == bf_expire_all(start, ids@.subrange(0, i as int)),
                bf_inv(self@),
            decreases ids.len() - i,
        {
            let id = ids[i];
            proof {
                assert(ids@.subrange(0, i + 1).drop_last() =~= ids@.subrange(0, i as int));
                assert(ids@.subrange(0, i + 1).last() == id);
            }
            if vec_contains(&self.e0_alive, id) {
                if self.e0_alive.len() == 1 {
                    self.not_linked = true;
                    self.exec_queued = true;
                } else if self.segment_linked() {
                    self.exec_queued = true;
                }
                let ghost mid = self@;
                self.eval_window(Some((false, id)), false);
                proof {
                    lemma_bf_eval_keeps_inv(mid, Some((false, id)), false);
                }
            }
            i = i + 1;
        }
        proof {
            assert(ids@.subrange(0, ids.len() as int) =~= ids@);
        }
        if self.exec_queued && !self.if_propagated {
            let ghost v2 = self@;
            self.eval_window(None, true);
            proof {
                lemma_bf_eval_keeps_inv(v2, None, true);
            }
        }
        self.exec_queued = false;
        self.emit_rank = build_rank(&self.q);
    }

    /// The fire boundary (see `bf_post_fire`).
    pub fn post_fire(&mut self)
        ensures
            final(self)@ == bf_post_fire(old(self)@),
            bf_exact(old(self)@) ==> bf_exact(final(self)@),
    {
        proof {
            if bf_exact(self@) {
                law_bf_join_count_exact(self@, 0, false, None, false);
            }
        }
        self.q = Vec::new();
        self.emit_rank = HashMap::new();
    }
}

/// A P inserted and explicitly deleted before any evaluation annihilates
/// in the staged backlog: the shadow is left as it was, except that the
/// executor may have been queued.
pub proof fn law_bf_p_insert_delete_annihilates(v: BfView, id: FactId)
    requires
        bf_inv(v),
        v.join_count < u32::MAX,
        !v.staged.contains(id),
        !v.rtm.contains(id),
        !v.e0_alive.contains(id),
        !v.q.contains(id),
    ensures
        bf_on_delete(bf_on_p_insert(v, id), id) == (BfView {
            exec_queued: bf_on_delete(bf_on_p_insert(v, id), id).exec_queued,
            ..v
        }),
{
    let a = bf_on_p_insert(v, id);
    assert(a.staged == v.staged.push(id));
    assert(a.staged.contains(id)) by {
        assert(a.staged[v.staged.len() as int] == id);
    }
    assert(without(a.staged, id) == v.staged) by {
        lemma_without_len(v.staged, id);
        assert(a.staged.drop_last() =~= v.staged);
    }
    lemma_without_len(v.q, id);
    let r = bf_on_delete(a, id);
    assert(r =~= BfView { exec_queued: r.exec_queued, ..v });
}

/// An update of a P outside the right memory and the emission queue (a still-staged P)
/// changes nothing.
pub proof fn law_bf_staged_update_is_noop(v: BfView, id: FactId)
    requires
        !v.rtm.contains(id),
        !v.q.contains(id),
    ensures
        bf_on_p_update(v, id) == v,
{
    lemma_first_idx(v.rtm, id);
    let r = bf_on_p_update(v, id);
    assert(r =~= v);
}

/// Every P is held once: no repeat in the right memory or in the backlog,
/// and none in both.
pub open spec fn bf_distinct(v: BfView) -> bool {
    &&& v.rtm.no_duplicates()
    &&& v.staged.no_duplicates()
    &&& v.rtm.disjoint(v.staged)
}

/// With every P held once, the join counter is exactly the size of the P
/// memories (and the join is linked exactly while it is positive).
pub open spec fn bf_exact(v: BfView) -> bool {
    &&& bf_inv(v)
    &&& bf_distinct(v)
    &&& v.join_count == v.staged.len() + v.rtm.len()
}

/// The drain keeps the counter exact.
proof fn lemma_bf_drain_exact(v: BfView, emit: bool)
    requires
        bf_exact(v),
    ensures
        bf_exact(bf_drain(v, emit)),
{
    lemma_reverse_distinct(v.staged);
    let r = v.staged.reverse();
    assert(v.rtm.disjoint(r)) by {
        assert forall|i: int, j: int| 0 <= i < v.rtm.len() && 0 <= j < r.len() implies v.rtm[i] != r[j] by {
            assert(r.contains(r[j]));
            assert(v.staged.contains(r[j]));
            let k = choose|k: int| 0 <= k < v.staged.len() && v.staged[k] == r[j];
            assert(v.rtm[i] != v.staged[k]);
        }
    }
    vstd::seq_lib::lemma_no_dup_in_concat(v.rtm, r);
}

/// One evaluation keeps the counter exact.
proof fn lemma_bf_eval_exact(v: BfView, e0_op: Option<(bool, FactId)>, fire_loop: bool)
    requires
        bf_exact(v),
    ensures
        bf_exact(bf_eval_window(v, e0_op, fire_loop)),
{
    let (v1, unblock) = bf_e0_step(v, e0_op);
    assert(v1.rtm == v.rtm && v1.staged == v.staged && v1.join_count == v.join_count && v1.join_linked == v.join_linked);
    lemma_bf_drain_exact(v1, v1.if_propagated && !v1.if_blocked);
}

/// The quiescence retracts keep the counter exact.
proof fn lemma_bf_expire_exact(v: BfView, ids: Seq<FactId>)
    requires
        bf_exact(v),
    ensures
        bf_exact(bf_expire_all(v, ids)),
    decreases ids.len(),
{
    if ids.len() > 0 {
        lemma_bf_expire_exact(v, ids.drop_last());
        let w = bf_expire_all(v, ids.drop_last());
        let a = if w.e0_alive.len() == 1 {
            BfView { not_linked: true, exec_queued: true, ..w }
        } else if bf_segment_linked(w) {
            BfView { exec_queued: true, ..w }
        } else {
            w
        };
        lemma_bf_eval_exact(a, Some((false, ids.last())), false);
    }
}

/// A distinct list with one element removed keeps being disjoint from
/// another list.
proof fn lemma_disjoint_without(a: Seq<FactId>, b: Seq<FactId>, x: FactId)
    requires
        a.no_duplicates(),
        a.disjoint(b),
    ensures
        without(a, x).disjoint(b),
        b.disjoint(without(a, x)),
{
    lemma_without_distinct(a, x);
    let w = without(a, x);
    assert forall|i: int, j: int| 0 <= i < w.len() && 0 <= j < b.len() implies w[i] != b[j] by {
        assert(w.contains(w[i]));
        let k = choose|k: int| 0 <= k < a.len() && a[k] == w[i];
        assert(a[k] != b[j]);
    }
}

/// The join counter counts the P memories exactly: a fresh shadow has it,
/// and every operation keeps it, provided a P handed to `on_p_insert` is
/// not already held. So in every state reached from `new` by such
/// operations, `join_count == |staged| + |rtm|`, and the join is linked
/// exactly while that is positive.
pub proof fn law_bf_join_count_exact(v: BfView, id: FactId, due_now: bool, e0_op: Option<(bool, FactId)>, fire_loop: bool)
    requires
        bf_exact(v),
    ensures
        bf_exact(bf_eval_window(v, e0_op, fire_loop)),
        bf_exact(bf_on_e0_insert(v, id, due_now)),
        !v.staged.contains(id) && !v.rtm.contains(id) && v.join_count < u32::MAX ==> bf_exact(bf_on_p_insert(v, id)),
        bf_exact(bf_on_p_update(v, id)),
        bf_exact(bf_on_delete(v, id)),
        bf_exact(bf_on_advance_due(v, id)),
        bf_exact(bf_pre_fire(v)),
        bf_exact(bf_post_fire(v)),
{
    lemma_bf_eval_exact(v, e0_op, fire_loop);
    // event insert
    let a = if bf_segment_linked(v) { BfView { exec_queued: true, ..v } } else { v };
    let b = BfView { e0_alive: a.e0_alive.push(id), ..a };
    lemma_bf_eval_exact(b, Some((true, id)), false);
    // P insert
    if !v.staged.contains(id) && !v.rtm.contains(id) && v.join_count < u32::MAX {
        let st = v.staged.push(id);
        assert(st.no_duplicates()) by {
            assert forall|i: int, j: int| 0 <= i < st.len() && 0 <= j < st.len() && i != j implies st[i] != st[j] by {
                if i < v.staged.len() && j < v.staged.len() {
                } else if i < v.staged.len() {
                    assert(v.staged.contains(st[i]));
                } else if j < v.staged.len() {
                    assert(v.staged.contains(st[j]));
                }
            }
        }
        assert(v.rtm.disjoint(st)) by {
            assert forall|i: int, j: int| 0 <= i < v.rtm.len() && 0 <= j < st.len() implies v.rtm[i] != st[j] by {
                if j == v.staged.len() {
                    assert(v.rtm.contains(v.rtm[i]));
                }
            }
        }
    }
    // P update
    lemma_move_tail_distinct(v.rtm, id);
    let m = move_tail(v.rtm, id);
    assert(m.disjoint(v.staged)) by {
        assert forall|i: int, j: int| 0 <= i < m.len() && 0 <= j < v.staged.len() implies m[i] != v.staged[j] by {
            assert(m.contains(m[i]));
            let k = choose|k: int| 0 <= k < v.rtm.len() && v.rtm[k] == m[i];
            assert(v.rtm[k] != v.staged[j]);
        }
    }
    // delete
    if v.e0_alive.contains(id) {
        let w = BfView { pending_exp: without(v.pending_exp, id), ..v };
        let a2 = if w.e0_alive.len() == 1 {
            BfView { not_linked: true, exec_queued: true, ..w }
        } else if bf_segment_linked(w) {
            BfView { exec_queued: true, ..w }
        } else {
            w
        };
        lemma_bf_eval_exact(a2, Some((false, id)), false);
    } else {
        lemma_without_distinct(v.staged, id);
        lemma_without_distinct(v.rtm, id);
        lemma_disjoint_without(v.staged, v.rtm, id);
        lemma_disjoint_without(v.rtm, v.staged, id);
        if v.staged.contains(id) {
            assert(!v.rtm.contains(id)) by {
                let k = choose|k: int| 0 <= k < v.staged.len() && v.staged[k] == id;
                if v.rtm.contains(id) {
                    let i = choose|i: int| 0 <= i < v.rtm.len() && v.rtm[i] == id;
                    assert(v.rtm[i] != v.staged[k]);
                }
            }
        }
    }
    // fire
    let a3 = if v.exec_queued { BfView { exec_queued: false, ..bf_eval_window(v, None, true) } } else { v };
    lemma_bf_eval_exact(v, None, true);
    let b3 = BfView { pending_exp: Seq::empty(), ..a3 };
    lemma_bf_expire_exact(b3, a3.pending_exp);
    let c3 = bf_expire_all(b3, a3.pending_exp);
    lemma_bf_eval_exact(c3, None, true);
}

/// Fact `x` is in the P memories (the right memory or its backlog).
pub open spec fn bf_holds(v: BfView, x: FactId) -> bool {
    v.staged.contains(x) || v.rtm.contains(x)
}

/// The drain keeps the P memories' members.
proof fn lemma_bf_drain_holds(v: BfView, emit: bool)
    ensures
        forall|x: FactId| #[trigger] bf_holds(bf_drain(v, emit), x) ==> bf_holds(v, x),
{
    lemma_reverse_distinct(v.staged);
    let r = v.rtm + v.staged.reverse();
    assert forall|x: FactId| #[trigger] bf_holds(bf_drain(v, emit), x) implies bf_holds(v, x) by {
        if r.contains(x) {
            let k = choose|k: int| 0 <= k < r.len() && r[k] == x;
            if k < v.rtm.len() {
                assert(v.rtm[k] == x);
            } else {
                assert(v.staged.reverse()[k - v.rtm.len()] == x);
                assert(v.staged.reverse().contains(x));
            }
        }
    }
}

/// An evaluation keeps the P memories' members.
proof fn lemma_bf_eval_holds(v: BfView, e0_op: Option<(bool, FactId)>, fire_loop: bool)
    ensures
        forall|x: FactId| #[trigger] bf_holds(bf_eval_window(v, e0_op, fire_loop), x) ==> bf_holds(v, x),
{
    let (v1, unblock) = bf_e0_step(v, e0_op);
    assert(v1.rtm == v.rtm && v1.staged == v.staged);
    lemma_bf_drain_holds(v1, v1.if_propagated && !v1.if_blocked);
}

/// The quiescence retracts keep the P memories' members.
proof fn lemma_bf_expire_holds(v: BfView, ids: Seq<FactId>)
    ensures
        forall|x: FactId| #[trigger] bf_holds(bf_expire_all(v, ids), x) ==> bf_holds(v, x),
    decreases ids.len(),
{
    if ids.len() > 0 {
        lemma_bf_expire_holds(v, ids.drop_last());
        let w = bf_expire_all(v, ids.drop_last());
        let a = if w.e0_alive.len() == 1 {
            BfView { not_linked: true, exec_queued: true, ..w }
        } else if bf_segment_linked(w) {
            BfView { exec_queued: true, ..w }
        } else {
            w
        };
        lemma_bf_eval_holds(a, Some((false, ids.last())), false);
        assert forall|x: FactId| #[trigger] bf_holds(bf_expire_all(v, ids), x) implies bf_holds(v, x) by {
            if w.e0_alive.contains(ids.last()) {
                assert(bf_holds(a, x));
            }
            assert(bf_holds(w, x));
        }
    }
}

/// One external operation on the shadow, as its method takes it.
pub enum BfOp {
    E0Insert(FactId, bool),
    PInsert(FactId),
    PUpdate(FactId),
    Delete(FactId),
    AdvanceDue(FactId),
    PreFire,
    PostFire,
}

/// The state after one operation (the method's contract).
pub open spec fn bf_step(v: BfView, op: BfOp) -> BfView {
    match op {
        BfOp::E0Insert(id, due) => bf_on_e0_insert(v, id, due),
        BfOp::PInsert(id) => bf_on_p_insert(v, id),
        BfOp::PUpdate(id) => bf_on_p_update(v, id),
        BfOp::Delete(id) => bf_on_delete(v, id),
        BfOp::AdvanceDue(id) => bf_on_advance_due(v, id),
        BfOp::PreFire => bf_pre_fire(v),
        BfOp::PostFire => bf_post_fire(v),
    }
}

/// The state after a sequence of operations.
pub open spec fn bf_run(v: BfView, ops: Seq<BfOp>) -> BfView
    decreases ops.len(),
{
    if ops.len() == 0 {
        v
    } else {
        bf_step(bf_run(v, ops.drop_last()), ops.last())
    }
}

/// The state `BfShadow::new` gives.
pub open spec fn bf_fresh(e0_tid: TypeId, e0_ep: u32, p_tid: TypeId, p_ep: u32) -> BfView {
    BfView {
        e0_tid,
        e0_ep,
        p_tid,
        p_ep,
        rtm: Seq::empty(),
        staged: Seq::empty(),
        e0_alive: Seq::empty(),
        pending_exp: Seq::empty(),
        not_linked: true,
        join_count: 0,
        join_linked: false,
        exec_queued: false,
        if_blocked: false,
        if_propagated: false,
        q: Seq::empty(),
        emit_rank: Map::empty(),
    }
}

/// No fact is P-inserted twice in `ops`.
pub open spec fn p_inserts_fresh(ops: Seq<BfOp>) -> bool {
    forall|i: int, j: int|
        0 <= i < j < ops.len() ==> !(#[trigger] ops[i] matches BfOp::PInsert(a) && #[trigger] ops[j] matches BfOp::PInsert(b) && a == b)
}

/// The P facts inserted among the first `k` operations.
pub open spec fn p_inserted(ops: Seq<BfOp>, k: int, x: FactId) -> bool {
    exists|i: int| 0 <= i < k && #[trigger] ops[i] == BfOp::PInsert(x)
}

/// The run invariant after `k` operations.
spec fn bf_run_inv(ops: Seq<BfOp>, k: int, w: BfView) -> bool {
    &&& bf_exact(w)
    &&& w.join_count <= k
    &&& forall|x: FactId| #[trigger] bf_holds(w, x) ==> p_inserted(ops, k, x)
}

/// One operation keeps the run invariant.
proof fn lemma_bf_run_step(ops: Seq<BfOp>, k: int, w: BfView)
    requires
        0 <= k < ops.len(),
        ops.len() < u32::MAX,
        p_inserts_fresh(ops),
        bf_run_inv(ops, k, w),
    ensures
        bf_run_inv(ops, k + 1, bf_step(w, ops[k])),
{
    let op = ops[k];
    let w2 = bf_step(w, op);
    assert forall|x: FactId| p_inserted(ops, k, x) implies p_inserted(ops, k + 1, x) by {
        let i = choose|i: int| 0 <= i < k && #[trigger] ops[i] == BfOp::PInsert(x);
        assert(ops[i] == BfOp::PInsert(x));
    }
    match op {
        BfOp::E0Insert(id, due) => {
            law_bf_join_count_exact(w, id, due, None, false);
            let a = if bf_segment_linked(w) { BfView { exec_queued: true, ..w } } else { w };
            let b = BfView { e0_alive: a.e0_alive.push(id), ..a };
            lemma_bf_eval_holds(b, Some((true, id)), false);
            lemma_bf_eval_keeps_inv(b, Some((true, id)), false);
            let c = bf_eval_window(b, Some((true, id)), false);
            assert(w2.join_count == c.join_count);
            assert forall|x: FactId| #[trigger] bf_holds(w2, x) implies p_inserted(ops, k + 1, x) by {
                assert(bf_holds(c, x));
                assert(bf_holds(b, x));
                assert(bf_holds(w, x));
            }
        },
        BfOp::PInsert(id) => {
            assert(!bf_holds(w, id)) by {
                if bf_holds(w, id) {
                    let i = choose|i: int| 0 <= i < k && #[trigger] ops[i] == BfOp::PInsert(id);
                    assert(ops[i] matches BfOp::PInsert(a) && ops[k] matches BfOp::PInsert(b) && a == b);
                }
            }
            law_bf_join_count_exact(w, id, false, None, false);
            assert(ops[k] == BfOp::PInsert(id));
            assert forall|x: FactId| #[trigger] bf_holds(w2, x) implies p_inserted(ops, k + 1, x) by {
                if x != id {
                    assert(w2.staged == w.staged.push(id));
                    if w2.staged.contains(x) {
                        let j = choose|j: int| 0 <= j < w2.staged.len() && w2.staged[j] == x;
                        assert(w.staged[j] == x);
                    }
                    assert(bf_holds(w, x));
                }
            }
        },
        BfOp::PUpdate(id) => {
            law_bf_join_count_exact(w, id, false, None, false);
            lemma_move_tail_distinct(w.rtm, id);
            assert forall|x: FactId| #[trigger] bf_holds(w2, x) implies p_inserted(ops, k + 1, x) by {
                assert(bf_holds(w, x));
            }
        },
        BfOp::Delete(id) => {
            law_bf_join_count_exact(w, id, false, None, false);
            if w.e0_alive.contains(id) {
                let ww = BfView { pending_exp: without(w.pending_exp, id), ..w };
                let a2 = if ww.e0_alive.len() == 1 {
                    BfView { not_linked: true, exec_queued: true, ..ww }
                } else if bf_segment_linked(ww) {
                    BfView { exec_queued: true, ..ww }
                } else {
                    ww
                };
                lemma_bf_eval_holds(a2, Some((false, id)), false);
                lemma_bf_eval_keeps_inv(a2, Some((false, id)), false);
            } else {
                lemma_without_distinct(w.staged, id);
                lemma_without_distinct(w.rtm, id);
            }
            assert forall|x: FactId| #[trigger] bf_holds(w2, x) implies p_inserted(ops, k + 1, x) by {
                assert(bf_holds(w, x));
            }
        },
        BfOp::AdvanceDue(id) => {
            law_bf_join_count_exact(w, id, false, None, false);
            assert(w2.staged == w.staged && w2.rtm == w.rtm && w2.join_count == w.join_count);
            assert forall|x: FactId| #[trigger] bf_holds(w2, x) implies p_inserted(ops, k + 1, x) by {
                assert(bf_holds(w, x));
            }
        },
        BfOp::PreFire => {
            law_bf_join_count_exact(w, 0, false, None, false);
            let a3 = if w.exec_queued { BfView { exec_queued: false, ..bf_eval_window(w, None, true) } } else { w };
            lemma_bf_eval_holds(w, None, true);
            lemma_bf_eval_keeps_inv(w, None, true);
            let b3 = BfView { pending_exp: Seq::empty(), ..a3 };
            lemma_bf_expire_holds(b3, a3.pending_exp);
            lemma_bf_expire_keeps_inv(b3, a3.pending_exp);
            let c3 = bf_expire_all(b3, a3.pending_exp);
            lemma_bf_eval_holds(c3, None, true);
            lemma_bf_eval_keeps_inv(c3, None, true);
            assert forall|x: FactId| #[trigger] bf_holds(w2, x) implies p_inserted(ops, k + 1, x) by {
                assert(bf_holds(c3, x));
                assert(bf_holds(b3, x));
                assert(bf_holds(w, x));
            }
        },
        BfOp::PostFire => {
            law_bf_join_count_exact(w, 0, false, None, false);
            assert(w2.staged == w.staged && w2.rtm == w.rtm && w2.join_count == w.join_count);
            assert forall|x: FactId| #[trigger] bf_holds(w2, x) implies p_inserted(ops, k + 1, x) by {
                assert(bf_holds(w, x));
            }
        },
    }
}

/// The join counter counts the P memories in every state a fresh shadow
/// reaches, whatever its operations, as long as no P fact is inserted
/// twice: `join_count == |staged| + |rtm|`, and the join is linked exactly
/// while the counter is positive.
pub proof fn law_bf_join_count_counts_memories(e0_tid: TypeId, e0_ep: u32, p_tid: TypeId, p_ep: u32, ops: Seq<BfOp>)
    requires
        p_inserts_fresh(ops),
        ops.len() < u32::MAX,
    ensures
        bf_run(bf_fresh(e0_tid, e0_ep, p_tid, p_ep), ops).join_count == bf_run(bf_fresh(e0_tid, e0_ep, p_tid, p_ep), ops).staged.len()
            + bf_run(bf_fresh(e0_tid, e0_ep, p_tid, p_ep), ops).rtm.len(),
        bf_run(bf_fresh(e0_tid, e0_ep, p_tid, p_ep), ops).join_linked == (bf_run(bf_fresh(e0_tid, e0_ep, p_tid, p_ep), ops).join_count > 0),
        bf_exact(bf_run(bf_fresh(e0_tid, e0_ep, p_tid, p_ep), ops)),
{
    lemma_bf_run_prefix(bf_fresh(e0_tid, e0_ep, p_tid, p_ep), ops, ops.len() as int);
    assert(ops.subrange(0, ops.len() as int) =~= ops);
}

/// The run invariant holds after every prefix.
proof fn lemma_bf_run_prefix(v: BfView, ops: Seq<BfOp>, k: int)
    requires
        v == bf_fresh(v.e0_tid, v.e0_ep, v.p_tid, v.p_ep),
        0 <= k <= ops.len(),
        ops.len() < u32::MAX,
        p_inserts_fresh(ops),
    ensures
        bf_run_inv(ops, k, bf_run(v, ops.subrange(0, k))),
    decreases k,
{
    if k == 0 {
        assert(ops.subrange(0, 0) =~= Seq::<BfOp>::empty());
        assert forall|x: FactId| #[trigger] bf_holds(v, x) implies p_inserted(ops, 0, x) by {}
    } else {
        lemma_bf_run_prefix(v, ops, k - 1);
        let p = ops.subrange(0, k);
        assert(p.drop_last() =~= ops.subrange(0, k - 1));
        assert(p.last() == ops[k - 1]);
        lemma_bf_run_step(ops, k - 1, bf_run(v, ops.subrange(0, k - 1)));
    }
}

} // verus!
