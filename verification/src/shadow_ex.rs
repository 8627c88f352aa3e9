//! The firing-order shadow of a gated `exists <EVENT>() P()` rule with bare
//! patterns, the exists-side sibling of the event-not shadow. The initial
//! left stays staged at the exists until the first fire-loop evaluation
//! (an event force-flush processes rights only), so a first satisfaction
//! emits `reverse(rtm)` at the fire-loop evaluation while a re-satisfy
//! emits at the witness's own flush. The fire-loop evaluation runs only
//! when queued (the satisfy-link completing the segment, P staging while
//! witnessed, a terminal-reaching delete). An unsatisfy kills the children
//! and cancels queued emissions above the already-drained prefix
//! (`q_floor`); explicit witness deletes retract at their queue position,
//! expiries at quiescence in registration order.

use vstd::prelude::*;
use std::collections::HashMap;
use crate::seqs::{extend_from, extend_rev, retain_ne, without, vec_contains, vec_move_tail, build_rank, rank_map, move_tail, lemma_without_len, lemma_move_len, lemma_first_idx};
use crate::value::{FactId, TypeId};

verus! {

broadcast use vstd::std_specs::hash::group_hash_axioms;

/// Flush shadow of one gated event-exists rule (see the module doc).
pub struct ExShadow {
    pub e1_tid: TypeId,
    pub e1_ep: u32,
    pub p_tid: TypeId,
    pub p_ep: u32,
    pub rtm: Vec<FactId>,
    pub staged: Vec<FactId>,
    pub e1_alive: Vec<FactId>,
    pub pending_exp: Vec<FactId>,
    pub join_count: u32,
    pub if_staged: bool,
    pub if_through: bool,
    pub exec_queued: bool,
    /// Predicted emission order for the current fire cycle.
    pub q: Vec<FactId>,
    /// Length of the agenda-drained prefix of `q` that a quiescence
    /// unsatisfy cannot cancel.
    pub q_floor: usize,
    /// Fact -> rank in `q`, consumed by the gated pick.
    pub emit_rank: HashMap<FactId, usize>,
}

/// Mathematical state of an `ExShadow`.
#[verifier::ext_equal]
pub struct ExView {
    pub e1_tid: TypeId,
    pub e1_ep: u32,
    pub p_tid: TypeId,
    pub p_ep: u32,
    pub rtm: Seq<FactId>,
    pub staged: Seq<FactId>,
    pub e1_alive: Seq<FactId>,
    pub pending_exp: Seq<FactId>,
    pub join_count: u32,
    pub if_staged: bool,
    pub if_through: bool,
    pub exec_queued: bool,
    pub q: Seq<FactId>,
    pub q_floor: usize,
    pub emit_rank: Map<FactId, usize>,
}

impl View for ExShadow {
    type V = ExView;

    open spec fn view(&self) -> ExView {
        ExView {
            e1_tid: self.e1_tid,
            e1_ep: self.e1_ep,
            p_tid: self.p_tid,
            p_ep: self.p_ep,
            rtm: self.rtm@,
            staged: self.staged@,
            e1_alive: self.e1_alive@,
            pending_exp: self.pending_exp@,
            join_count: self.join_count,
            if_staged: self.if_staged,
            if_through: self.if_through,
            exec_queued: self.exec_queued,
            q: self.q@,
            q_floor: self.q_floor,
            emit_rank: self.emit_rank@,
        }
    }
}

/// The join counter covers every P in the right memory and its backlog.
pub open spec fn ex_inv(v: ExView) -> bool {
    v.join_count >= v.staged.len() + v.rtm.len()
}

/// The staged right-inserts drain LIFO into `rtm`; with the initial left
/// through, the children reach the terminal in arrival order.
pub open spec fn ex_drain(v: ExView, emit: bool) -> ExView {
    ExView {
        rtm: v.rtm + v.staged.reverse(),
        q: if emit { v.q + v.staged } else { v.q },
        staged: Seq::empty(),
        ..v
    }
}

/// `q` cut back to its first `n` entries.
pub open spec fn truncated(q: Seq<FactId>, n: usize) -> Seq<FactId> {
    if n <= q.len() {
        q.subrange(0, n as int)
    } else {
        q
    }
}

/// The exists consumes its witness operation: a first witness while the
/// left is resident (not staged, not through) re-satisfies; a retract of
/// the last witness while through unsatisfies (children die, queued
/// emissions above `q_floor` are cancelled).
pub open spec fn ex_e1_step(v: ExView, e1_op: Option<(bool, FactId)>) -> (ExView, bool) {
    match e1_op {
        Some((true, _)) => (v, !v.if_staged && !v.if_through && v.e1_alive.len() == 1),
        Some((false, id)) => {
            let a = ExView { e1_alive: without(v.e1_alive, id), ..v };
            if a.if_through && a.e1_alive.len() == 0 {
                (ExView { if_through: false, q: truncated(a.q, a.q_floor), ..a }, false)
            } else {
                (a, false)
            }
        },
        None => (v, false),
    }
}

/// One network evaluation: the witness step, the join drain (emitting iff
/// through), a re-satisfy emitting `reverse(rtm)`, and (fire loop only)
/// the staged initial left processing.
pub open spec fn ex_eval_window(v: ExView, e1_op: Option<(bool, FactId)>, fire_loop: bool) -> ExView {
    let (v1, satisfy) = ex_e1_step(v, e1_op);
    let v2 = ex_drain(v1, v1.if_through);
    let v3 = if satisfy { ExView { if_through: true, q: v2.q + v2.rtm.reverse(), ..v2 } } else { v2 };
    if fire_loop && v3.if_staged {
        if v3.e1_alive.len() > 0 {
            ExView { if_staged: false, if_through: true, q: v3.q + v3.rtm.reverse(), ..v3 }
        } else {
            ExView { if_staged: false, ..v3 }
        }
    } else {
        v3
    }
}

/// An external witness insert: the satisfy-link queues the executor iff it
/// completes the segment (join populated); then the stream force-flush; a
/// witness due at insertion registers its expiry.
pub open spec fn ex_on_e1_insert(v: ExView, id: FactId, due_now: bool) -> ExView {
    let a = ExView { e1_alive: v.e1_alive.push(id), ..v };
    let b = if v.e1_alive.len() == 0 && v.join_count > 0 { ExView { exec_queued: true, ..a } } else { a };
    let c = ex_eval_window(b, Some((true, id)), false);
    if due_now { ExView { pending_exp: c.pending_exp.push(id), ..c } } else { c }
}

/// An external P insert stages; it queues iff the exists side is
/// witnessed.
pub open spec fn ex_on_p_insert(v: ExView, id: FactId) -> ExView {
    let a = ExView { staged: v.staged.push(id), join_count: (v.join_count + 1) as u32, ..v };
    if v.e1_alive.len() > 0 { ExView { exec_queued: true, ..a } } else { a }
}

/// A bare-P update moves it to the tail of `rtm` (a staged P is untouched).
pub open spec fn ex_on_p_update(v: ExView, id: FactId) -> ExView {
    ExView { rtm: move_tail(v.rtm, id), ..v }
}

/// An explicit delete: a live witness retracts at its queue position
/// (queueing while through); a P decrements the counter (queueing while
/// through), annihilates its staged insert or leaves `rtm`, and its queued
/// emission is cancelled.
pub open spec fn ex_on_delete(v: ExView, id: FactId) -> ExView {
    if v.e1_alive.contains(id) {
        let a = ExView { pending_exp: without(v.pending_exp, id), ..v };
        let b = if a.if_through { ExView { exec_queued: true, ..a } } else { a };
        ex_eval_window(b, Some((false, id)), false)
    } else {
        let in_staged = v.staged.contains(id);
        let in_rtm = v.rtm.contains(id);
        let a = if in_staged || in_rtm {
            let c = (v.join_count - 1) as u32;
            if v.if_through {
                ExView { join_count: c, exec_queued: true, ..v }
            } else {
                ExView { join_count: c, ..v }
            }
        } else {
            v
        };
        let b = if in_staged {
            ExView { staged: without(a.staged, id), ..a }
        } else if in_rtm {
            ExView { rtm: without(a.rtm, id), ..a }
        } else {
            a
        };
        ExView { q: without(b.q, id), ..b }
    }
}

/// A clock advance made a live witness's deadline due: register it once.
pub open spec fn ex_on_advance_due(v: ExView, id: FactId) -> ExView {
    if v.e1_alive.contains(id) && !v.pending_exp.contains(id) {
        ExView { pending_exp: v.pending_exp.push(id), ..v }
    } else {
        v
    }
}

/// Quiescence retracts of the registered expirations, in order (witnesses
/// deleted after registration are skipped).
pub open spec fn ex_expire_all(v: ExView, ids: Seq<FactId>) -> ExView
    decreases ids.len(),
{
    if ids.len() == 0 {
        v
    } else {
        let w = ex_expire_all(v, ids.drop_last());
        if w.e1_alive.contains(ids.last()) {
            ex_eval_window(w, Some((false, ids.last())), false)
        } else {
            w
        }
    }
}

/// The fire-call analog: the fire-loop evaluation if queued; the drained
/// prefix is fenced; the quiescence retracts run in order; the emitted
/// order is ranked.
pub open spec fn ex_pre_fire(v: ExView) -> ExView {
    let a = if v.exec_queued { ex_eval_window(v, None, true) } else { v };
    let b = ex_expire_all(ExView { pending_exp: Seq::empty(), q_floor: a.q.len() as usize, ..a }, a.pending_exp);
    ExView { q_floor: 0, exec_queued: false, emit_rank: rank_map(b.q), ..b }
}

/// The fire boundary consumes the prediction.
pub open spec fn ex_post_fire(v: ExView) -> ExView {
    ExView { q: Seq::empty(), emit_rank: Map::empty(), ..v }
}

/// Evaluation keeps the P memories' total size, the counter and the
/// registrations.
pub proof fn lemma_ex_eval_keeps_inv(v: ExView, e1_op: Option<(bool, FactId)>, fire_loop: bool)
    ensures
        ex_eval_window(v, e1_op, fire_loop).join_count == v.join_count,
        ex_eval_window(v, e1_op, fire_loop).staged.len() + ex_eval_window(v, e1_op, fire_loop).rtm.len()
            == v.staged.len() + v.rtm.len(),
        ex_eval_window(v, e1_op, fire_loop).pending_exp == v.pending_exp,
        ex_eval_window(v, e1_op, fire_loop).q_floor == v.q_floor,
{
}

/// The expiry sweep keeps the P memories' total size and the counter.
pub proof fn lemma_ex_expire_keeps_inv(v: ExView, ids: Seq<FactId>)
    ensures
        ex_expire_all(v, ids).join_count == v.join_count,
        ex_expire_all(v, ids).staged.len() + ex_expire_all(v, ids).rtm.len() == v.staged.len() + v.rtm.len(),
    decreases ids.len(),
{
    if ids.len() > 0 {
        lemma_ex_expire_keeps_inv(v, ids.drop_last());
        lemma_ex_eval_keeps_inv(ex_expire_all(v, ids.drop_last()), Some((false, ids.last())), false);
    }
}

impl ExShadow {
    /// A fresh shadow: empty memories, the initial left staged.
    pub fn new(e1_tid: TypeId, e1_ep: u32, p_tid: TypeId, p_ep: u32) -> (r: Self)
        ensures
            r@ == (ExView {
                e1_tid,
                e1_ep,
                p_tid,
                p_ep,
                rtm: Seq::empty(),
                staged: Seq::empty(),
                e1_alive: Seq::empty(),
                pending_exp: Seq::empty(),
                join_count: 0,
                if_staged: true,
                if_through: false,
                exec_queued: false,
                q: Seq::empty(),
                q_floor: 0,
                emit_rank: Map::empty(),
            }),
            ex_inv(r@),
    {
        ExShadow {
            e1_tid,
            e1_ep,
            p_tid,
            p_ep,
            rtm: Vec::new(),
            staged: Vec::new(),
            e1_alive: Vec::new(),
            pending_exp: Vec::new(),
            join_count: 0,
            if_staged: true,
            if_through: false,
            exec_queued: false,
            q: Vec::new(),
            q_floor: 0,
            emit_rank: HashMap::new(),
        }
    }

    /// Drain the staged right-inserts into `rtm` (see `ex_drain`).
    pub fn drain(&mut self, emit_children: bool)
        ensures
            final(self)@ == ex_drain(old(self)@, emit_children),
    {
        extend_rev(&mut self.rtm, &self.staged);
        if emit_children {
            extend_from(&mut self.q, &self.staged);
        }
        self.staged = Vec::new();
    }

    /// One network evaluation (see `ex_eval_window`).
    pub fn eval_window(&mut self, e1_op: Option<(bool, FactId)>, fire_loop: bool)
        ensures
            final(self)@ == ex_eval_window(old(self)@, e1_op, fire_loop),
    {
        let mut satisfy = false;
        if let Some((is_ins, id)) = e1_op {
            if is_ins {
                if !self.if_staged && !self.if_through && self.e1_alive.len() == 1 {
                    satisfy = true;
                }
            } else {
                retain_ne(&mut self.e1_alive, id);
                if self.if_through && self.e1_alive.len() == 0 {
                    self.if_through = false;
                    let fl = self.q_floor;
                    self.q.truncate(fl);
                }
            }
        }
        let through = self.if_through;
        self.drain(through);
        if satisfy {
            self.if_through = true;
            extend_rev(&mut self.q, &self.rtm);
        }
        if fire_loop && self.if_staged {
            self.if_staged = false;
            if self.e1_alive.len() > 0 {
                self.if_through = true;
                extend_rev(&mut self.q, &self.rtm);
            }
        }
    }

    /// An external witness insert (see `ex_on_e1_insert`).
    pub fn on_e1_insert(&mut self, id: FactId, due_now: bool)
        requires
            ex_inv(old(self)@),
        ensures
            final(self)@ == ex_on_e1_insert(old(self)@, id, due_now),
            ex_inv(final(self)@),
    {
        let was_empty = self.e1_alive.len() == 0;
        self.e1_alive.push(id);
        if was_empty && self.join_count > 0 {
            self.exec_queued = true;
        }
        let ghost mid = self@;
        self.eval_window(Some((true, id)), false);
        proof {
            lemma_ex_eval_keeps_inv(mid, Some((true, id)), false);
        }
        if due_now {
            self.pending_exp.push(id);
        }
    }

    /// An external P insert (see `ex_on_p_insert`).
    pub fn on_p_insert(&mut self, id: FactId)
        requires
            ex_inv(old(self)@),
            old(self).join_count < u32::MAX,
        ensures
            final(self)@ == ex_on_p_insert(old(self)@, id),
            ex_inv(final(self)@),
    {
        self.staged.push(id);
        self.join_count = self.join_count + 1;
        if self.e1_alive.len() > 0 {
            self.exec_queued = true;
        }
    }

    /// An external bare-P update (see `ex_on_p_update`).
    pub fn on_p_update(&mut self, id: FactId)
        requires
            ex_inv(old(self)@),
        ensures
            final(self)@ == ex_on_p_update(old(self)@, id),
            ex_inv(final(self)@),
    {
        proof {
            lemma_move_len(self.rtm@, id);
        }
        vec_move_tail(&mut self.rtm, id);
    }

    /// An explicit external delete (see `ex_on_delete`).
    pub fn on_delete(&mut self, id: FactId)
        requires
            ex_inv(old(self)@),
        ensures
            final(self)@ == ex_on_delete(old(self)@, id),
            ex_inv(final(self)@),
    {
        if vec_contains(&self.e1_alive, id) {
            retain_ne(&mut self.pending_exp, id);
            if self.if_through {
                self.exec_queued = true;
            }
            let ghost mid = self@;
            self.eval_window(Some((false, id)), false);
            proof {
                lemma_ex_eval_keeps_inv(mid, Some((false, id)), false);
            }
            return;
        }
        let in_staged = vec_contains(&self.staged, id);
        let in_rtm = vec_contains(&self.rtm, id);
        proof {
            lemma_without_len(self.staged@, id);
            lemma_without_len(self.rtm@, id);
        }
        if in_staged || in_rtm {
            self.join_count = self.join_count - 1;
            if self.if_through {
                self.exec_queued = true;
            }
        }
        if in_staged {
            retain_ne(&mut self.staged, id);
        } else if in_rtm {
            retain_ne(&mut self.rtm, id);
        }
        retain_ne(&mut self.q, id);
    }

    /// A clock advance made this witness due (see `ex_on_advance_due`).
    pub fn on_advance_due(&mut self, id: FactId)
        requires
            ex_inv(old(self)@),
        ensures
            final(self)@ == ex_on_advance_due(old(self)@, id),
            ex_inv(final(self)@),
    {
        if vec_contains(&self.e1_alive, id) && !vec_contains(&self.pending_exp, id) {
            self.pending_exp.push(id);
        }
    }

    /// The fire-call analog (see `ex_pre_fire`).
    pub fn pre_fire(&mut self)
        requires
            ex_inv(old(self)@),
        ensures
            final(self)@ == ex_pre_fire(old(self)@),
            ex_inv(final(self)@),
    {
        if self.exec_queued {
            let ghost v0 = self@;
            self.eval_window(None, true);
            proof {
                lemma_ex_eval_keeps_inv(v0, None, true);
            }
        }
        let ghost a = self@;
        self.q_floor = self.q.len();
        let mut ids: Vec<FactId> = Vec::new();
        std::mem::swap(&mut ids, &mut self.pending_exp);
        let ghost start = self@;
        let mut i: usize = 0;
        proof {
            assert(ids@.subrange(0, 0) =~= Seq::<FactId>::empty());
            assert(start == ExView { pending_exp: Seq::empty(), q_floor: a.q.len() as usize, ..a });
        }
        while i < ids.len()
            invariant
                i <= ids.len(),
                self@ == ex_expire_all(start, ids@.subrange(0, i as int)),
                ex_inv(self@),
            decreases ids.len() - i,
        {
            let id = ids[i];
            proof {
                assert(ids@.subrange(0, i + 1).drop_last() =~= ids@.subrange(0, i as int));
                assert(ids@.subrange(0, i + 1).last() == id);
            }
            if vec_contains(&self.e1_alive, id) {
                let ghost mid = self@;
                self.eval_window(Some((false, id)), false);
                proof {
                    lemma_ex_eval_keeps_inv(mid, Some((false, id)), false);
                }
            }
            i = i + 1;
        }
        proof {
            assert(ids@.subrange(0, ids.len() as int) =~= ids@);
        }
        self.q_floor = 0;
        self.exec_queued = false;
        self.emit_rank = build_rank(&self.q);
    }

    /// The fire boundary (see `ex_post_fire`).
    pub fn post_fire(&mut self)
        ensures
            final(self)@ == ex_post_fire(old(self)@),
    {
        self.q = Vec::new();
        self.emit_rank = HashMap::new();
    }
}

/// A P inserted and explicitly deleted before any evaluation annihilates
/// in the staged backlog: the shadow is left as it was, except that the
/// executor may have been queued.
pub proof fn law_ex_p_insert_delete_annihilates(v: ExView, id: FactId)
    requires
        ex_inv(v),
        v.join_count < u32::MAX,
        !v.staged.contains(id),
        !v.rtm.contains(id),
        !v.e1_alive.contains(id),
        !v.q.contains(id),
    ensures
        ex_on_delete(ex_on_p_insert(v, id), id) == (ExView {
            exec_queued: ex_on_delete(ex_on_p_insert(v, id), id).exec_queued,
            ..v
        }),
{
    let a = ex_on_p_insert(v, id);
    assert(a.staged == v.staged.push(id));
    assert(a.staged.contains(id)) by {
        assert(a.staged[v.staged.len() as int] == id);
    }
    assert(without(a.staged, id) == v.staged) by {
        lemma_without_len(v.staged, id);
        assert(a.staged.drop_last() =~= v.staged);
    }
    lemma_without_len(v.q, id);
    let r = ex_on_delete(a, id);
    assert(r =~= ExView { exec_queued: r.exec_queued, ..v });
}

/// A retract evaluation keeps the fence and never cuts below it.
proof fn lemma_ex_retract_keeps_prefix(w: ExView, id: FactId, p: Seq<FactId>)
    requires
        w.q_floor == p.len(),
        p.len() <= w.q.len(),
        w.q.subrange(0, p.len() as int) == p,
    ensures
        ex_eval_window(w, Some((false, id)), false).q_floor == w.q_floor,
        p.len() <= ex_eval_window(w, Some((false, id)), false).q.len(),
        ex_eval_window(w, Some((false, id)), false).q.subrange(0, p.len() as int) == p,
{
    let (v1, sat) = ex_e1_step(w, Some((false, id)));
    assert(v1.q.len() >= p.len());
    assert(v1.q.subrange(0, p.len() as int) =~= p);
    let v2 = ex_drain(v1, v1.if_through);
    assert(v2.q.subrange(0, p.len() as int) =~= p);
}

/// The quiescence retracts keep the fence and never cut below it.
proof fn lemma_ex_expire_keeps_prefix(w: ExView, ids: Seq<FactId>, p: Seq<FactId>)
    requires
        w.q_floor == p.len(),
        p.len() <= w.q.len(),
        w.q.subrange(0, p.len() as int) == p,
    ensures
        ex_expire_all(w, ids).q_floor == w.q_floor,
        p.len() <= ex_expire_all(w, ids).q.len(),
        ex_expire_all(w, ids).q.subrange(0, p.len() as int) == p,
    decreases ids.len(),
{
    if ids.len() > 0 {
        lemma_ex_expire_keeps_prefix(w, ids.drop_last(), p);
        let x = ex_expire_all(w, ids.drop_last());
        if x.e1_alive.contains(ids.last()) {
            lemma_ex_retract_keeps_prefix(x, ids.last(), p);
        }
    }
}

/// Quiescence never cancels what the agenda already drained: whatever the
/// registered expiries retract at quiescence, the emissions made up to the
/// fire-loop evaluation stay the prefix of the cycle's prediction.
pub proof fn law_ex_quiescence_keeps_drained_prefix(v: ExView)
    requires
        (if v.exec_queued { ex_eval_window(v, None, true) } else { v }).q.len() <= usize::MAX,
    ensures
        ({
            let a = if v.exec_queued { ex_eval_window(v, None, true) } else { v };
            &&& a.q.len() <= ex_pre_fire(v).q.len()
            &&& ex_pre_fire(v).q.subrange(0, a.q.len() as int) == a.q
        }),
{
    let a = if v.exec_queued { ex_eval_window(v, None, true) } else { v };
    let w = ExView { pending_exp: Seq::empty(), q_floor: a.q.len() as usize, ..a };
    assert(w.q.subrange(0, a.q.len() as int) =~= a.q);
    lemma_ex_expire_keeps_prefix(w, a.pending_exp, a.q);
}

/// An update of a P outside the right memory (a still-staged P)
/// changes nothing.
pub proof fn law_ex_staged_update_is_noop(v: ExView, id: FactId)
    requires
        !v.rtm.contains(id),
    ensures
        ex_on_p_update(v, id) == v,
{
    lemma_first_idx(v.rtm, id);
    let r = ex_on_p_update(v, id);
    assert(r =~= v);
}

} // verus!
