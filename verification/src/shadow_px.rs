//! The firing-order shadow of a gated `exists <PLAIN>() P()` rule in a
//! stream session (the witness pattern may carry alpha-only constraints).
//! The P side is the plain-not shadow's join verbatim. Witness operations
//! stage and apply as one NET batch per evaluation: only a net 0->1 or
//! 1->0 transition satisfies (the join receives the staged arrivals then
//! the reversed right memory, with no refraction) or unsatisfies (children
//! die, queued emissions cancel). Every evaluation drains the staged P's,
//! emitting them iff through after the net step. Deletes are synchronous
//! at entry and move the link counter; an update leaving the alpha defers
//! a delete of a processed witness (no counter move) or annihilates a
//! still-staged insert; an update entering the alpha stages a fresh
//! insert. Queue signals: LINK (a witness insert taking the counter 0->1
//! with the join populated, a P insert while the counter is positive),
//! dequeued by any synchronous counter 1->0; WM (explicit witness deletes),
//! never dequeued.

use vstd::prelude::*;
use std::collections::HashMap;
use crate::seqs::{extend_from, extend_rev, retain_ne, without, vec_contains, vec_move_tail, vec_remove_first, build_rank, rank_map, move_tail, remove_first, StagedOp, first_ins_idx, ops_find_ins, churn_at, ops_del_pos, first_idx, lemma_first_idx, lemma_first_ins_idx, lemma_without_len};
use crate::value::{FactId, TypeId};

verus! {

broadcast use vstd::std_specs::hash::group_hash_axioms;

/// Flush shadow of one gated plain-exists rule (see the module doc).
pub struct PxShadow {
    pub d_tid: TypeId,
    pub d_ep: u32,
    pub p_tid: TypeId,
    pub p_ep: u32,
    pub rtm: Vec<FactId>,
    pub staged: Vec<FactId>,
    /// Pending witness operations in arrival order.
    pub d_staged: Vec<StagedOp>,
    /// Processed live witnesses (the exists right memory, net).
    pub d_alive: Vec<FactId>,
    /// The exists link counter.
    pub counter: i32,
    /// Last seen alpha state of each witness-typed fact.
    pub alpha_state: HashMap<FactId, bool>,
    pub if_propagated: bool,
    pub if_blocked: bool,
    pub exec_link: bool,
    pub exec_wm: bool,
    /// Predicted emission order for the current fire cycle.
    pub q: Vec<FactId>,
    /// Fact -> rank in `q`.
    pub emit_rank: HashMap<FactId, usize>,
}

/// Mathematical state of a `PxShadow`.
#[verifier::ext_equal]
pub struct PxView {
    pub d_tid: TypeId,
    pub d_ep: u32,
    pub p_tid: TypeId,
    pub p_ep: u32,
    pub rtm: Seq<FactId>,
    pub staged: Seq<FactId>,
    pub d_staged: Seq<StagedOp>,
    pub d_alive: Seq<FactId>,
    pub counter: i32,
    pub alpha_state: Map<FactId, bool>,
    pub if_propagated: bool,
    pub if_blocked: bool,
    pub exec_link: bool,
    pub exec_wm: bool,
    pub q: Seq<FactId>,
    pub emit_rank: Map<FactId, usize>,
}

impl View for PxShadow {
    type V = PxView;

    open spec fn view(&self) -> PxView {
        PxView {
            d_tid: self.d_tid,
            d_ep: self.d_ep,
            p_tid: self.p_tid,
            p_ep: self.p_ep,
            rtm: self.rtm@,
            staged: self.staged@,
            d_staged: self.d_staged@,
            d_alive: self.d_alive@,
            counter: self.counter,
            alpha_state: self.alpha_state@,
            if_propagated: self.if_propagated,
            if_blocked: self.if_blocked,
            exec_link: self.exec_link,
            exec_wm: self.exec_wm,
            q: self.q@,
            emit_rank: self.emit_rank@,
        }
    }
}

/// Either queue signal is up.
pub open spec fn px_queued(v: PxView) -> bool {
    v.exec_link || v.exec_wm
}

/// Both queue signals consumed.
pub open spec fn px_consume(v: PxView) -> PxView {
    PxView { exec_link: false, exec_wm: false, ..v }
}

/// A synchronous counter decrement; reaching zero dequeues the link
/// signal.
pub open spec fn px_counter_dec(v: PxView) -> PxView {
    let c = (v.counter - 1) as i32;
    if c == 0 { PxView { counter: c, exec_link: false, ..v } } else { PxView { counter: c, ..v } }
}

/// The satisfy left-insert into the join: staged arrivals then the
/// pre-drain right memory reversed.
pub open spec fn px_join_left_ins(v: PxView, pending: Seq<FactId>) -> (PxView, Seq<FactId>) {
    (PxView { rtm: v.rtm + v.staged.reverse(), staged: Seq::empty(), ..v }, pending + v.staged + v.rtm.reverse())
}

/// The witness set after applying staged operations in order (inserts add,
/// deletes remove every copy).
pub open spec fn px_apply(alive: Seq<FactId>, ops: Seq<StagedOp>) -> Seq<FactId>
    decreases ops.len(),
{
    if ops.len() == 0 {
        alive
    } else {
        let a = px_apply(alive, ops.drop_last());
        if ops.last().0 { a.push(ops.last().1) } else { without(a, ops.last().1) }
    }
}

/// One network evaluation: the net witness step (satisfy / unsatisfy on a
/// net transition of a propagated left), the counter reset to the live
/// witness count, the join right-drain (emitting iff through), the fire
/// loop's first propagation of the initial left; pending emissions join
/// `q`, which is re-ranked.
pub open spec fn px_eval(v: PxView, fire_loop: bool) -> PxView {
    let was = v.d_alive.len() > 0;
    let alive = px_apply(v.d_alive, v.d_staged);
    let now = alive.len() > 0;
    let v0 = PxView { d_alive: alive, d_staged: Seq::empty(), counter: #[verifier::truncate] (alive.len() as i32), ..v };
    let (v1, p1) = if v0.if_propagated {
        if was && !now && !v0.if_blocked {
            (PxView { if_blocked: true, q: Seq::empty(), ..v0 }, Seq::<FactId>::empty())
        } else if !was && now && v0.if_blocked {
            px_join_left_ins(PxView { if_blocked: false, ..v0 }, Seq::empty())
        } else {
            (v0, Seq::empty())
        }
    } else {
        (v0, Seq::empty())
    };
    let (v2, p2) = if v1.staged.len() > 0 {
        (
            PxView { rtm: v1.rtm + v1.staged.reverse(), staged: Seq::empty(), ..v1 },
            if v1.if_propagated && !v1.if_blocked { p1 + v1.staged } else { p1 },
        )
    } else {
        (v1, p1)
    };
    let (v3, p3) = if fire_loop && !v2.if_propagated {
        let b = PxView { if_propagated: true, if_blocked: !now, ..v2 };
        if now { px_join_left_ins(b, p2) } else { (b, p2) }
    } else {
        (v2, p2)
    };
    PxView { q: v3.q + p3, emit_rank: rank_map(v3.q + p3), ..v3 }
}

/// A P insert stages; it signals LINK while the counter is positive.
pub open spec fn px_on_p_insert(v: PxView, id: FactId) -> PxView {
    let a = PxView { staged: v.staged.push(id), ..v };
    if v.counter > 0 { PxView { exec_link: true, ..a } } else { a }
}

/// A bare-P update moves it to the tail of `rtm` (a staged P is untouched).
pub open spec fn px_on_p_update(v: PxView, id: FactId) -> PxView {
    PxView { rtm: move_tail(v.rtm, id), ..v }
}

/// A P delete annihilates its staged insert or leaves `rtm`; its queued
/// emission is cancelled and `q` re-ranked.
pub open spec fn px_on_p_delete(v: PxView, id: FactId) -> PxView {
    let a = if v.staged.contains(id) {
        PxView { staged: remove_first(v.staged, id), ..v }
    } else {
        PxView { rtm: remove_first(v.rtm, id), ..v }
    };
    PxView { q: without(a.q, id), emit_rank: rank_map(without(a.q, id)), ..a }
}

/// A witness insert stages and increments the counter; the 0->1 step with
/// the join populated is the satisfy-link.
pub open spec fn px_stage_d_ins(v: PxView, id: FactId, stamp: u64) -> PxView {
    let c = (v.counter + 1) as i32;
    let a = PxView { d_staged: v.d_staged.push((true, id, stamp)), counter: c, ..v };
    if c == 1 && (v.staged.len() > 0 || v.rtm.len() > 0) { PxView { exec_link: true, ..a } } else { a }
}

/// In-fire, staged witness operations evaluate at once when a signal is up
/// or the rule has unfired activations.
pub open spec fn px_maybe_eval(v: PxView, in_fire: bool, has_ne: bool) -> PxView {
    if in_fire && v.d_staged.len() > 0 && (px_queued(v) || has_ne) { px_consume(px_eval(v, true)) } else { v }
}

/// A witness-typed fact reaching working memory: its alpha state is
/// recorded; passing the alpha, it stages an insert (then maybe evaluates
/// in-fire).
pub open spec fn px_on_d_insert(v: PxView, id: FactId, alpha: bool, in_fire: bool, has_ne: bool, stamp: u64) -> PxView {
    let a = PxView { alpha_state: v.alpha_state.insert(id, alpha), ..v };
    if !alpha { a } else { px_maybe_eval(px_stage_d_ins(a, id, stamp), in_fire, has_ne) }
}

/// The recorded alpha state of a fact (false when unseen).
pub open spec fn was_alpha(m: Map<FactId, bool>, id: FactId) -> bool {
    m.contains_key(id) && m[id]
}

/// A witness-typed fact leaving working memory: forgotten; when it passed
/// the alpha, a still-staged insert of it annihilates, otherwise a delete
/// stages (a churn retract before the same-stamp trailing inserts) — the
/// counter moves either way; an explicit delete raises WM; then maybe
/// evaluate in-fire.
pub open spec fn px_on_d_delete(v: PxView, id: FactId, explicit: bool, in_fire: bool, has_ne: bool, churn: bool, stamp: u64) -> PxView {
    let a = PxView { alpha_state: v.alpha_state.remove(id), ..v };
    if !was_alpha(v.alpha_state, id) {
        a
    } else {
        let i = first_ins_idx(a.d_staged, id);
        let b = if i < a.d_staged.len() {
            px_counter_dec(PxView { d_staged: a.d_staged.remove(i), ..a })
        } else {
            let at = if churn { churn_at(a.d_staged, stamp) } else { a.d_staged.len() as int };
            px_counter_dec(PxView { d_staged: a.d_staged.insert(at, (false, id, stamp)), ..a })
        };
        let c = if explicit { PxView { exec_wm: true, ..b } } else { b };
        px_maybe_eval(c, in_fire, has_ne)
    }
}

/// An external witness update classified against the recorded alpha
/// state: leaving the alpha annihilates a staged insert (counter moves) or
/// defers a delete of a processed witness; entering it stages an insert;
/// otherwise inert.
pub open spec fn px_on_d_update(v: PxView, id: FactId, alpha_now: bool, stamp: u64) -> PxView {
    let was = was_alpha(v.alpha_state, id);
    let a = PxView { alpha_state: v.alpha_state.insert(id, alpha_now), ..v };
    if was && !alpha_now {
        let i = first_ins_idx(a.d_staged, id);
        if i < a.d_staged.len() {
            px_counter_dec(PxView { d_staged: a.d_staged.remove(i), ..a })
        } else if a.d_alive.contains(id) {
            PxView { d_staged: a.d_staged.push((false, id, stamp)), ..a }
        } else {
            a
        }
    } else if !was && alpha_now {
        px_stage_d_ins(a, id, stamp)
    } else {
        a
    }
}

/// The fire-call analog: the fire-loop evaluation iff queued; signals
/// consumed.
pub open spec fn px_pre_fire(v: PxView) -> PxView {
    px_consume(if px_queued(v) { px_eval(v, true) } else { v })
}

/// The agenda-quiescence evaluation of witness operations left staged.
pub open spec fn px_quiescence(v: PxView) -> PxView {
    if v.d_staged.len() > 0 { px_consume(px_eval(v, true)) } else { v }
}

/// The fire boundary consumes the prediction.
pub open spec fn px_post_fire(v: PxView) -> PxView {
    PxView { q: Seq::empty(), emit_rank: Map::empty(), ..v }
}

impl PxShadow {
    /// A fresh shadow: empty memories, the exists blocked (no witness).
    pub fn new(d_tid: TypeId, d_ep: u32, p_tid: TypeId, p_ep: u32) -> (r: Self)
        ensures
            r@ == (PxView {
                d_tid,
                d_ep,
                p_tid,
                p_ep,
                rtm: Seq::empty(),
                staged: Seq::empty(),
                d_staged: Seq::empty(),
                d_alive: Seq::empty(),
                counter: 0,
                alpha_state: Map::empty(),
                if_propagated: false,
                if_blocked: true,
                exec_link: false,
                exec_wm: false,
                q: Seq::empty(),
                emit_rank: Map::empty(),
            }),
    {
        PxShadow {
            d_tid,
            d_ep,
            p_tid,
            p_ep,
            rtm: Vec::new(),
            staged: Vec::new(),
            d_staged: Vec::new(),
            d_alive: Vec::new(),
            counter: 0,
            alpha_state: HashMap::new(),
            if_propagated: false,
            if_blocked: true,
            exec_link: false,
            exec_wm: false,
            q: Vec::new(),
            emit_rank: HashMap::new(),
        }
    }

    /// Rebuild the rank map of `q`.
    pub fn rerank(&mut self)
        ensures
            final(self)@ == (PxView { emit_rank: rank_map(old(self)@.q), ..old(self)@ }),
    {
        self.emit_rank = build_rank(&self.q);
    }

    /// Whether either queue signal is up.
    pub fn queued(&self) -> (r: bool)
        ensures
            r == px_queued(self@),
    {
        self.exec_link || self.exec_wm
    }

    /// Consume both queue signals.
    pub fn consume(&mut self)
        ensures
            final(self)@ == px_consume(old(self)@),
    {
        self.exec_link = false;
        self.exec_wm = false;
    }

    /// A synchronous counter decrement (see `px_counter_dec`).
    pub fn counter_dec(&mut self)
        requires
            old(self).counter > i32::MIN,
        ensures
            final(self)@ == px_counter_dec(old(self)@),
    {
        self.counter = self.counter - 1;
        if self.counter == 0 {
            self.exec_link = false;
        }
    }

    /// The satisfy left-insert into the join (see `px_join_left_ins`).
    pub fn join_left_ins(&mut self, pending: &mut Vec<FactId>)
        ensures
            (final(self)@, final(pending)@) == px_join_left_ins(old(self)@, old(pending)@),
    {
        let mut pre: Vec<FactId> = Vec::new();
        extend_rev(&mut pre, &self.rtm);
        extend_rev(&mut self.rtm, &self.staged);
        extend_from(pending, &self.staged);
        self.staged = Vec::new();
        extend_from(pending, &pre);
        proof {
            assert(Seq::<FactId>::empty() + old(self).rtm@.reverse() =~= old(self).rtm@.reverse());
        }
    }

    /// One network evaluation (see `px_eval`).
    pub fn eval(&mut self, fire_loop: bool)
        ensures
            final(self)@ == px_eval(old(self)@, fire_loop),
    {
        let mut pending: Vec<FactId> = Vec::new();
        let was = self.d_alive.len() > 0;
        let mut ops: Vec<StagedOp> = Vec::new();
        std::mem::swap(&mut ops, &mut self.d_staged);
        let ghost alive0 = self.d_alive@;
        let ghost start = self@;
        let mut i: usize = 0;
        proof {
            assert(ops@.subrange(0, 0) =~= Seq::<StagedOp>::empty());
        }
        while i < ops.len()
            invariant
                i <= ops.len(),
                self@ == (PxView { d_alive: px_apply(alive0, ops@.subrange(0, i as int)), ..start }),
            decreases ops.len() - i,
        {
            let (is_ins, d, _) = ops[i];
            proof {
                assert(ops@.subrange(0, i + 1).drop_last() =~= ops@.subrange(0, i as int));
                assert(ops@.subrange(0, i + 1).last() == ops@[i as int]);
            }
            if is_ins {
                self.d_alive.push(d);
            } else {
                retain_ne(&mut self.d_alive, d);
            }
            i = i + 1;
        }
        proof {
            assert(ops@.subrange(0, ops.len() as int) =~= ops@);
        }
        self.counter = #[verifier::truncate] (self.d_alive.len() as i32);
        proof {
            assert(self.counter == (#[verifier::truncate] (self.d_alive@.len() as i32)));
        }
        let now = self.d_alive.len() > 0;
        if self.if_propagated {
            if was && !now && !self.if_blocked {
                self.if_blocked = true;
                self.q = Vec::new();
            } else if !was && now && self.if_blocked {
                self.if_blocked = false;
                self.join_left_ins(&mut pending);
            }
        }
        if self.staged.len() > 0 {
            extend_rev(&mut self.rtm, &self.staged);
            if self.if_propagated && !self.if_blocked {
                extend_from(&mut pending, &self.staged);
            }
            self.staged = Vec::new();
        }
        if fire_loop && !self.if_propagated {
            self.if_propagated = true;
            self.if_blocked = !now;
            if !self.if_blocked {
                self.join_left_ins(&mut pending);
            }
        }
        extend_from(&mut self.q, &pending);
        self.rerank();
    }

    /// A P insert (see `px_on_p_insert`).
    pub fn on_p_insert(&mut self, id: FactId)
        ensures
            final(self)@ == px_on_p_insert(old(self)@, id),
    {
        self.staged.push(id);
        if self.counter > 0 {
            self.exec_link = true;
        }
    }

    /// A bare-P update (see `px_on_p_update`).
    pub fn on_p_update(&mut self, id: FactId)
        ensures
            final(self)@ == px_on_p_update(old(self)@, id),
    {
        vec_move_tail(&mut self.rtm, id);
    }

    /// A P delete (see `px_on_p_delete`).
    pub fn on_p_delete(&mut self, id: FactId)
        ensures
            final(self)@ == px_on_p_delete(old(self)@, id),
    {
        if vec_contains(&self.staged, id) {
            vec_remove_first(&mut self.staged, id);
        } else {
            vec_remove_first(&mut self.rtm, id);
        }
        retain_ne(&mut self.q, id);
        self.rerank();
    }

    /// Stage a witness insert (see `px_stage_d_ins`).
    pub fn stage_d_ins(&mut self, id: FactId, seq: u64)
        requires
            old(self).counter < i32::MAX,
        ensures
            final(self)@ == px_stage_d_ins(old(self)@, id, seq),
    {
        self.d_staged.push((true, id, seq));
        self.counter = self.counter + 1;
        if self.counter == 1 && (self.staged.len() > 0 || self.rtm.len() > 0) {
            self.exec_link = true;
        }
    }

    /// A witness-typed fact reaching working memory (see `px_on_d_insert`).
    pub fn on_d_insert(&mut self, id: FactId, alpha: bool, in_fire: bool, has_ne: bool, seq: u64)
        requires
            old(self).counter < i32::MAX,
        ensures
            final(self)@ == px_on_d_insert(old(self)@, id, alpha, in_fire, has_ne, seq),
    {
        self.alpha_state.insert(id, alpha);
        if !alpha {
            return;
        }
        self.stage_d_ins(id, seq);
        if in_fire && self.d_staged.len() > 0 && (self.queued() || has_ne) {
            self.eval(true);
            self.consume();
        }
    }

    /// A witness-typed fact leaving working memory (see `px_on_d_delete`).
    pub fn on_d_delete(&mut self, id: FactId, explicit: bool, in_fire: bool, has_ne: bool, churn: bool, seq: u64)
        requires
            old(self).counter > i32::MIN,
        ensures
            final(self)@ == px_on_d_delete(old(self)@, id, explicit, in_fire, has_ne, churn, seq),
    {
        let was = match self.alpha_state.remove(&id) {
            Some(b) => b,
            None => false,
        };
        if !was {
            return;
        }
        if let Some(pos) = ops_find_ins(&self.d_staged, id) {
            self.d_staged.remove(pos);
            self.counter_dec();
        } else {
            let at = ops_del_pos(&self.d_staged, churn, seq);
            self.d_staged.insert(at, (false, id, seq));
            self.counter_dec();
        }
        if explicit {
            self.exec_wm = true;
        }
        if in_fire && self.d_staged.len() > 0 && (self.queued() || has_ne) {
            self.eval(true);
            self.consume();
        }
    }

    /// An external witness update (see `px_on_d_update`).
    pub fn on_d_update(&mut self, id: FactId, alpha_now: bool, seq: u64)
        requires
            i32::MIN < old(self).counter < i32::MAX,
        ensures
            final(self)@ == px_on_d_update(old(self)@, id, alpha_now, seq),
    {
        let was = match self.alpha_state.insert(id, alpha_now) {
            Some(b) => b,
            None => false,
        };
        if was && !alpha_now {
            if let Some(pos) = ops_find_ins(&self.d_staged, id) {
                self.d_staged.remove(pos);
                self.counter_dec();
            } else if vec_contains(&self.d_alive, id) {
                self.d_staged.push((false, id, seq));
            }
        } else if !was && alpha_now {
            self.stage_d_ins(id, seq);
        }
    }

    /// The fire-call analog (see `px_pre_fire`).
    pub fn pre_fire(&mut self)
        ensures
            final(self)@ == px_pre_fire(old(self)@),
    {
        if self.queued() {
            self.eval(true);
        }
        self.consume();
    }

    /// The agenda-quiescence evaluation (see `px_quiescence`).
    pub fn quiescence(&mut self)
        ensures
            final(self)@ == px_quiescence(old(self)@),
    {
        if self.d_staged.len() > 0 {
            self.eval(true);
            self.consume();
        }
    }

    /// The fire boundary (see `px_post_fire`).
    pub fn post_fire(&mut self)
        ensures
            final(self)@ == px_post_fire(old(self)@),
    {
        self.q = Vec::new();
        self.emit_rank = HashMap::new();
    }
}

/// A P inserted and deleted before any evaluation annihilates in the
/// staged backlog: the shadow is left as it was, except that the link
/// signal may have been raised and the emission queue is re-ranked.
pub proof fn law_px_p_insert_delete_annihilates(v: PxView, id: FactId)
    requires
        !v.staged.contains(id),
        !v.q.contains(id),
    ensures
        px_on_p_delete(px_on_p_insert(v, id), id) == (PxView {
            exec_link: px_on_p_delete(px_on_p_insert(v, id), id).exec_link,
            emit_rank: rank_map(v.q),
            ..v
        }),
{
    let a = px_on_p_insert(v, id);
    let n = v.staged.len() as int;
    assert(a.staged[n] == id);
    lemma_first_idx(a.staged, id);
    if first_idx(a.staged, id) < n {
        assert(v.staged[first_idx(a.staged, id)] == id);
    }
    assert(first_idx(a.staged, id) == n);
    assert(a.staged.remove(n) =~= v.staged);
    lemma_without_len(v.q, id);
    let r = px_on_p_delete(a, id);
    assert(r =~= PxView { exec_link: r.exec_link, emit_rank: rank_map(v.q), ..v });
}

/// A witness that passes the alpha, reaches working memory and leaves it
/// again (not by an explicit delete) before any evaluation annihilates:
/// the counter, the staged witness operations and the alpha record are
/// back where they were; only the link signal may differ.
pub proof fn law_px_d_insert_delete_annihilates(v: PxView, id: FactId, s1: u64, s2: u64, churn: bool, ne1: bool, ne2: bool)
    requires
        i32::MIN < v.counter < i32::MAX,
        first_ins_idx(v.d_staged, id) == v.d_staged.len(),
        !v.alpha_state.contains_key(id),
    ensures
        px_on_d_delete(px_on_d_insert(v, id, true, false, ne1, s1), id, false, false, ne2, churn, s2) == (PxView {
            exec_link: px_on_d_delete(px_on_d_insert(v, id, true, false, ne1, s1), id, false, false, ne2, churn, s2).exec_link,
            ..v
        }),
{
    let a = px_on_d_insert(v, id, true, false, ne1, s1);
    let n = v.d_staged.len() as int;
    assert(a.d_staged == v.d_staged.push((true, id, s1)));
    assert(a.alpha_state == v.alpha_state.insert(id, true));
    assert(was_alpha(a.alpha_state, id));
    lemma_first_ins_idx(v.d_staged, id);
    lemma_first_ins_idx(a.d_staged, id);
    if first_ins_idx(a.d_staged, id) < n {
        assert(a.d_staged[first_ins_idx(a.d_staged, id)] == v.d_staged[first_ins_idx(a.d_staged, id)]);
    }
    assert(a.d_staged[n].0 && a.d_staged[n].1 == id);
    assert(first_ins_idx(a.d_staged, id) == n);
    assert(a.d_staged.remove(n) =~= v.d_staged);
    assert(a.alpha_state.remove(id) =~= v.alpha_state);
    let r = px_on_d_delete(a, id, false, false, ne2, churn, s2);
    assert(r =~= PxView { exec_link: r.exec_link, ..v });
}

/// An update of a P outside the right memory (a still-staged P)
/// changes nothing.
pub proof fn law_px_staged_update_is_noop(v: PxView, id: FactId)
    requires
        !v.rtm.contains(id),
    ensures
        px_on_p_update(v, id) == v,
{
    lemma_first_idx(v.rtm, id);
    let r = px_on_p_update(v, id);
    assert(r =~= v);
}

} // verus!
