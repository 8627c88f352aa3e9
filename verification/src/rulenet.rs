//! Per-rule staging: the window queue of a single-pattern rule's
//! pattern-0 facts, and the terminal staging a shared node's batches merge
//! into as a peer sink.

use vstd::prelude::*;
use crate::staged::{Staged, StagedView, Origin, Entry, Tup, TupEntry, TupStagedView, tup_entries, tup_idx, tup_position, tup_eq, tup_copy, has_fact, entry_idx, drop_entry, lemma_entry_idx, entry_position, staged_wf, staged_empty, staged_default};
use crate::agenda::Act;
use crate::value::FactId;

verus! {

/// The staging part of a rule's agenda/terminal state.
pub struct RuleNet {
    /// Single-pattern rules: pattern-0 staging as a WINDOW QUEUE. Each
    /// external session action closes a window; windows compose in action
    /// order while events within one window stay grouped. Folds apply
    /// across windows (one staged entry per fact).
    pub s0: Vec<Staged<FactId>>,
    /// This rule's level-0 node and its beta path (one node per pattern
    /// after the first).
    pub lia: usize,
    pub path: Vec<usize>,
    /// Terminal staging propagated from the last path node.
    pub term_pending: Staged<Tup>,
    /// Peer-sink terminals only: tuples with a live peer object here.
    pub peer_live: Vec<Tup>,
    /// The rule's queued activations.
    pub queue: Vec<Act>,
    /// The sticky agenda salience of a dynamic-salience rule's item.
    pub item_sal: i32,
    /// The rule's item is on the agenda.
    pub queued: bool,
}

/// The window views of a window queue.
pub open spec fn windows(s0: Seq<Staged<FactId>>) -> Seq<StagedView> {
    s0.map_values(|w: Staged<FactId>| w@)
}

/// A non-empty queue of well-formed windows.
pub open spec fn windows_wf(ws: Seq<StagedView>) -> bool {
    ws.len() > 0 && forall|i: int| 0 <= i < ws.len() ==> staged_wf(#[trigger] ws[i])
}

/// Some window stages `f` as an insert or an update.
pub open spec fn any_ins_upd(ws: Seq<StagedView>, f: FactId) -> bool {
    exists|i: int| 0 <= i < ws.len() && (has_fact((#[trigger] ws[i]).ins, f) || has_fact(ws[i].upd, f))
}

/// Some window stages `f` at all (insert, update or delete).
pub open spec fn any_staged(ws: Seq<StagedView>, f: FactId) -> bool {
    exists|i: int| 0 <= i < ws.len() && (has_fact((#[trigger] ws[i]).ins, f) || has_fact(ws[i].upd, f) || has_fact(ws[i].del, f))
}

/// Some window stages `f` as a delete.
pub open spec fn any_del(ws: Seq<StagedView>, f: FactId) -> bool {
    exists|i: int| 0 <= i < ws.len() && has_fact((#[trigger] ws[i]).del, f)
}

/// The last window with an insert of `f` appended.
pub open spec fn last_add_ins(ws: Seq<StagedView>, f: FactId, o: Origin) -> Seq<StagedView> {
    let w = ws.last();
    ws.update(ws.len() - 1, StagedView { ins: w.ins.push((f, o, 0)), seen: w.seen.push(f), ..w })
}

/// The last window with an update of `f` appended.
pub open spec fn last_add_upd(ws: Seq<StagedView>, f: FactId, o: Origin) -> Seq<StagedView> {
    let w = ws.last();
    ws.update(ws.len() - 1, StagedView { upd: w.upd.push((f, o, 0)), seen: w.seen.push(f), ..w })
}

/// The last window with a delete of `f` appended.
pub open spec fn last_add_del(ws: Seq<StagedView>, f: FactId, o: Origin) -> Seq<StagedView> {
    let w = ws.last();
    ws.update(ws.len() - 1, StagedView { del: w.del.push((f, o, 0)), seen: w.seen.push(f), ..w })
}

/// Insert staging: a fact already staged as insert or update anywhere is
/// not staged again; otherwise the insert joins the current window.
pub open spec fn s0_after_ins(ws: Seq<StagedView>, f: FactId, o: Origin) -> Seq<StagedView> {
    if any_ins_upd(ws, f) { ws } else { last_add_ins(ws, f, o) }
}

/// Update staging: a fact already staged in any way is not staged again;
/// otherwise the update joins the current window.
pub open spec fn s0_after_upd(ws: Seq<StagedView>, f: FactId, o: Origin) -> Seq<StagedView> {
    if any_staged(ws, f) { ws } else { last_add_upd(ws, f, o) }
}

/// Index of the first window staging an insert of `f` (`ws.len()` when
/// none).
pub open spec fn first_ins_window(ws: Seq<StagedView>, f: FactId) -> int
    decreases ws.len(),
{
    if ws.len() == 0 {
        0
    } else if has_fact(ws[0].ins, f) {
        0
    } else {
        1 + first_ins_window(ws.drop_first(), f)
    }
}

/// Every window's first staged update of `f` dropped.
pub open spec fn drop_upds(ws: Seq<StagedView>, f: FactId) -> Seq<StagedView> {
    Seq::new(ws.len(), |i: int| StagedView { upd: drop_entry(ws[i].upd, f), ..ws[i] })
}

/// Delete staging: a never-materialized insert is cancelled (the first
/// window holding one); otherwise staged updates of the fact are dropped
/// and the delete joins the current window unless one is already staged.
pub open spec fn s0_after_del(ws: Seq<StagedView>, f: FactId, o: Origin) -> Seq<StagedView> {
    let k = first_ins_window(ws, f);
    if k < ws.len() {
        ws.update(k, StagedView { ins: drop_entry(ws[k].ins, f), ..ws[k] })
    } else {
        let ws2 = drop_upds(ws, f);
        if any_del(ws2, f) { ws2 } else { last_add_del(ws2, f, o) }
    }
}

/// `first_ins_window` is the first window with an insert of `f`.
pub proof fn lemma_first_ins_window(ws: Seq<StagedView>, f: FactId)
    ensures
        0 <= first_ins_window(ws, f) <= ws.len(),
        first_ins_window(ws, f) < ws.len() ==> has_fact(ws[first_ins_window(ws, f)].ins, f),
        forall|j: int| 0 <= j < first_ins_window(ws, f) ==> !has_fact(ws[j].ins, f),
    decreases ws.len(),
{
    if ws.len() > 0 && !has_fact(ws[0].ins, f) {
        lemma_first_ins_window(ws.drop_first(), f);
        assert forall|j: int| 0 <= j < first_ins_window(ws, f) implies !has_fact(ws[j].ins, f) by {
            if j > 0 {
                assert(ws[j] == ws.drop_first()[j - 1]);
            }
        }
    }
}

/// Dropping an entry keeps every remaining entry.
pub proof fn lemma_drop_entry_subset(es: Seq<Entry<FactId>>, f: FactId)
    ensures
        forall|j: int| 0 <= j < drop_entry(es, f).len() ==> es.contains(#[trigger] drop_entry(es, f)[j]),
        drop_entry(es, f).len() <= es.len(),
{
    lemma_entry_idx(es, f);
    let i = entry_idx(es, f);
    if i < es.len() {
        assert forall|j: int| 0 <= j < drop_entry(es, f).len() implies es.contains(#[trigger] drop_entry(es, f)[j]) by {
            if j < i {
                assert(drop_entry(es, f)[j] == es[j]);
            } else {
                assert(drop_entry(es, f)[j] == es[j + 1]);
            }
        }
    }
}

/// A staging without `f` in `seen` stages no entry of `f`.
pub proof fn lemma_unseen_unstaged(w: StagedView, f: FactId)
    requires
        staged_wf(w),
        !w.seen.contains(f),
    ensures
        !has_fact(w.ins, f),
        !has_fact(w.upd, f),
        !has_fact(w.del, f),
{
    if has_fact(w.ins, f) {
        let j = choose|j: int| 0 <= j < w.ins.len() && (#[trigger] w.ins[j]).0 == f;
        assert(w.seen.contains(w.ins[j].0));
    }
    if has_fact(w.upd, f) {
        let j = choose|j: int| 0 <= j < w.upd.len() && (#[trigger] w.upd[j]).0 == f;
        assert(w.seen.contains(w.upd[j].0));
    }
    if has_fact(w.del, f) {
        let j = choose|j: int| 0 <= j < w.del.len() && (#[trigger] w.del[j]).0 == f;
        assert(w.seen.contains(w.del[j].0));
    }
}


/// Well-formedness carries over to a staging whose `seen` only grew and
/// whose entries are old entries or have their fact in the new `seen`.
pub proof fn lemma_wf_carry(w: StagedView, w2: StagedView)
    requires
        staged_wf(w),
        forall|x: FactId| w.seen.contains(x) ==> w2.seen.contains(x),
        forall|j: int| 0 <= j < w2.ins.len() ==> w.ins.contains(#[trigger] w2.ins[j]) || w2.seen.contains(w2.ins[j].0),
        forall|j: int| 0 <= j < w2.upd.len() ==> w.upd.contains(#[trigger] w2.upd[j]) || w2.seen.contains(w2.upd[j].0),
        forall|j: int| 0 <= j < w2.del.len() ==> w.del.contains(#[trigger] w2.del[j]) || w2.seen.contains(w2.del[j].0),
        forall|j: int| 0 <= j < w2.norm_del.len() ==> w.norm_del.contains(#[trigger] w2.norm_del[j]) || w2.seen.contains(w2.norm_del[j].0),
    ensures
        staged_wf(w2),
{
    assert forall|j: int| 0 <= j < w2.ins.len() implies w2.seen.contains((#[trigger] w2.ins[j]).0) by {
        if w.ins.contains(w2.ins[j]) {
            let k = choose|k: int| 0 <= k < w.ins.len() && w.ins[k] == w2.ins[j];
            assert(w.seen.contains(w.ins[k].0));
        }
    }
    assert forall|j: int| 0 <= j < w2.upd.len() implies w2.seen.contains((#[trigger] w2.upd[j]).0) by {
        if w.upd.contains(w2.upd[j]) {
            let k = choose|k: int| 0 <= k < w.upd.len() && w.upd[k] == w2.upd[j];
            assert(w.seen.contains(w.upd[k].0));
        }
    }
    assert forall|j: int| 0 <= j < w2.del.len() implies w2.seen.contains((#[trigger] w2.del[j]).0) by {
        if w.del.contains(w2.del[j]) {
            let k = choose|k: int| 0 <= k < w.del.len() && w.del[k] == w2.del[j];
            assert(w.seen.contains(w.del[k].0));
        }
    }
    assert forall|j: int| 0 <= j < w2.norm_del.len() implies w2.seen.contains((#[trigger] w2.norm_del[j]).0) by {
        if w.norm_del.contains(w2.norm_del[j]) {
            let k = choose|k: int| 0 <= k < w.norm_del.len() && w.norm_del[k] == w2.norm_del[j];
            assert(w.seen.contains(w.norm_del[k].0));
        }
    }
}

/// Appending an entry for `f` to one list (and `f` to `seen`) keeps
/// well-formedness.
pub proof fn lemma_wf_push(w: StagedView, f: FactId, o: Origin, which: int)
    requires
        staged_wf(w),
    ensures
        staged_wf(if which == 0 {
            StagedView { ins: w.ins.push((f, o, 0)), seen: w.seen.push(f), ..w }
        } else if which == 1 {
            StagedView { upd: w.upd.push((f, o, 0)), seen: w.seen.push(f), ..w }
        } else {
            StagedView { del: w.del.push((f, o, 0)), seen: w.seen.push(f), ..w }
        }),
{
    let w2 = if which == 0 {
        StagedView { ins: w.ins.push((f, o, 0)), seen: w.seen.push(f), ..w }
    } else if which == 1 {
        StagedView { upd: w.upd.push((f, o, 0)), seen: w.seen.push(f), ..w }
    } else {
        StagedView { del: w.del.push((f, o, 0)), seen: w.seen.push(f), ..w }
    };
    assert forall|x: FactId| w.seen.contains(x) implies w2.seen.contains(x) by {
        let k = choose|k: int| 0 <= k < w.seen.len() && w.seen[k] == x;
        assert(w2.seen[k] == x);
    }
    assert(w2.seen[w2.seen.len() - 1] == f);
    assert forall|j: int| 0 <= j < w2.ins.len() implies w.ins.contains(#[trigger] w2.ins[j]) || w2.seen.contains(w2.ins[j].0) by {
        if j < w.ins.len() {
            assert(w2.ins[j] == w.ins[j]);
        }
    }
    assert forall|j: int| 0 <= j < w2.upd.len() implies w.upd.contains(#[trigger] w2.upd[j]) || w2.seen.contains(w2.upd[j].0) by {
        if j < w.upd.len() {
            assert(w2.upd[j] == w.upd[j]);
        }
    }
    assert forall|j: int| 0 <= j < w2.del.len() implies w.del.contains(#[trigger] w2.del[j]) || w2.seen.contains(w2.del[j].0) by {
        if j < w.del.len() {
            assert(w2.del[j] == w.del[j]);
        }
    }
    assert forall|j: int| 0 <= j < w2.norm_del.len() implies w.norm_del.contains(#[trigger] w2.norm_del[j]) || w2.seen.contains(w2.norm_del[j].0) by {
        assert(w2.norm_del[j] == w.norm_del[j]);
    }
    lemma_wf_carry(w, w2);
}


/// Dropping one entry of one list keeps well-formedness.
pub proof fn lemma_wf_drop(w: StagedView, f: FactId, which: int)
    requires
        staged_wf(w),
    ensures
        staged_wf(if which == 0 {
            StagedView { ins: drop_entry(w.ins, f), ..w }
        } else {
            StagedView { upd: drop_entry(w.upd, f), ..w }
        }),
{
    let w2 = if which == 0 {
        StagedView { ins: drop_entry(w.ins, f), ..w }
    } else {
        StagedView { upd: drop_entry(w.upd, f), ..w }
    };
    lemma_drop_entry_subset(w.ins, f);
    lemma_drop_entry_subset(w.upd, f);
    assert forall|j: int| 0 <= j < w2.del.len() implies w.del.contains(#[trigger] w2.del[j]) || w2.seen.contains(w2.del[j].0) by {
        assert(w2.del[j] == w.del[j]);
    }
    assert forall|j: int| 0 <= j < w2.norm_del.len() implies w.norm_del.contains(#[trigger] w2.norm_del[j]) || w2.seen.contains(w2.norm_del[j].0) by {
        assert(w2.norm_del[j] == w.norm_del[j]);
    }
    assert forall|j: int| 0 <= j < w2.ins.len() implies w.ins.contains(#[trigger] w2.ins[j]) || w2.seen.contains(w2.ins[j].0) by {
        if which != 0 {
            assert(w2.ins[j] == w.ins[j]);
        }
    }
    assert forall|j: int| 0 <= j < w2.upd.len() implies w.upd.contains(#[trigger] w2.upd[j]) || w2.seen.contains(w2.upd[j].0) by {
        if which == 0 {
            assert(w2.upd[j] == w.upd[j]);
        }
    }
    lemma_wf_carry(w, w2);
}

/// A staging without any entry of `f` is unchanged by dropping one.
pub proof fn lemma_drop_absent(es: Seq<Entry<FactId>>, f: FactId)
    requires
        !has_fact(es, f),
    ensures
        drop_entry(es, f) == es,
{
    lemma_entry_idx(es, f);
}

/// Whether some window has `f` in `seen`.
fn any_seen(ws: &Vec<Staged<FactId>>, f: FactId) -> (r: bool)
    ensures
        r == exists|i: int| 0 <= i < ws@.len() && (#[trigger] ws@[i])@.seen.contains(f),
{
    let mut i: usize = 0;
    while i < ws.len()
        invariant
            i <= ws.len(),
            forall|j: int| 0 <= j < i ==> !(#[trigger] ws@[j])@.seen.contains(f),
        decreases ws.len() - i,
    {
        if ws[i].maybe_contains(&f) {
            return true;
        }
        i = i + 1;
    }
    false
}

/// Whether some window stages `f` in the chosen lists.
fn any_window_has(ws: &Vec<Staged<FactId>>, f: FactId, ins: bool, upd: bool, del: bool) -> (r: bool)
    ensures
        r == exists|i: int| 0 <= i < ws@.len() && ((ins && has_fact((#[trigger] ws@[i])@.ins, f)) || (upd
            && has_fact(ws@[i]@.upd, f)) || (del && has_fact(ws@[i]@.del, f))),
{
    let mut i: usize = 0;
    while i < ws.len()
        invariant
            i <= ws.len(),
            forall|j: int| 0 <= j < i ==> !((ins && has_fact((#[trigger] ws@[j])@.ins, f)) || (upd && has_fact(
                ws@[j]@.upd,
                f,
            )) || (del && has_fact(ws@[j]@.del, f))),
        decreases ws.len() - i,
    {
        let w = &ws[i];
        if (ins && entry_position(&w.ins, f).is_some()) || (upd && entry_position(&w.upd, f).is_some()) || (del
            && entry_position(&w.del, f).is_some()) {
            return true;
        }
        i = i + 1;
    }
    false
}


/// The peer-merge working state: the terminal staging being built and the
/// live peer tuples.
#[verifier::ext_equal]
pub struct PeerState {
    pub pending: TupStagedView,
    pub live: Seq<Seq<FactId>>,
}

/// Index of the first occurrence of tuple `t` in `s` (`s.len()` when
/// absent).
pub open spec fn tuple_idx(s: Seq<Seq<FactId>>, t: Seq<FactId>) -> int
    decreases s.len(),
{
    if s.len() == 0 {
        0
    } else if s[0] == t {
        0
    } else {
        1 + tuple_idx(s.drop_first(), t)
    }
}

/// `tuple_idx` is the first occurrence of `t`, or the length.
pub proof fn lemma_tuple_idx(s: Seq<Seq<FactId>>, t: Seq<FactId>)
    ensures
        0 <= tuple_idx(s, t) <= s.len(),
        tuple_idx(s, t) < s.len() ==> s[tuple_idx(s, t)] == t,
        forall|j: int| 0 <= j < tuple_idx(s, t) ==> s[j] != t,
        (tuple_idx(s, t) < s.len()) == s.contains(t),
    decreases s.len(),
{
    if s.len() > 0 && s[0] != t {
        lemma_tuple_idx(s.drop_first(), t);
        assert forall|j: int| 0 <= j < tuple_idx(s, t) implies s[j] != t by {
            if j > 0 {
                assert(s[j] == s.drop_first()[j - 1]);
            }
        }
        if s.contains(t) {
            let k = choose|k: int| 0 <= k < s.len() && s[k] == t;
            assert(s.drop_first()[k - 1] == t);
        }
        if s.drop_first().contains(t) {
            let k = choose|k: int| 0 <= k < s.drop_first().len() && s.drop_first()[k] == t;
            assert(s[k + 1] == t);
        }
    }
}

/// The live set without tuple `t`.
pub open spec fn live_remove(live: Seq<Seq<FactId>>, t: Seq<FactId>) -> Seq<Seq<FactId>> {
    let i = tuple_idx(live, t);
    if i < live.len() {
        live.remove(i)
    } else {
        live
    }
}

/// A peer delete ends the peer lifetime and stages the delete.
pub open spec fn peer_del(st: PeerState, e: TupEntry) -> PeerState {
    PeerState {
        pending: TupStagedView { del: st.pending.del.push((e.0, e.1, 0)), seen: st.pending.seen.push(e.0), ..st.pending },
        live: live_remove(st.live, e.0),
    }
}

/// The peer deletes, in order.
pub open spec fn peer_dels(st: PeerState, es: Seq<TupEntry>) -> PeerState
    decreases es.len(),
{
    if es.len() == 0 {
        st
    } else {
        peer_del(peer_dels(st, es.drop_last()), es.last())
    }
}

/// A peer update is skipped when the tuple is already staged; otherwise
/// it is prepended to the updates.
pub open spec fn peer_upd(st: PeerState, e: TupEntry) -> PeerState {
    let p = st.pending;
    if tup_idx(p.ins, e.0) < p.ins.len() || tup_idx(p.upd, e.0) < p.upd.len() || tup_idx(p.del, e.0) < p.del.len() {
        st
    } else {
        PeerState { pending: TupStagedView { upd: seq![e] + p.upd, seen: p.seen.push(e.0), ..p }, ..st }
    }
}

/// The peer updates, in order.
pub open spec fn peer_upds(st: PeerState, es: Seq<TupEntry>) -> PeerState
    decreases es.len(),
{
    if es.len() == 0 {
        st
    } else {
        peer_upd(peer_upds(st, es.drop_last()), es.last())
    }
}

/// A peer insert: a staged insert of the tuple moves to the head; a staged
/// update is replaced by the insert's entry at the head of the updates; a
/// tuple whose peer is live arrives as an update; otherwise the peer
/// becomes live and the insert is prepended.
pub open spec fn peer_ins(st: PeerState, e: TupEntry) -> PeerState {
    let p = st.pending;
    let i = tup_idx(p.ins, e.0);
    let j = tup_idx(p.upd, e.0);
    if i < p.ins.len() {
        PeerState { pending: TupStagedView { ins: seq![p.ins[i]] + p.ins.remove(i), ..p }, ..st }
    } else if j < p.upd.len() {
        PeerState { pending: TupStagedView { upd: seq![e] + p.upd.remove(j), ..p }, ..st }
    } else if st.live.contains(e.0) {
        PeerState { pending: TupStagedView { upd: seq![e] + p.upd, seen: p.seen.push(e.0), ..p }, ..st }
    } else {
        PeerState { pending: TupStagedView { ins: seq![e] + p.ins, seen: p.seen.push(e.0), ..p }, live: st.live.push(e.0) }
    }
}

/// The peer inserts, in order.
pub open spec fn peer_inss(st: PeerState, es: Seq<TupEntry>) -> PeerState
    decreases es.len(),
{
    if es.len() == 0 {
        st
    } else {
        peer_ins(peer_inss(st, es.drop_last()), es.last())
    }
}

/// Merging a peer batch into the terminal: its deletes (then normalized
/// deletes), updates and inserts, each list in order.
pub open spec fn peer_merge(st: PeerState, fresh: TupStagedView) -> PeerState {
    peer_inss(peer_upds(peer_dels(peer_dels(st, fresh.del), fresh.norm_del), fresh.upd), fresh.ins)
}

/// Whether `live` holds tuple `t`; its position.
fn live_position(live: &Vec<Tup>, t: &Tup) -> (r: Option<usize>)
    ensures
        r matches Some(i) ==> i == tuple_idx(live@.map_values(|x: Tup| x@), t@) && i < live@.len(),
        r is None ==> tuple_idx(live@.map_values(|x: Tup| x@), t@) == live@.len(),
{
    let ghost v = live@.map_values(|x: Tup| x@);
    proof {
        lemma_tuple_idx(v, t@);
    }
    let mut i: usize = 0;
    while i < live.len()
        invariant
            i <= live.len(),
            v == live@.map_values(|x: Tup| x@),
            forall|j: int| 0 <= j < i ==> v[j] != t@,
            0 <= tuple_idx(v, t@) <= v.len(),
            tuple_idx(v, t@) < v.len() ==> v[tuple_idx(v, t@)] == t@,
            forall|j: int| 0 <= j < tuple_idx(v, t@) ==> v[j] != t@,
        decreases live.len() - i,
    {
        proof {
            assert(v[i as int] == live@[i as int]@);
        }
        if tup_eq(&live[i], t) {
            return Some(i);
        }
        i = i + 1;
    }
    None
}

impl RuleNet {
    /// The windows as views.
    pub open spec fn s0_views(&self) -> Seq<StagedView> {
        windows(self.s0@)
    }

    /// Stage a pattern-0 insert (see `s0_after_ins`).
    pub fn s0_add_ins(&mut self, f: FactId, o: Origin)
        requires
            windows_wf(old(self).s0_views()),
        ensures
            final(self).s0_views() == s0_after_ins(old(self).s0_views(), f, o),
            windows_wf(final(self).s0_views()),
            final(self).term_pending == old(self).term_pending,
            final(self).peer_live == old(self).peer_live,
            final(self).lia == old(self).lia,
            final(self).path == old(self).path,
            final(self).queue == old(self).queue,
            final(self).item_sal == old(self).item_sal,
            final(self).queued == old(self).queued,
    {
        let ghost ws = self.s0_views();
        if any_seen(&self.s0, f) && any_window_has(&self.s0, f, true, true, false) {
            proof {
                let i = choose|i: int| 0 <= i < self.s0@.len() && (has_fact((#[trigger] self.s0@[i])@.ins, f) || has_fact(self.s0@[i]@.upd, f));
                assert(ws[i] == self.s0@[i]@);
            }
            return;
        }
        proof {
            if any_ins_upd(ws, f) {
                let i = choose|i: int| 0 <= i < ws.len() && (has_fact((#[trigger] ws[i]).ins, f) || has_fact(ws[i].upd, f));
                assert(ws[i] == self.s0@[i]@);
                if !self.s0@[i]@.seen.contains(f) {
                    lemma_unseen_unstaged(ws[i], f);
                }
            }
        }
        let last = self.s0.len() - 1;
        let mut w = self.s0.remove(last);
        w.add_ins(f, o);
        self.s0.push(w);
        proof {
            assert(self.s0_views() =~= last_add_ins(ws, f, o));
            lemma_wf_push(ws[last as int], f, o, 0);
            assert forall|i: int| 0 <= i < self.s0_views().len() implies staged_wf(#[trigger] self.s0_views()[i]) by {
                if i < last {
                    assert(self.s0_views()[i] == ws[i]);
                }
            }
        }
    }

    /// Stage a pattern-0 update (see `s0_after_upd`).
    pub fn s0_add_upd(&mut self, f: FactId, o: Origin)
        requires
            windows_wf(old(self).s0_views()),
        ensures
            final(self).s0_views() == s0_after_upd(old(self).s0_views(), f, o),
            windows_wf(final(self).s0_views()),
            final(self).term_pending == old(self).term_pending,
            final(self).peer_live == old(self).peer_live,
            final(self).lia == old(self).lia,
            final(self).path == old(self).path,
            final(self).queue == old(self).queue,
            final(self).item_sal == old(self).item_sal,
            final(self).queued == old(self).queued,
    {
        let ghost ws = self.s0_views();
        if any_seen(&self.s0, f) && any_window_has(&self.s0, f, true, true, true) {
            proof {
                let i = choose|i: int| 0 <= i < self.s0@.len() && (has_fact((#[trigger] self.s0@[i])@.ins, f) || has_fact(self.s0@[i]@.upd, f) || has_fact(self.s0@[i]@.del, f));
                assert(ws[i] == self.s0@[i]@);
            }
            return;
        }
        proof {
            if any_staged(ws, f) {
                let i = choose|i: int| 0 <= i < ws.len() && (has_fact((#[trigger] ws[i]).ins, f) || has_fact(ws[i].upd, f) || has_fact(ws[i].del, f));
                assert(ws[i] == self.s0@[i]@);
                if !self.s0@[i]@.seen.contains(f) {
                    lemma_unseen_unstaged(ws[i], f);
                }
            }
        }
        let last = self.s0.len() - 1;
        let mut w = self.s0.remove(last);
        w.add_upd(f, o);
        self.s0.push(w);
        proof {
            assert(self.s0_views() =~= last_add_upd(ws, f, o));
            lemma_wf_push(ws[last as int], f, o, 1);
            assert forall|i: int| 0 <= i < self.s0_views().len() implies staged_wf(#[trigger] self.s0_views()[i]) by {
                if i < last {
                    assert(self.s0_views()[i] == ws[i]);
                }
            }
        }
    }

    /// Stage a pattern-0 delete (see `s0_after_del`).
    pub fn s0_add_del(&mut self, f: FactId, o: Origin)
        requires
            windows_wf(old(self).s0_views()),
        ensures
            final(self).s0_views() == s0_after_del(old(self).s0_views(), f, o),
            windows_wf(final(self).s0_views()),
            final(self).term_pending == old(self).term_pending,
            final(self).peer_live == old(self).peer_live,
            final(self).lia == old(self).lia,
            final(self).path == old(self).path,
            final(self).queue == old(self).queue,
            final(self).item_sal == old(self).item_sal,
            final(self).queued == old(self).queued,
    {
        let ghost ws = self.s0_views();
        proof {
            lemma_first_ins_window(ws, f);
        }
        if any_seen(&self.s0, f) {
            let mut i: usize = 0;
            while i < self.s0.len()
                invariant
                    i <= self.s0@.len(),
                    self.s0_views() == ws,
                    ws == old(self).s0_views(),
                    windows_wf(ws),
                    forall|j: int| 0 <= j < i ==> !has_fact(ws[j].ins, f),
                    0 <= first_ins_window(ws, f) <= ws.len(),
                    first_ins_window(ws, f) < ws.len() ==> has_fact(ws[first_ins_window(ws, f)].ins, f),
                    forall|j: int| 0 <= j < first_ins_window(ws, f) ==> !has_fact(ws[j].ins, f),
                    self.term_pending == old(self).term_pending,
                    self.peer_live == old(self).peer_live,
                    self.lia == old(self).lia,
                    self.path == old(self).path,
                    self.queue == old(self).queue,
                    self.item_sal == old(self).item_sal,
                    self.queued == old(self).queued,
                self.queue == old(self).queue,
                self.item_sal == old(self).item_sal,
                self.queued == old(self).queued,
                decreases self.s0@.len() - i,
            {
                proof {
                    assert(ws[i as int] == self.s0@[i as int]@);
                }
                if let Some(p) = entry_position(&self.s0[i].ins, f) {
                    let mut w = self.s0.remove(i);
                    w.ins.remove(p);
                    self.s0.insert(i, w);
                    proof {
                        assert(i == first_ins_window(ws, f));
                        assert(self.s0_views() =~= s0_after_del(ws, f, o));
                        lemma_wf_drop(ws[i as int], f, 0);
                        assert forall|k: int| 0 <= k < self.s0_views().len() implies staged_wf(#[trigger] self.s0_views()[k]) by {
                            if k != i {
                                assert(self.s0_views()[k] == ws[k]);
                            }
                        }
                    }
                    return;
                }
                i = i + 1;
            }
            let ghost n = ws.len();
            proof {
                if first_ins_window(ws, f) < ws.len() {
                    assert(has_fact(ws[first_ins_window(ws, f)].ins, f));
                }
                assert(first_ins_window(ws, f) == n);
                assert(self.s0_views() =~= Seq::new(n, |j: int| if j < 0 { StagedView { upd: drop_entry(ws[j].upd, f), ..ws[j] } } else { ws[j] }));
            }
            let mut i: usize = 0;
            while i < self.s0.len()
                invariant
                    i <= self.s0@.len(),
                    n == ws.len(),
                    self.s0@.len() == n,
                    windows_wf(ws),
                    first_ins_window(ws, f) == n,
                    self.s0_views() == Seq::new(n, |j: int| if j < i { StagedView { upd: drop_entry(ws[j].upd, f), ..ws[j] } } else { ws[j] }),
                    self.term_pending == old(self).term_pending,
                    self.peer_live == old(self).peer_live,
                    self.lia == old(self).lia,
                    self.path == old(self).path,
                    self.queue == old(self).queue,
                    self.item_sal == old(self).item_sal,
                    self.queued == old(self).queued,
                self.queue == old(self).queue,
                self.item_sal == old(self).item_sal,
                self.queued == old(self).queued,
                decreases self.s0@.len() - i,
            {
                let ghost before = self.s0_views();
                proof {
                    assert(before[i as int] == ws[i as int]);
                    assert(self.s0@[i as int]@ == before[i as int]);
                }
                let ghost target = Seq::new(n, |j: int| if j < i + 1 { StagedView { upd: drop_entry(ws[j].upd, f), ..ws[j] } } else { ws[j] });
                if let Some(p) = entry_position(&self.s0[i].upd, f) {
                    let mut w = self.s0.remove(i);
                    w.upd.remove(p);
                    self.s0.insert(i, w);
                    proof {
                        assert(self.s0@[i as int]@ == target[i as int]);
                        assert forall|j: int| 0 <= j < n implies #[trigger] self.s0_views()[j] == target[j] by {
                            if j != i {
                                assert(self.s0_views()[j] == before[j]);
                            }
                        }
                        assert(self.s0_views() =~= target);
                    }
                } else {
                    proof {
                        lemma_drop_absent(ws[i as int].upd, f);
                        assert forall|j: int| 0 <= j < n implies #[trigger] self.s0_views()[j] == target[j] by {
                        }
                        assert(self.s0_views() =~= target);
                    }
                }
                i = i + 1;
            }
            let ghost ws2 = drop_upds(ws, f);
            proof {
                assert(self.s0_views() =~= ws2);
                assert forall|k: int| 0 <= k < ws2.len() implies staged_wf(#[trigger] ws2[k]) by {
                    lemma_wf_drop(ws[k], f, 1);
                }
            }
            if any_window_has(&self.s0, f, false, false, true) {
                proof {
                    let k = choose|k: int| 0 <= k < self.s0@.len() && has_fact((#[trigger] self.s0@[k])@.del, f);
                    assert(ws2[k] == self.s0@[k]@);
                }
                return;
            }
            let last = self.s0.len() - 1;
            let mut w = self.s0.remove(last);
            w.add_del(f, o);
            self.s0.push(w);
            proof {
                assert(!any_del(ws2, f)) by {
                    if any_del(ws2, f) {
                        let k = choose|k: int| 0 <= k < ws2.len() && has_fact((#[trigger] ws2[k]).del, f);
                        assert(ws2[k] == old(self).s0@[k]@ || true);
                    }
                }
                assert(self.s0_views() =~= last_add_del(ws2, f, o));
                lemma_wf_push(ws2[last as int], f, o, 2);
                assert forall|k: int| 0 <= k < self.s0_views().len() implies staged_wf(#[trigger] self.s0_views()[k]) by {
                    if k < last {
                        assert(self.s0_views()[k] == ws2[k]);
                    }
                }
            }
        } else {
            proof {
                assert forall|k: int| 0 <= k < ws.len() implies !has_fact(#[trigger] ws[k].ins, f) && !has_fact(ws[k].upd, f) && !has_fact(ws[k].del, f) by {
                    assert(ws[k] == self.s0@[k]@);
                    lemma_unseen_unstaged(ws[k], f);
                }
                assert(first_ins_window(ws, f) == ws.len()) by {
                    if first_ins_window(ws, f) < ws.len() {
                        assert(has_fact(ws[first_ins_window(ws, f)].ins, f));
                    }
                }
                assert forall|k: int| 0 <= k < ws.len() implies drop_entry(#[trigger] ws[k].upd, f) == ws[k].upd by {
                    lemma_drop_absent(ws[k].upd, f);
                }
                assert(drop_upds(ws, f) =~= ws);
            }
            let last = self.s0.len() - 1;
            let mut w = self.s0.remove(last);
            w.add_del(f, o);
            self.s0.push(w);
            proof {
                assert(self.s0_views() =~= last_add_del(ws, f, o));
                lemma_wf_push(ws[last as int], f, o, 2);
                assert forall|k: int| 0 <= k < self.s0_views().len() implies staged_wf(#[trigger] self.s0_views()[k]) by {
                    if k < last {
                        assert(self.s0_views()[k] == ws[k]);
                    }
                }
            }
        }
    }

    /// Whether any window stages anything.
    pub fn s0_dirty(&self) -> (r: bool)
        ensures
            r == exists|i: int| 0 <= i < self.s0_views().len() && !staged_empty(#[trigger] self.s0_views()[i]),
    {
        let mut i: usize = 0;
        while i < self.s0.len()
            invariant
                i <= self.s0@.len(),
                forall|j: int| 0 <= j < i ==> staged_empty(#[trigger] self.s0_views()[j]),
            decreases self.s0@.len() - i,
        {
            if !self.s0[i].is_empty() {
                proof {
                    assert(self.s0_views()[i as int] == self.s0@[i as int]@);
                }
                return true;
            }
            i = i + 1;
        }
        false
    }

    /// External action boundary: a non-empty current window closes and a
    /// fresh one opens.
    pub fn s0_close_window(&mut self)
        requires
            windows_wf(old(self).s0_views()),
        ensures
            final(self).s0_views() == (if staged_empty(old(self).s0_views().last()) {
                old(self).s0_views()
            } else {
                old(self).s0_views().push(staged_default())
            }),
            windows_wf(final(self).s0_views()),
            final(self).term_pending == old(self).term_pending,
            final(self).peer_live == old(self).peer_live,
            final(self).lia == old(self).lia,
            final(self).path == old(self).path,
            final(self).queue == old(self).queue,
            final(self).item_sal == old(self).item_sal,
            final(self).queued == old(self).queued,
    {
        let last = self.s0.len() - 1;
        if !self.s0[last].is_empty() {
            let ghost ws = self.s0_views();
            self.s0.push(Staged::<FactId>::empty());
            proof {
                assert(self.s0_views() =~= ws.push(staged_default()));
                assert forall|k: int| 0 <= k < self.s0_views().len() implies staged_wf(#[trigger] self.s0_views()[k]) by {
                    if k < ws.len() {
                        assert(self.s0_views()[k] == ws[k]);
                    }
                }
            }
        }
    }

    /// The peer-merge state as a view.
    pub open spec fn peer_state(&self) -> PeerState {
        PeerState { pending: self.term_pending@, live: self.peer_live@.map_values(|x: Tup| x@) }
    }

    /// Apply one peer delete to (`pending`, `peer_live`).
    fn merge_del(&mut self, pending: &mut Staged<Tup>, t: &Tup, o: Origin)
        ensures
            (PeerState { pending: final(pending)@, live: final(self).peer_live@.map_values(|x: Tup| x@) })
                == peer_del(PeerState { pending: old(pending)@, live: old(self).peer_live@.map_values(|x: Tup| x@) }, (t@, o, 0)),
            final(self).s0 == old(self).s0,
            final(self).term_pending == old(self).term_pending,
            final(self).lia == old(self).lia,
            final(self).path == old(self).path,
            final(self).queue == old(self).queue,
            final(self).item_sal == old(self).item_sal,
            final(self).queued == old(self).queued,
    {
        let ghost lv = self.peer_live@.map_values(|x: Tup| x@);
        proof {
            lemma_tuple_idx(lv, t@);
        }
        if let Some(i) = live_position(&self.peer_live, t) {
            self.peer_live.remove(i);
            proof {
                assert(self.peer_live@.map_values(|x: Tup| x@) =~= lv.remove(i as int));
            }
        }
        pending.add_del_tuple(tup_copy(t), o);
    }

    /// Apply one peer update.
    fn merge_upd(&mut self, pending: &mut Staged<Tup>, e: &Entry<Tup>)
        ensures
            (PeerState { pending: final(pending)@, live: final(self).peer_live@.map_values(|x: Tup| x@) })
                == peer_upd(PeerState { pending: old(pending)@, live: old(self).peer_live@.map_values(|x: Tup| x@) }, (e.0@, e.1, e.2)),
            final(self).s0 == old(self).s0,
            final(self).term_pending == old(self).term_pending,
            final(self).lia == old(self).lia,
            final(self).path == old(self).path,
            final(self).queue == old(self).queue,
            final(self).item_sal == old(self).item_sal,
            final(self).queued == old(self).queued,
            final(self).peer_live == old(self).peer_live,
            final(self).lia == old(self).lia,
            final(self).path == old(self).path,
            final(self).queue == old(self).queue,
            final(self).item_sal == old(self).item_sal,
            final(self).queued == old(self).queued,
    {
        let t = &e.0;
        let staged = tup_position(&pending.ins, t).is_some() || tup_position(&pending.upd, t).is_some()
            || tup_position(&pending.del, t).is_some();
        if !staged {
            let ghost p0 = pending@;
            pending.seen_add_tuple(t);
            pending.upd.insert(0, (tup_copy(t), e.1, e.2));
            proof {
                assert(pending@.upd =~= seq![(e.0@, e.1, e.2)] + p0.upd);
            }
        }
    }

    /// Apply one peer insert.
    fn merge_ins(&mut self, pending: &mut Staged<Tup>, e: &Entry<Tup>)
        ensures
            (PeerState { pending: final(pending)@, live: final(self).peer_live@.map_values(|x: Tup| x@) })
                == peer_ins(PeerState { pending: old(pending)@, live: old(self).peer_live@.map_values(|x: Tup| x@) }, (e.0@, e.1, e.2)),
            final(self).s0 == old(self).s0,
            final(self).term_pending == old(self).term_pending,
            final(self).lia == old(self).lia,
            final(self).path == old(self).path,
            final(self).queue == old(self).queue,
            final(self).item_sal == old(self).item_sal,
            final(self).queued == old(self).queued,
    {
        let t = &e.0;
        let ghost p0 = pending@;
        let ghost lv = self.peer_live@.map_values(|x: Tup| x@);
        if let Some(i) = tup_position(&pending.ins, t) {
            let x = pending.ins.remove(i);
            pending.ins.insert(0, x);
            proof {
                assert(pending@.ins =~= seq![p0.ins[i as int]] + p0.ins.remove(i as int));
            }
            return;
        }
        if let Some(j) = tup_position(&pending.upd, t) {
            pending.upd.remove(j);
            pending.upd.insert(0, (tup_copy(t), e.1, e.2));
            proof {
                assert(pending@.upd =~= seq![(e.0@, e.1, e.2)] + p0.upd.remove(j as int));
            }
            return;
        }
        proof {
            lemma_tuple_idx(lv, t@);
        }
        if live_position(&self.peer_live, t).is_some() {
            pending.seen_add_tuple(t);
            let ghost p1 = pending@;
            pending.upd.insert(0, (tup_copy(t), e.1, e.2));
            proof {
                assert(pending@.upd =~= seq![(e.0@, e.1, e.2)] + p1.upd);
            }
            return;
        }
        self.peer_live.push(tup_copy(t));
        pending.seen_add_tuple(t);
        let ghost p1 = pending@;
        pending.ins.insert(0, (tup_copy(t), e.1, e.2));
        proof {
            assert(pending@.ins =~= seq![(e.0@, e.1, e.2)] + p1.ins);
            assert(self.peer_live@.map_values(|x: Tup| x@) =~= lv.push(t@));
        }
    }

    /// Peer-copy of a shared node's batch into this terminal's staging
    /// (see `peer_merge`): per-entry prepends, so each batch lands reversed
    /// and lagging batches stack LIFO.
    pub fn peer_merge_term(&mut self, fresh: &Staged<Tup>)
        ensures
            final(self).peer_state() == peer_merge(old(self).peer_state(), fresh@),
            final(self).s0 == old(self).s0,
            final(self).lia == old(self).lia,
            final(self).path == old(self).path,
            final(self).queue == old(self).queue,
            final(self).item_sal == old(self).item_sal,
            final(self).queued == old(self).queued,
    {
        let mut pending = self.term_pending.take_tuples();
        let ghost st0 = PeerState { pending: pending@, live: self.peer_live@.map_values(|x: Tup| x@) };
        proof {
            assert(st0 == old(self).peer_state());
        }
        let mut i: usize = 0;
        proof {
            assert(tup_entries(fresh.del@).subrange(0, 0) =~= Seq::<TupEntry>::empty());
        }
        while i < fresh.del.len()
            invariant
                i <= fresh.del@.len(),
                (PeerState { pending: pending@, live: self.peer_live@.map_values(|x: Tup| x@) })
                    == peer_dels(st0, tup_entries(fresh.del@).subrange(0, i as int)),
                self.s0 == old(self).s0,
                self.lia == old(self).lia,
                self.path == old(self).path,
                self.queue == old(self).queue,
                self.item_sal == old(self).item_sal,
                self.queued == old(self).queued,
            decreases fresh.del@.len() - i,
        {
            let e = &fresh.del[i];
            self.merge_del(&mut pending, &e.0, e.1);
            proof {
                assert(tup_entries(fresh.del@).subrange(0, i + 1).drop_last() =~= tup_entries(fresh.del@).subrange(0, i as int));
            }
            i = i + 1;
        }
        proof {
            assert(tup_entries(fresh.del@).subrange(0, fresh.del@.len() as int) =~= tup_entries(fresh.del@));
        }
        let ghost st1 = PeerState { pending: pending@, live: self.peer_live@.map_values(|x: Tup| x@) };
        let mut i: usize = 0;
        proof {
            assert(tup_entries(fresh.norm_del@).subrange(0, 0) =~= Seq::<TupEntry>::empty());
        }
        while i < fresh.norm_del.len()
            invariant
                i <= fresh.norm_del@.len(),
                (PeerState { pending: pending@, live: self.peer_live@.map_values(|x: Tup| x@) })
                    == peer_dels(st1, tup_entries(fresh.norm_del@).subrange(0, i as int)),
                self.s0 == old(self).s0,
                self.lia == old(self).lia,
                self.path == old(self).path,
                self.queue == old(self).queue,
                self.item_sal == old(self).item_sal,
                self.queued == old(self).queued,
            decreases fresh.norm_del@.len() - i,
        {
            let e = &fresh.norm_del[i];
            self.merge_del(&mut pending, &e.0, e.1);
            proof {
                assert(tup_entries(fresh.norm_del@).subrange(0, i + 1).drop_last() =~= tup_entries(fresh.norm_del@).subrange(0, i as int));
            }
            i = i + 1;
        }
        proof {
            assert(tup_entries(fresh.norm_del@).subrange(0, fresh.norm_del@.len() as int) =~= tup_entries(fresh.norm_del@));
        }
        let ghost st2 = PeerState { pending: pending@, live: self.peer_live@.map_values(|x: Tup| x@) };
        let mut i: usize = 0;
        proof {
            assert(tup_entries(fresh.upd@).subrange(0, 0) =~= Seq::<TupEntry>::empty());
        }
        while i < fresh.upd.len()
            invariant
                i <= fresh.upd@.len(),
                (PeerState { pending: pending@, live: self.peer_live@.map_values(|x: Tup| x@) })
                    == peer_upds(st2, tup_entries(fresh.upd@).subrange(0, i as int)),
                self.s0 == old(self).s0,
                self.lia == old(self).lia,
                self.path == old(self).path,
                self.queue == old(self).queue,
                self.item_sal == old(self).item_sal,
                self.queued == old(self).queued,
            decreases fresh.upd@.len() - i,
        {
            self.merge_upd(&mut pending, &fresh.upd[i]);
            proof {
                assert(tup_entries(fresh.upd@).subrange(0, i + 1).drop_last() =~= tup_entries(fresh.upd@).subrange(0, i as int));
            }
            i = i + 1;
        }
        proof {
            assert(tup_entries(fresh.upd@).subrange(0, fresh.upd@.len() as int) =~= tup_entries(fresh.upd@));
        }
        let ghost st3 = PeerState { pending: pending@, live: self.peer_live@.map_values(|x: Tup| x@) };
        let mut i: usize = 0;
        proof {
            assert(tup_entries(fresh.ins@).subrange(0, 0) =~= Seq::<TupEntry>::empty());
        }
        while i < fresh.ins.len()
            invariant
                i <= fresh.ins@.len(),
                (PeerState { pending: pending@, live: self.peer_live@.map_values(|x: Tup| x@) })
                    == peer_inss(st3, tup_entries(fresh.ins@).subrange(0, i as int)),
                self.s0 == old(self).s0,
                self.lia == old(self).lia,
                self.path == old(self).path,
                self.queue == old(self).queue,
                self.item_sal == old(self).item_sal,
                self.queued == old(self).queued,
            decreases fresh.ins@.len() - i,
        {
            self.merge_ins(&mut pending, &fresh.ins[i]);
            proof {
                assert(tup_entries(fresh.ins@).subrange(0, i + 1).drop_last() =~= tup_entries(fresh.ins@).subrange(0, i as int));
            }
            i = i + 1;
        }
        proof {
            assert(tup_entries(fresh.ins@).subrange(0, fresh.ins@.len() as int) =~= tup_entries(fresh.ins@));
        }
        self.term_pending = pending;
    }
}

/// An insert that its delete reaches before any evaluation never
/// materializes: staging an insert of an unstaged fact and then its
/// delete leaves every window's entry lists as they were.
pub proof fn law_s0_insert_delete_cancel(ws: Seq<StagedView>, f: FactId, o1: Origin, o2: Origin)
    requires
        windows_wf(ws),
        !any_staged(ws, f),
    ensures
        s0_after_del(s0_after_ins(ws, f, o1), f, o2).len() == ws.len(),
        forall|i: int|
            0 <= i < ws.len() ==> {
                let w2 = #[trigger] s0_after_del(s0_after_ins(ws, f, o1), f, o2)[i];
                &&& w2.ins == ws[i].ins
                &&& w2.upd == ws[i].upd
                &&& w2.del == ws[i].del
                &&& w2.norm_del == ws[i].norm_del
            },
{
    let ws1 = s0_after_ins(ws, f, o1);
    let n = ws.len() - 1;
    let m = ws[n].ins.len();
    assert(!any_ins_upd(ws, f));
    assert(ws1 == last_add_ins(ws, f, o1));
    assert(ws1[n].ins[m as int].0 == f);
    lemma_first_ins_window(ws1, f);
    let k = first_ins_window(ws1, f);
    if k < n {
        assert(ws1[k] == ws[k]);
        assert(!has_fact(ws[k].ins, f));
    }
    assert(has_fact(ws1[n].ins, f));
    assert(k == n);
    lemma_entry_idx(ws1[n].ins, f);
    let e = entry_idx(ws1[n].ins, f);
    if e < m {
        assert(ws1[n].ins[e] == ws[n].ins[e]);
        assert(has_fact(ws[n].ins, f));
    }
    assert(e == m);
    assert(ws1[n].ins.remove(m as int) =~= ws[n].ins);
    let ws2 = s0_after_del(ws1, f, o2);
    assert forall|i: int| 0 <= i < ws.len() implies {
        let w2 = #[trigger] ws2[i];
        &&& w2.ins == ws[i].ins
        &&& w2.upd == ws[i].upd
        &&& w2.del == ws[i].del
        &&& w2.norm_del == ws[i].norm_del
    } by {
        if i < n {
            assert(ws2[i] == ws1[i]);
        }
    }
}

} // verus!
