//! The folding invariant of a rule's window queue: over all windows a
//! fact has at most one staged insert, one staged update and one staged
//! delete, and never both an insert and an update.

use vstd::prelude::*;
use crate::rulenet::{any_ins_upd, any_staged, any_del, drop_upds, first_ins_window, lemma_first_ins_window, last_add_del, last_add_ins, last_add_upd, s0_after_del, s0_after_ins, s0_after_upd, windows_wf};
use crate::staged::{Entry, Origin, StagedView, has_fact, entry_idx, lemma_entry_idx, drop_entry, staged_default};
use crate::value::FactId;

verus! {

/// Which staged list of a window.
pub enum StageList {
    Ins,
    Upd,
    Del,
}

/// The entries of list `k` of window `w`.
pub open spec fn list_of(w: StagedView, k: StageList) -> Seq<Entry<FactId>> {
    match k {
        StageList::Ins => w.ins,
        StageList::Upd => w.upd,
        StageList::Del => w.del,
    }
}

/// How many entries of `es` stage `f`.
pub open spec fn occ(es: Seq<Entry<FactId>>, f: FactId) -> nat
    decreases es.len(),
{
    if es.len() == 0 {
        0
    } else {
        occ(es.drop_last(), f) + if es.last().0 == f { 1nat } else { 0nat }
    }
}

/// How many entries of list `k` stage `f` over all windows.
pub open spec fn wocc(ws: Seq<StagedView>, k: StageList, f: FactId) -> nat
    decreases ws.len(),
{
    if ws.len() == 0 {
        0
    } else {
        wocc(ws.drop_last(), k, f) + occ(list_of(ws.last(), k), f)
    }
}

/// The folding invariant at fact `g`.
pub open spec fn folded_at(ws: Seq<StagedView>, g: FactId) -> bool {
    &&& wocc(ws, StageList::Ins, g) <= 1
    &&& wocc(ws, StageList::Upd, g) <= 1
    &&& wocc(ws, StageList::Del, g) <= 1
    &&& (wocc(ws, StageList::Ins, g) == 0 || wocc(ws, StageList::Upd, g) == 0)
}

/// One staged entry per fact and list over all windows, never both an
/// insert and an update of one fact.
pub open spec fn s0_folded(ws: Seq<StagedView>) -> bool {
    forall|g: FactId| #[trigger] folded_at(ws, g)
}

/// A list stages `f` exactly when it has an entry of `f`.
proof fn lemma_occ_has(es: Seq<Entry<FactId>>, f: FactId)
    ensures
        (occ(es, f) > 0) == has_fact(es, f),
    decreases es.len(),
{
    if es.len() > 0 {
        let n = es.len() - 1;
        lemma_occ_has(es.drop_last(), f);
        if has_fact(es, f) {
            let j = choose|j: int| 0 <= j < es.len() && (#[trigger] es[j]).0 == f;
            if j < n {
                assert(es.drop_last()[j] == es[j]);
            }
        }
        if has_fact(es.drop_last(), f) {
            let j = choose|j: int| 0 <= j < es.drop_last().len() && (#[trigger] es.drop_last()[j]).0 == f;
            assert(es[j] == es.drop_last()[j]);
        }
        if es.last().0 == f {
            assert(es[n].0 == f);
        }
    }
}

/// Appending an entry counts it.
proof fn lemma_occ_push(es: Seq<Entry<FactId>>, x: Entry<FactId>, f: FactId)
    ensures
        occ(es.push(x), f) == occ(es, f) + if x.0 == f { 1nat } else { 0nat },
{
    assert(es.push(x).drop_last() =~= es);
}

/// Removing an entry uncounts it.
proof fn lemma_occ_remove(es: Seq<Entry<FactId>>, i: int, f: FactId)
    requires
        0 <= i < es.len(),
    ensures
        occ(es.remove(i), f) + (if es[i].0 == f { 1nat } else { 0nat }) == occ(es, f),
    decreases es.len(),
{
    if i == es.len() - 1 {
        assert(es.remove(i) =~= es.drop_last());
    } else {
        lemma_occ_remove(es.drop_last(), i, f);
        assert(es.remove(i).drop_last() =~= es.drop_last().remove(i));
        assert(es.remove(i).last() == es.last());
    }
}

/// Dropping the first entry of `f` never adds an entry of any fact, and
/// removes one of `f` when there is one.
proof fn lemma_occ_drop_entry(es: Seq<Entry<FactId>>, f: FactId, g: FactId)
    ensures
        occ(drop_entry(es, f), g) <= occ(es, g),
        g == f ==> occ(drop_entry(es, f), g) + (if has_fact(es, f) { 1nat } else { 0nat }) == occ(es, g),
{
    lemma_entry_idx(es, f);
    let i = entry_idx(es, f);
    if i < es.len() {
        lemma_occ_remove(es, i, g);
    }
}

/// A list kind stages `f` in some window exactly when its count is
/// positive.
proof fn lemma_wocc_has(ws: Seq<StagedView>, k: StageList, f: FactId)
    ensures
        (wocc(ws, k, f) > 0) == exists|i: int| 0 <= i < ws.len() && has_fact(list_of(#[trigger] ws[i], k), f),
    decreases ws.len(),
{
    if ws.len() > 0 {
        let n = ws.len() - 1;
        lemma_wocc_has(ws.drop_last(), k, f);
        lemma_occ_has(list_of(ws.last(), k), f);
        if exists|i: int| 0 <= i < ws.len() && has_fact(list_of(#[trigger] ws[i], k), f) {
            let i = choose|i: int| 0 <= i < ws.len() && has_fact(list_of(#[trigger] ws[i], k), f);
            if i < n {
                assert(ws.drop_last()[i] == ws[i]);
            }
        }
        if exists|i: int| 0 <= i < ws.drop_last().len() && has_fact(list_of(#[trigger] ws.drop_last()[i], k), f) {
            let i = choose|i: int| 0 <= i < ws.drop_last().len() && has_fact(list_of(#[trigger] ws.drop_last()[i], k), f);
            assert(ws[i] == ws.drop_last()[i]);
        }
        assert(ws[n] == ws.last());
    }
}

/// Replacing one window changes the count by that window's difference.
proof fn lemma_wocc_update(ws: Seq<StagedView>, j: int, w2: StagedView, k: StageList, f: FactId)
    requires
        0 <= j < ws.len(),
    ensures
        wocc(ws.update(j, w2), k, f) + occ(list_of(ws[j], k), f) == wocc(ws, k, f) + occ(list_of(w2, k), f),
    decreases ws.len(),
{
    if j == ws.len() - 1 {
        assert(ws.update(j, w2).drop_last() =~= ws.drop_last());
    } else {
        lemma_wocc_update(ws.drop_last(), j, w2, k, f);
        assert(ws.update(j, w2).drop_last() =~= ws.drop_last().update(j, w2));
        assert(ws.update(j, w2).last() == ws.last());
    }
}

/// Dropping a fact's staged updates keeps the other lists and never adds
/// an update.
proof fn lemma_wocc_drop_upds(ws: Seq<StagedView>, f: FactId, g: FactId)
    ensures
        wocc(drop_upds(ws, f), StageList::Ins, g) == wocc(ws, StageList::Ins, g),
        wocc(drop_upds(ws, f), StageList::Del, g) == wocc(ws, StageList::Del, g),
        wocc(drop_upds(ws, f), StageList::Upd, g) <= wocc(ws, StageList::Upd, g),
    decreases ws.len(),
{
    if ws.len() > 0 {
        lemma_wocc_drop_upds(ws.drop_last(), f, g);
        assert(drop_upds(ws, f).drop_last() =~= drop_upds(ws.drop_last(), f));
        lemma_occ_drop_entry(ws.last().upd, f, g);
    }
}

/// Appending an empty window changes no count.
proof fn lemma_wocc_push_empty(ws: Seq<StagedView>, k: StageList, f: FactId)
    ensures
        wocc(ws.push(staged_default()), k, f) == wocc(ws, k, f),
{
    assert(ws.push(staged_default()).drop_last() =~= ws);
}

/// No window lists `f` under `k` when its count is zero, and conversely.
proof fn lemma_no_entry_zero(ws: Seq<StagedView>, k: StageList, f: FactId)
    requires
        forall|i: int| 0 <= i < ws.len() ==> !has_fact(list_of(#[trigger] ws[i], k), f),
    ensures
        wocc(ws, k, f) == 0,
{
    lemma_wocc_has(ws, k, f);
}

/// Folding keeps one staged entry per fact: every staging operation of
/// the window queue (insert, update, delete, and closing a window) keeps
/// at most one staged insert, update and delete of each fact over all
/// windows, and never both an insert and an update.
pub proof fn law_s0_one_entry_per_fact(ws: Seq<StagedView>, f: FactId, o: Origin)
    requires
        windows_wf(ws),
        s0_folded(ws),
    ensures
        s0_folded(s0_after_ins(ws, f, o)),
        s0_folded(s0_after_upd(ws, f, o)),
        s0_folded(s0_after_del(ws, f, o)),
        s0_folded(ws.push(staged_default())),
{
    let n = ws.len() - 1;
    let w = ws[n];
    // insert
    if !any_ins_upd(ws, f) {
        assert forall|i: int| 0 <= i < ws.len() implies !has_fact(list_of(#[trigger] ws[i], StageList::Ins), f)
            && !has_fact(list_of(ws[i], StageList::Upd), f) by {}
        lemma_no_entry_zero(ws, StageList::Ins, f);
        lemma_no_entry_zero(ws, StageList::Upd, f);
        let w2 = StagedView { ins: w.ins.push((f, o, 0)), seen: w.seen.push(f), ..w };
        assert(last_add_ins(ws, f, o) == ws.update(n, w2));
        assert forall|g: FactId| #[trigger] folded_at(ws.update(n, w2), g) by {
            assert(folded_at(ws, g));
            lemma_wocc_update(ws, n, w2, StageList::Ins, g);
            lemma_wocc_update(ws, n, w2, StageList::Upd, g);
            lemma_wocc_update(ws, n, w2, StageList::Del, g);
            lemma_occ_push(w.ins, (f, o, 0), g);
        }
    }
    // update
    if !any_staged(ws, f) {
        assert forall|i: int| 0 <= i < ws.len() implies !has_fact(list_of(#[trigger] ws[i], StageList::Ins), f)
            && !has_fact(list_of(ws[i], StageList::Upd), f) by {}
        lemma_no_entry_zero(ws, StageList::Ins, f);
        lemma_no_entry_zero(ws, StageList::Upd, f);
        let w2 = StagedView { upd: w.upd.push((f, o, 0)), seen: w.seen.push(f), ..w };
        assert(last_add_upd(ws, f, o) == ws.update(n, w2));
        assert forall|g: FactId| #[trigger] folded_at(ws.update(n, w2), g) by {
            assert(folded_at(ws, g));
            lemma_wocc_update(ws, n, w2, StageList::Ins, g);
            lemma_wocc_update(ws, n, w2, StageList::Upd, g);
            lemma_wocc_update(ws, n, w2, StageList::Del, g);
            lemma_occ_push(w.upd, (f, o, 0), g);
        }
    }
    // delete
    lemma_first_ins_window(ws, f);
    let k = first_ins_window(ws, f);
    if k < ws.len() {
        let wk = ws[k];
        let w2 = StagedView { ins: drop_entry(wk.ins, f), ..wk };
        assert forall|g: FactId| #[trigger] folded_at(ws.update(k, w2), g) by {
            assert(folded_at(ws, g));
            lemma_wocc_update(ws, k, w2, StageList::Ins, g);
            lemma_wocc_update(ws, k, w2, StageList::Upd, g);
            lemma_wocc_update(ws, k, w2, StageList::Del, g);
            lemma_occ_drop_entry(wk.ins, f, g);
        }
    } else {
        let ws2 = drop_upds(ws, f);
        assert(ws2.len() == ws.len());
        assert forall|g: FactId| #[trigger] folded_at(ws2, g) by {
            assert(folded_at(ws, g));
            lemma_wocc_drop_upds(ws, f, g);
        }
        if !any_del(ws2, f) {
            assert forall|i: int| 0 <= i < ws2.len() implies !has_fact(list_of(#[trigger] ws2[i], StageList::Del), f) by {}
            lemma_no_entry_zero(ws2, StageList::Del, f);
            let v = ws2[n];
            let w3 = StagedView { del: v.del.push((f, o, 0)), seen: v.seen.push(f), ..v };
            assert(last_add_del(ws2, f, o) == ws2.update(n, w3));
            assert forall|g: FactId| #[trigger] folded_at(ws2.update(n, w3), g) by {
                assert(folded_at(ws2, g));
                lemma_wocc_update(ws2, n, w3, StageList::Ins, g);
                lemma_wocc_update(ws2, n, w3, StageList::Upd, g);
                lemma_wocc_update(ws2, n, w3, StageList::Del, g);
                lemma_occ_push(v.del, (f, o, 0), g);
            }
        }
    }
    // closing a window
    assert forall|g: FactId| #[trigger] folded_at(ws.push(staged_default()), g) by {
        assert(folded_at(ws, g));
        lemma_wocc_push_empty(ws, StageList::Ins, g);
        lemma_wocc_push_empty(ws, StageList::Upd, g);
        lemma_wocc_push_empty(ws, StageList::Del, g);
    }
}

} // verus!
