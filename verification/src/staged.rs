//! Staged propagation sets: the insert / update / delete lists a node or
//! terminal accumulates between evaluations. Each entry carries the
//! staging origin (the firing that staged it, if any) and a phase tag. The
//! lists themselves only append or take; folding (cancelling an insert by
//! a delete, dropping a duplicate) is decided by the owner. `seen`
//! records every fact ever staged since the last take, so a miss proves
//! a fact unstaged.

use vstd::prelude::*;
use crate::value::FactId;

verus! {

/// The firing whose right-hand side staged an entry (`None` = external).
pub type Origin = Option<usize>;

/// A staged entry: the element, its origin and its phase tag.
pub type Entry<T> = (T, Origin, u32);

/// Staged insert / update / delete lists (see the module doc).
pub struct Staged<T> {
    pub ins: Vec<Entry<T>>,
    pub upd: Vec<Entry<T>>,
    pub del: Vec<Entry<T>>,
    /// Deletes produced by normalization (propagated like `del`).
    pub norm_del: Vec<Entry<T>>,
    pub seen: Vec<T>,
}

/// Mathematical state of a fact staging.
#[verifier::ext_equal]
pub struct StagedView {
    pub ins: Seq<Entry<FactId>>,
    pub upd: Seq<Entry<FactId>>,
    pub del: Seq<Entry<FactId>>,
    pub norm_del: Seq<Entry<FactId>>,
    pub seen: Seq<FactId>,
}

impl View for Staged<FactId> {
    type V = StagedView;

    open spec fn view(&self) -> StagedView {
        StagedView {
            ins: self.ins@,
            upd: self.upd@,
            del: self.del@,
            norm_del: self.norm_del@,
            seen: self.seen@,
        }
    }
}

/// Some entry of `es` stages `f`.
pub open spec fn has_fact(es: Seq<Entry<FactId>>, f: FactId) -> bool {
    exists|j: int| 0 <= j < es.len() && (#[trigger] es[j]).0 == f
}

/// Index of the first entry staging `f` (`es.len()` when none).
pub open spec fn entry_idx(es: Seq<Entry<FactId>>, f: FactId) -> int
    decreases es.len(),
{
    if es.len() == 0 {
        0
    } else if es[0].0 == f {
        0
    } else {
        1 + entry_idx(es.drop_first(), f)
    }
}

/// `entry_idx` is the first entry staging `f`, or the length.
pub proof fn lemma_entry_idx(es: Seq<Entry<FactId>>, f: FactId)
    ensures
        0 <= entry_idx(es, f) <= es.len(),
        entry_idx(es, f) < es.len() ==> es[entry_idx(es, f)].0 == f,
        forall|j: int| 0 <= j < entry_idx(es, f) ==> es[j].0 != f,
        (entry_idx(es, f) < es.len()) == has_fact(es, f),
    decreases es.len(),
{
    if es.len() > 0 && es[0].0 != f {
        lemma_entry_idx(es.drop_first(), f);
        assert forall|j: int| 0 <= j < entry_idx(es, f) implies es[j].0 != f by {
            if j > 0 {
                assert(es[j] == es.drop_first()[j - 1]);
            }
        }
        if has_fact(es, f) {
            let k = choose|k: int| 0 <= k < es.len() && (#[trigger] es[k]).0 == f;
            assert(es.drop_first()[k - 1].0 == f);
        }
        if has_fact(es.drop_first(), f) {
            let k = choose|k: int| 0 <= k < es.drop_first().len() && (#[trigger] es.drop_first()[k]).0 == f;
            assert(es[k + 1].0 == f);
        }
    } else if es.len() > 0 {
        assert(es[0].0 == f);
    }
}

/// `es` without its first entry staging `f` (unchanged when none).
pub open spec fn drop_entry(es: Seq<Entry<FactId>>, f: FactId) -> Seq<Entry<FactId>> {
    let i = entry_idx(es, f);
    if i < es.len() {
        es.remove(i)
    } else {
        es
    }
}

/// Every staged fact is recorded in `seen`.
pub open spec fn staged_wf(v: StagedView) -> bool {
    &&& forall|j: int| 0 <= j < v.ins.len() ==> v.seen.contains((#[trigger] v.ins[j]).0)
    &&& forall|j: int| 0 <= j < v.upd.len() ==> v.seen.contains((#[trigger] v.upd[j]).0)
    &&& forall|j: int| 0 <= j < v.del.len() ==> v.seen.contains((#[trigger] v.del[j]).0)
    &&& forall|j: int| 0 <= j < v.norm_del.len() ==> v.seen.contains((#[trigger] v.norm_del[j]).0)
}

/// Nothing staged.
pub open spec fn staged_empty(v: StagedView) -> bool {
    v.ins.len() == 0 && v.upd.len() == 0 && v.del.len() == 0 && v.norm_del.len() == 0
}

/// The empty staging.
pub open spec fn staged_default() -> StagedView {
    StagedView {
        ins: Seq::empty(),
        upd: Seq::empty(),
        del: Seq::empty(),
        norm_del: Seq::empty(),
        seen: Seq::empty(),
    }
}

/// Position of the first entry of `es` staging `f`.
pub fn entry_position(es: &Vec<Entry<FactId>>, f: FactId) -> (r: Option<usize>)
    ensures
        r is Some <==> has_fact(es@, f),
        r matches Some(i) ==> i == entry_idx(es@, f) && i < es@.len(),
        r is None ==> entry_idx(es@, f) == es@.len(),
{
    proof {
        lemma_entry_idx(es@, f);
    }
    let mut i: usize = 0;
    while i < es.len()
        invariant
            i <= es.len(),
            forall|j: int| 0 <= j < i ==> es@[j].0 != f,
            0 <= entry_idx(es@, f) <= es@.len(),
            entry_idx(es@, f) < es@.len() ==> es@[entry_idx(es@, f)].0 == f,
            forall|j: int| 0 <= j < entry_idx(es@, f) ==> es@[j].0 != f,
        decreases es.len() - i,
    {
        if es[i].0 == f {
            return Some(i);
        }
        i = i + 1;
    }
    None
}

impl Staged<FactId> {
    /// The empty staging.
    pub fn empty() -> (r: Self)
        ensures
            r@ == staged_default(),
            staged_wf(r@),
    {
        Staged { ins: Vec::new(), upd: Vec::new(), del: Vec::new(), norm_del: Vec::new(), seen: Vec::new() }
    }

    /// Whether nothing is staged.
    pub fn is_empty(&self) -> (r: bool)
        ensures
            r == staged_empty(self@),
    {
        self.ins.len() == 0 && self.upd.len() == 0 && self.del.len() == 0 && self.norm_del.len() == 0
    }

    /// Whether `f` may be staged (false proves it is not).
    pub fn maybe_contains(&self, f: &FactId) -> (r: bool)
        ensures
            r == self@.seen.contains(*f),
    {
        crate::seqs::vec_contains(&self.seen, *f)
    }

    /// Record `f` as seen.
    pub fn seen_add(&mut self, f: &FactId)
        ensures
            final(self)@ == (StagedView { seen: old(self)@.seen.push(*f), ..old(self)@ }),
    {
        self.seen.push(*f);
    }

    /// Stage an insert of `f` (phase 0).
    pub fn add_ins(&mut self, f: FactId, o: Origin)
        ensures
            final(self)@ == (StagedView { ins: old(self)@.ins.push((f, o, 0)), seen: old(self)@.seen.push(f), ..old(self)@ }),
    {
        self.seen.push(f);
        self.ins.push((f, o, 0));
    }

    /// Stage an update of `f` (phase 0).
    pub fn add_upd(&mut self, f: FactId, o: Origin)
        ensures
            final(self)@ == (StagedView { upd: old(self)@.upd.push((f, o, 0)), seen: old(self)@.seen.push(f), ..old(self)@ }),
    {
        self.seen.push(f);
        self.upd.push((f, o, 0));
    }

    /// Stage a delete of `f` (phase 0).
    pub fn add_del(&mut self, f: FactId, o: Origin)
        ensures
            final(self)@ == (StagedView { del: old(self)@.del.push((f, o, 0)), seen: old(self)@.seen.push(f), ..old(self)@ }),
    {
        self.seen.push(f);
        self.del.push((f, o, 0));
    }

    /// Hand over everything staged, leaving the staging empty.
    pub fn take(&mut self) -> (r: Self)
        ensures
            r@ == old(self)@,
            final(self)@ == staged_default(),
    {
        let mut out = Staged::<FactId>::empty();
        std::mem::swap(&mut out, self);
        out
    }
}

/// A fact tuple as a list of fact ids.
pub type Tup = Vec<FactId>;

/// A staged tuple entry seen through its view.
pub type TupEntry = (Seq<FactId>, Origin, u32);

/// Mathematical state of a tuple staging.
#[verifier::ext_equal]
pub struct TupStagedView {
    pub ins: Seq<TupEntry>,
    pub upd: Seq<TupEntry>,
    pub del: Seq<TupEntry>,
    pub norm_del: Seq<TupEntry>,
    pub seen: Seq<Seq<FactId>>,
}

/// The view of a list of staged tuple entries.
pub open spec fn tup_entries(es: Seq<Entry<Tup>>) -> Seq<TupEntry> {
    es.map_values(|e: Entry<Tup>| (e.0@, e.1, e.2))
}

impl View for Staged<Tup> {
    type V = TupStagedView;

    open spec fn view(&self) -> TupStagedView {
        TupStagedView {
            ins: tup_entries(self.ins@),
            upd: tup_entries(self.upd@),
            del: tup_entries(self.del@),
            norm_del: tup_entries(self.norm_del@),
            seen: self.seen@.map_values(|t: Tup| t@),
        }
    }
}

/// The empty tuple staging.
pub open spec fn tup_staged_default() -> TupStagedView {
    TupStagedView {
        ins: Seq::empty(),
        upd: Seq::empty(),
        del: Seq::empty(),
        norm_del: Seq::empty(),
        seen: Seq::empty(),
    }
}

/// Whether two tuples hold the same facts in the same order.
pub fn tup_eq(a: &Tup, b: &Tup) -> (r: bool)
    ensures
        r == (a@ == b@),
{
    if a.len() != b.len() {
        return false;
    }
    let mut i: usize = 0;
    while i < a.len()
        invariant
            i <= a.len(),
            a.len() == b.len(),
            forall|j: int| 0 <= j < i ==> a@[j] == b@[j],
        decreases a.len() - i,
    {
        if a[i] != b[i] {
            return false;
        }
        i = i + 1;
    }
    proof {
        assert(a@ =~= b@);
    }
    true
}

/// A copy of a tuple.
pub fn tup_copy(a: &Tup) -> (r: Tup)
    ensures
        r@ == a@,
{
    let mut out: Tup = Vec::new();
    let mut i: usize = 0;
    while i < a.len()
        invariant
            i <= a.len(),
            out@ == a@.subrange(0, i as int),
        decreases a.len() - i,
    {
        out.push(a[i]);
        i = i + 1;
        proof {
            assert(out@ =~= a@.subrange(0, i as int));
        }
    }
    proof {
        assert(a@.subrange(0, a.len() as int) =~= a@);
    }
    out
}

/// Index of the first entry of `es` staging tuple `t` (`es.len()` when
/// none).
pub open spec fn tup_idx(es: Seq<TupEntry>, t: Seq<FactId>) -> int
    decreases es.len(),
{
    if es.len() == 0 {
        0
    } else if es[0].0 == t {
        0
    } else {
        1 + tup_idx(es.drop_first(), t)
    }
}

/// `tup_idx` is the first entry staging `t`, or the length.
pub proof fn lemma_tup_idx(es: Seq<TupEntry>, t: Seq<FactId>)
    ensures
        0 <= tup_idx(es, t) <= es.len(),
        tup_idx(es, t) < es.len() ==> es[tup_idx(es, t)].0 == t,
        forall|j: int| 0 <= j < tup_idx(es, t) ==> es[j].0 != t,
    decreases es.len(),
{
    if es.len() > 0 && es[0].0 != t {
        lemma_tup_idx(es.drop_first(), t);
        assert forall|j: int| 0 <= j < tup_idx(es, t) implies es[j].0 != t by {
            if j > 0 {
                assert(es[j] == es.drop_first()[j - 1]);
            }
        }
    }
}

/// Position of the first entry staging tuple `t`.
pub fn tup_position(es: &Vec<Entry<Tup>>, t: &Tup) -> (r: Option<usize>)
    ensures
        r matches Some(i) ==> i == tup_idx(tup_entries(es@), t@) && i < es@.len(),
        r is None ==> tup_idx(tup_entries(es@), t@) == es@.len(),
{
    let ghost v = tup_entries(es@);
    proof {
        lemma_tup_idx(v, t@);
    }
    let mut i: usize = 0;
    while i < es.len()
        invariant
            i <= es.len(),
            v == tup_entries(es@),
            v.len() == es@.len(),
            forall|j: int| 0 <= j < i ==> v[j].0 != t@,
            0 <= tup_idx(v, t@) <= v.len(),
            tup_idx(v, t@) < v.len() ==> v[tup_idx(v, t@)].0 == t@,
            forall|j: int| 0 <= j < tup_idx(v, t@) ==> v[j].0 != t@,
        decreases es.len() - i,
    {
        proof {
            assert(v[i as int] == (es@[i as int].0@, es@[i as int].1, es@[i as int].2));
        }
        if tup_eq(&es[i].0, t) {
            return Some(i);
        }
        i = i + 1;
    }
    None
}

impl Staged<Tup> {
    /// The empty tuple staging.
    pub fn empty_tuples() -> (r: Self)
        ensures
            r@ == tup_staged_default(),
    {
        let r = Staged { ins: Vec::new(), upd: Vec::new(), del: Vec::new(), norm_del: Vec::new(), seen: Vec::new() };
        proof {
            assert(r@ =~= tup_staged_default());
        }
        r
    }

    /// Hand over everything staged, leaving the staging empty.
    pub fn take_tuples(&mut self) -> (r: Self)
        ensures
            r@ == old(self)@,
            final(self)@ == tup_staged_default(),
    {
        let mut out = Staged::<Tup>::empty_tuples();
        std::mem::swap(&mut out, self);
        out
    }

    /// Record `t` as seen.
    pub fn seen_add_tuple(&mut self, t: &Tup)
        ensures
            final(self)@ == (TupStagedView { seen: old(self)@.seen.push(t@), ..old(self)@ }),
    {
        self.seen.push(tup_copy(t));
        proof {
            assert(self@.seen =~= old(self)@.seen.push(t@));
        }
    }

    /// Stage a delete of `t` (phase 0).
    pub fn add_del_tuple(&mut self, t: Tup, o: Origin)
        ensures
            final(self)@ == (TupStagedView { del: old(self)@.del.push((t@, o, 0)), seen: old(self)@.seen.push(t@), ..old(self)@ }),
    {
        self.seen.push(tup_copy(&t));
        self.del.push((t, o, 0));
        proof {
            assert(self@.seen =~= old(self)@.seen.push(t@));
            assert(self@.del =~= old(self)@.del.push((t@, o, 0)));
        }
    }
}

} // verus!
