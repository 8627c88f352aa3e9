//! Truth-maintenance equality keys: for one value-equality key, at most
//! one justified handle with its supporting activations (beliefs), plus
//! any number of stated handles. A logical insert merges onto the key's
//! justified handle, or records a dependency on a stated-only key, or asks
//! for the justified fact to be created; a repeated dependency of the same
//! activation is idempotent.

use vstd::prelude::*;
use crate::value::{FactId, FactView, JustificationView, SupportView, Value};

verus! {

/// One support of a key: the activation (rule index and fired tuple)
/// whose logical insert supports it, and its global creation number.
pub struct Justif {
    pub ri: usize,
    pub tuple: Vec<FactId>,
    pub seq: u64,
}

/// One equality key's entry (see the module doc). `had_justified` records
/// that the key once hosted a justified handle; `pending_vals` holds the
/// values of a logical belief recorded on a stated-only key.
pub struct EqKeyEntry {
    pub justified: Option<FactId>,
    pub beliefs: Vec<Justif>,
    pub stated: Vec<FactId>,
    pub had_justified: bool,
    pub pending_vals: Option<Vec<Value>>,
}

/// A support as plain values.
pub type Belief = (usize, Seq<FactId>, u64);

/// Mathematical state of an `EqKeyEntry`.
#[verifier::ext_equal]
pub struct EqKeyView {
    pub justified: Option<FactId>,
    pub beliefs: Seq<Belief>,
    pub stated: Seq<FactId>,
    pub had_justified: bool,
    pub pending_vals: Option<Seq<Value>>,
}

/// The supports of a list of beliefs as plain values.
pub open spec fn beliefs_view(bs: Seq<Justif>) -> Seq<Belief> {
    bs.map_values(|j: Justif| (j.ri, j.tuple@, j.seq))
}

impl View for EqKeyEntry {
    type V = EqKeyView;

    open spec fn view(&self) -> EqKeyView {
        EqKeyView {
            justified: self.justified,
            beliefs: beliefs_view(self.beliefs@),
            stated: self.stated@,
            had_justified: self.had_justified,
            pending_vals: match self.pending_vals {
                Some(v) => Some(v@),
                None => None,
            },
        }
    }
}

/// Activation (`ri`, `t`) already supports the key.
pub open spec fn has_belief(bs: Seq<Belief>, ri: usize, t: Seq<FactId>) -> bool {
    exists|j: int| 0 <= j < bs.len() && (#[trigger] bs[j]).0 == ri && bs[j].1 == t
}

/// The key has neither a justified nor a stated handle: a logical insert
/// creates the justified fact.
pub open spec fn needs_insert(v: EqKeyView) -> bool {
    v.justified is None && v.stated.len() == 0
}

/// A logical insert by activation (`ri`, `t`) with values `vals`: on a key
/// with a justified or stated handle, the activation becomes a support
/// unless it already is one, and a key without a justified handle keeps
/// the first pending values; an empty key is left for the insert.
pub open spec fn tms_merge(v: EqKeyView, ri: usize, t: Seq<FactId>, seq: u64, vals: Seq<Value>) -> EqKeyView {
    if needs_insert(v) {
        v
    } else {
        let b = if has_belief(v.beliefs, ri, t) { v.beliefs } else { v.beliefs.push((ri, t, seq)) };
        let p = if v.justified is None && v.pending_vals is None { Some(vals) } else { v.pending_vals };
        EqKeyView { beliefs: b, pending_vals: p, ..v }
    }
}

/// A support with a newer creation number keeps the order.
proof fn lemma_push_sorted(bs: Seq<Belief>, b: Belief)
    ensures
        beliefs_sorted(bs) && seq_fresh(bs, b.2) ==> beliefs_sorted(bs.push(b)),
{
    if beliefs_sorted(bs) && seq_fresh(bs, b.2) {
        let r = bs.push(b);
        assert forall|i: int, j: int| 0 <= i < j < r.len() implies (#[trigger] r[i]).2 < (#[trigger] r[j]).2 by {
            assert(r[i] == bs[i]);
            if j < bs.len() {
                assert(r[j] == bs[j]);
            }
        }
    }
}

/// A copy of a tuple that Verus knows equals it.
fn tuple_copy(t: &Vec<FactId>) -> (r: Vec<FactId>)
    ensures
        r@ == t@,
{
    let mut r: Vec<FactId> = Vec::new();
    let mut i: usize = 0;
    while i < t.len()
        invariant
            i <= t@.len(),
            r@ == t@.subrange(0, i as int),
        decreases t@.len() - i,
    {
        r.push(t[i]);
        i = i + 1;
        proof {
            assert(r@ =~= t@.subrange(0, i as int));
        }
    }
    proof {
        assert(t@.subrange(0, t@.len() as int) =~= t@);
    }
    r
}

/// A copy of a value list that Verus knows equals it.
fn values_copy(vs: &Vec<Value>) -> (r: Vec<Value>)
    ensures
        r@ == vs@,
{
    let mut r: Vec<Value> = Vec::new();
    let mut i: usize = 0;
    while i < vs.len()
        invariant
            i <= vs@.len(),
            r@ == vs@.subrange(0, i as int),
        decreases vs@.len() - i,
    {
        r.push(vs[i].duplicate());
        i = i + 1;
        proof {
            assert(r@ =~= vs@.subrange(0, i as int));
        }
    }
    proof {
        assert(vs@.subrange(0, vs@.len() as int) =~= vs@);
    }
    r
}

/// Whether two tuples hold the same facts in order.
fn same_tuple(a: &Vec<FactId>, b: &Vec<FactId>) -> (r: bool)
    ensures
        r == (a@ == b@),
{
    if a.len() != b.len() {
        return false;
    }
    let mut i: usize = 0;
    while i < a.len()
        invariant
            i <= a@.len(),
            a@.len() == b@.len(),
            forall|k: int| 0 <= k < i ==> a@[k] == b@[k],
        decreases a@.len() - i,
    {
        if a[i] != b[i] {
            return false;
        }
        i = i + 1;
    }
    proof {
        assert(a@ =~= b@);
    }
    true
}

impl EqKeyEntry {
    /// An empty key entry.
    pub fn new() -> (r: EqKeyEntry)
        ensures
            r@ == (EqKeyView {
                justified: None,
                beliefs: Seq::empty(),
                stated: Seq::empty(),
                had_justified: false,
                pending_vals: None,
            }),
    {
        let r = EqKeyEntry { justified: None, beliefs: Vec::new(), stated: Vec::new(), had_justified: false, pending_vals: None };
        proof {
            assert(r@.beliefs =~= Seq::<Belief>::empty());
        }
        r
    }

    /// Whether activation (`ri`, `t`) already supports the key.
    pub fn supports(&self, ri: usize, t: &Vec<FactId>) -> (r: bool)
        ensures
            r == has_belief(self@.beliefs, ri, t@),
    {
        let ghost bv = self@.beliefs;
        let mut i: usize = 0;
        while i < self.beliefs.len()
            invariant
                i <= self.beliefs@.len(),
                bv == beliefs_view(self.beliefs@),
                forall|k: int| 0 <= k < i ==> !((#[trigger] bv[k]).0 == ri && bv[k].1 == t@),
            decreases self.beliefs@.len() - i,
        {
            proof {
                assert(bv[i as int] == (self.beliefs@[i as int].ri, self.beliefs@[i as int].tuple@, self.beliefs@[i as int].seq));
            }
            if self.beliefs[i].ri == ri && same_tuple(&self.beliefs[i].tuple, t) {
                return true;
            }
            i = i + 1;
        }
        false
    }

    /// A logical insert by activation (`ri`, `t`) with creation number
    /// `seq` and values `vals` (see `tms_merge`); returns whether the key
    /// is empty, so that the justified fact must now be created.
    pub fn merge_logical(&mut self, ri: usize, t: &Vec<FactId>, seq: u64, vals: &Vec<Value>) -> (need_insert: bool)
        ensures
            need_insert == needs_insert(old(self)@),
            final(self)@ == tms_merge(old(self)@, ri, t@, seq, vals@),
            beliefs_sorted(old(self)@.beliefs) && seq_fresh(old(self)@.beliefs, seq) ==> beliefs_sorted(final(self)@.beliefs),
    {
        proof {
            lemma_push_sorted(self@.beliefs, (ri, t@, seq));
        }
        let need = self.justified.is_none() && self.stated.len() == 0;
        if !need {
            if !self.supports(ri, t) {
                let ghost b0 = self@.beliefs;
                self.beliefs.push(Justif { ri, tuple: tuple_copy(t), seq });
                proof {
                    assert(self@.beliefs =~= b0.push((ri, t@, seq)));
                }
            }
            if self.justified.is_none() && self.pending_vals.is_none() {
                self.pending_vals = Some(values_copy(vals));
            }
        }
        need
    }

    /// The justified fact `f` was created for the key by activation
    /// (`ri`, `t`): it becomes the justified handle, the key records that
    /// it hosted one, and the activation is its first support.
    pub fn attach_justified(&mut self, f: FactId, ri: usize, t: &Vec<FactId>, seq: u64)
        ensures
            final(self)@ == (EqKeyView {
                justified: Some(f),
                had_justified: true,
                beliefs: old(self)@.beliefs.push((ri, t@, seq)),
                ..old(self)@
            }),
            beliefs_sorted(old(self)@.beliefs) && seq_fresh(old(self)@.beliefs, seq) ==> beliefs_sorted(final(self)@.beliefs),
    {
        proof {
            lemma_push_sorted(self@.beliefs, (ri, t@, seq));
        }
        let ghost b0 = self@.beliefs;
        self.justified = Some(f);
        self.had_justified = true;
        self.beliefs.push(Justif { ri, tuple: tuple_copy(t), seq });
        proof {
            assert(self@.beliefs =~= b0.push((ri, t@, seq)));
        }
    }

    /// Note a stated handle of the key.
    pub fn note_stated(&mut self, f: FactId)
        ensures
            final(self)@ == (EqKeyView { stated: old(self)@.stated.push(f), ..old(self)@ }),
    {
        self.stated.push(f);
    }
}

/// The supports are in creation order (creation numbers strictly rise).
pub open spec fn beliefs_sorted(bs: Seq<Belief>) -> bool {
    forall|i: int, j: int| 0 <= i < j < bs.len() ==> (#[trigger] bs[i]).2 < (#[trigger] bs[j]).2
}

/// Creation number `seq` is newer than every support's.
pub open spec fn seq_fresh(bs: Seq<Belief>, seq: u64) -> bool {
    forall|j: int| 0 <= j < bs.len() ==> (#[trigger] bs[j]).2 < seq
}

/// The supports without those of activation (`ri`, `t`), order kept.
pub open spec fn without_act(bs: Seq<Belief>, ri: usize, t: Seq<FactId>) -> Seq<Belief>
    decreases bs.len(),
{
    if bs.len() == 0 {
        bs
    } else {
        let w = without_act(bs.drop_last(), ri, t);
        if bs.last().0 == ri && bs.last().1 == t {
            w
        } else {
            w.push(bs.last())
        }
    }
}

/// The stated handles that are still live, order kept.
pub open spec fn live_stated(st: Seq<FactId>, live: Seq<FactId>) -> Seq<FactId>
    decreases st.len(),
{
    if st.len() == 0 {
        st
    } else {
        let w = live_stated(st.drop_last(), live);
        if live.contains(st.last()) {
            w.push(st.last())
        } else {
            w
        }
    }
}

/// Removing an activation's supports keeps the rest in order, so
/// creation order survives.
proof fn lemma_without_act_sorted(bs: Seq<Belief>, ri: usize, t: Seq<FactId>)
    ensures
        without_act(bs, ri, t).len() <= bs.len(),
        forall|k: int| 0 <= k < without_act(bs, ri, t).len() ==> bs.contains(#[trigger] without_act(bs, ri, t)[k]),
        beliefs_sorted(bs) ==> beliefs_sorted(without_act(bs, ri, t)),
        beliefs_sorted(bs) && bs.len() > 0 ==> seq_fresh(without_act(bs.drop_last(), ri, t), bs.last().2),
    decreases bs.len(),
{
    if bs.len() > 0 {
        let d = bs.drop_last();
        lemma_without_act_sorted(d, ri, t);
        let w = without_act(d, ri, t);
        assert forall|k: int| 0 <= k < w.len() implies bs.contains(#[trigger] w[k]) by {
            assert(d.contains(w[k]));
            let m = choose|m: int| 0 <= m < d.len() && d[m] == w[k];
            assert(bs[m] == w[k]);
        }
        if beliefs_sorted(bs) {
            assert(beliefs_sorted(d)) by {
                assert forall|i: int, j: int| 0 <= i < j < d.len() implies (#[trigger] d[i]).2 < (#[trigger] d[j]).2 by {
                    assert(d[i] == bs[i] && d[j] == bs[j]);
                }
            }
            assert forall|k: int| 0 <= k < w.len() implies (#[trigger] w[k]).2 < bs.last().2 by {
                assert(d.contains(w[k]));
                let m = choose|m: int| 0 <= m < d.len() && d[m] == w[k];
                assert(bs[m] == w[k]);
                assert(bs[m].2 < bs[bs.len() - 1].2);
            }
            let r = w.push(bs.last());
            if !(bs.last().0 == ri && bs.last().1 == t) {
                assert forall|i: int, j: int| 0 <= i < j < r.len() implies (#[trigger] r[i]).2 < (#[trigger] r[j]).2 by {
                    if j < w.len() {
                        assert(r[i] == w[i] && r[j] == w[j]);
                    } else {
                        assert(r[i] == w[i]);
                    }
                }
            }
        }
    }
}

impl EqKeyEntry {
    /// Activation (`ri`, `t`) stops supporting the key (its tuple
    /// broke); returns whether the key is left without any support.
    pub fn drop_support(&mut self, ri: usize, t: &Vec<FactId>) -> (unsupported: bool)
        ensures
            final(self)@ == (EqKeyView { beliefs: without_act(old(self)@.beliefs, ri, t@), ..old(self)@ }),
            unsupported == (without_act(old(self)@.beliefs, ri, t@).len() == 0),
            beliefs_sorted(old(self)@.beliefs) ==> beliefs_sorted(final(self)@.beliefs),
    {
        proof {
            lemma_without_act_sorted(old(self)@.beliefs, ri, t@);
        }
        let ghost b0 = self@.beliefs;
        let mut kept: Vec<Justif> = Vec::new();
        let mut i: usize = 0;
        proof {
            assert(b0.subrange(0, 0) =~= Seq::<Belief>::empty());
        }
        while i < self.beliefs.len()
            invariant
                i <= self.beliefs@.len(),
                b0 == beliefs_view(self.beliefs@),
                beliefs_view(kept@) == without_act(b0.subrange(0, i as int), ri, t@),
            decreases self.beliefs@.len() - i,
        {
            let j = &self.beliefs[i];
            proof {
                assert(b0.subrange(0, i + 1).drop_last() =~= b0.subrange(0, i as int));
                assert(b0.subrange(0, i + 1).last() == (j.ri, j.tuple@, j.seq));
            }
            if !(j.ri == ri && same_tuple(&j.tuple, t)) {
                let ghost k0 = beliefs_view(kept@);
                kept.push(Justif { ri: j.ri, tuple: tuple_copy(&j.tuple), seq: j.seq });
                proof {
                    assert(beliefs_view(kept@) =~= k0.push((j.ri, j.tuple@, j.seq)));
                }
            }
            i = i + 1;
        }
        proof {
            assert(b0.subrange(0, b0.len() as int) =~= b0);
        }
        self.beliefs = kept;
        self.beliefs.len() == 0
    }

    /// The supports as views, in creation order: each names its rule
    /// (`names[ri]`), its tuple and its creation number.
    pub fn supports_view(&self, names: &Vec<String>) -> (r: Vec<SupportView>)
        requires
            forall|j: int| 0 <= j < self@.beliefs.len() ==> (#[trigger] self@.beliefs[j]).0 < names@.len(),
        ensures
            r@.len() == self@.beliefs.len(),
            forall|j: int| 0 <= j < r@.len() ==> {
                &&& (#[trigger] r@[j]).rule@ == names@[self@.beliefs[j].0 as int]@
                &&& r@[j].tuple@ == self@.beliefs[j].1
                &&& r@[j].seq == self@.beliefs[j].2
            },
            beliefs_sorted(self@.beliefs) ==> forall|i: int, j: int| 0 <= i < j < r@.len() ==> (#[trigger] r@[i]).seq < (#[trigger] r@[j]).seq,
    {
        let ghost bv = self@.beliefs;
        let mut out: Vec<SupportView> = Vec::new();
        let mut i: usize = 0;
        while i < self.beliefs.len()
            invariant
                i <= self.beliefs@.len(),
                bv == beliefs_view(self.beliefs@),
                forall|j: int| 0 <= j < bv.len() ==> (#[trigger] bv[j]).0 < names@.len(),
                out@.len() == i,
                forall|j: int| 0 <= j < i ==> {
                    &&& (#[trigger] out@[j]).rule@ == names@[bv[j].0 as int]@
                    &&& out@[j].tuple@ == bv[j].1
                    &&& out@[j].seq == bv[j].2
                },
            decreases self.beliefs@.len() - i,
        {
            let j = &self.beliefs[i];
            proof {
                assert(bv[i as int] == (j.ri, j.tuple@, j.seq));
            }
            let name = names[j.ri].clone();
            out.push(SupportView { rule: name, tuple: tuple_copy(&j.tuple), seq: j.seq });
            i = i + 1;
        }
        out
    }

    /// The key's stated handles that are still live (`live` lists the
    /// live facts), in order.
    pub fn live_siblings(&self, live: &Vec<FactId>) -> (r: Vec<FactId>)
        ensures
            r@ == live_stated(self@.stated, live@),
    {
        let mut out: Vec<FactId> = Vec::new();
        let mut i: usize = 0;
        proof {
            assert(self.stated@.subrange(0, 0) =~= Seq::<FactId>::empty());
        }
        while i < self.stated.len()
            invariant
                i <= self.stated@.len(),
                out@ == live_stated(self.stated@.subrange(0, i as int), live@),
            decreases self.stated@.len() - i,
        {
            proof {
                assert(self.stated@.subrange(0, i + 1).drop_last() =~= self.stated@.subrange(0, i as int));
            }
            if crate::seqs::vec_contains(live, self.stated[i]) {
                out.push(self.stated[i]);
            }
            i = i + 1;
        }
        proof {
            assert(self.stated@.subrange(0, self.stated@.len() as int) =~= self.stated@);
        }
        out
    }

    /// The justification view of a justified key: its fact, the fact's
    /// rendering, its supports in creation order and its live stated
    /// siblings.
    pub fn justification(&self, rendering: FactView, names: &Vec<String>, live: &Vec<FactId>) -> (r: JustificationView)
        requires
            self@.justified is Some,
            forall|j: int| 0 <= j < self@.beliefs.len() ==> (#[trigger] self@.beliefs[j]).0 < names@.len(),
        ensures
            r.fact == self@.justified.unwrap(),
            r.rendering == rendering,
            r.supports@.len() == self@.beliefs.len(),
            forall|j: int| 0 <= j < r.supports@.len() ==> {
                &&& (#[trigger] r.supports@[j]).rule@ == names@[self@.beliefs[j].0 as int]@
                &&& r.supports@[j].tuple@ == self@.beliefs[j].1
                &&& r.supports@[j].seq == self@.beliefs[j].2
            },
            r.stated_siblings@ == live_stated(self@.stated, live@),
    {
        let fact = match self.justified {
            Some(f) => f,
            None => 0,
        };
        let supports = self.supports_view(names);
        let stated_siblings = self.live_siblings(live);
        JustificationView { fact, rendering, supports, stated_siblings }
    }
}

/// The key table entry that justifies fact `f`: the first whose justified
/// handle is `f` (`keys.len()` when none).
pub open spec fn why_idx(keys: Seq<EqKeyView>, f: FactId) -> int
    decreases keys.len(),
{
    if keys.len() == 0 {
        0
    } else if keys[0].justified == Some(f) {
        0
    } else {
        1 + why_idx(keys.drop_first(), f)
    }
}

/// The key table as views.
pub open spec fn keys_view(keys: Seq<EqKeyEntry>) -> Seq<EqKeyView> {
    keys.map_values(|e: EqKeyEntry| e@)
}

/// `why_idx` is the first entry justifying `f`, or the length.
proof fn lemma_why_idx(keys: Seq<EqKeyView>, f: FactId)
    ensures
        0 <= why_idx(keys, f) <= keys.len(),
        why_idx(keys, f) < keys.len() ==> keys[why_idx(keys, f)].justified == Some(f),
        forall|j: int| 0 <= j < why_idx(keys, f) ==> (#[trigger] keys[j]).justified != Some(f),
    decreases keys.len(),
{
    if keys.len() > 0 && keys[0].justified != Some(f) {
        lemma_why_idx(keys.drop_first(), f);
        assert forall|j: int| 0 <= j < why_idx(keys, f) implies (#[trigger] keys[j]).justified != Some(f) by {
            if j > 0 {
                assert(keys[j] == keys.drop_first()[j - 1]);
            }
        }
    }
}

/// Why does `f` hold: the key entry that justifies it (see `why_idx`),
/// `None` for a fact no key justifies (unkeyed or purely stated).
pub fn why(keys: &Vec<EqKeyEntry>, f: FactId) -> (r: Option<usize>)
    ensures
        r is None <==> why_idx(keys_view(keys@), f) == keys@.len(),
        r matches Some(i) ==> i == why_idx(keys_view(keys@), f) && i < keys@.len() && keys@[i as int]@.justified == Some(f),
{
    let ghost kv = keys_view(keys@);
    proof {
        lemma_why_idx(kv, f);
    }
    let mut i: usize = 0;
    while i < keys.len()
        invariant
            i <= keys@.len(),
            kv == keys_view(keys@),
            kv.len() == keys@.len(),
            forall|j: int| 0 <= j < i ==> (#[trigger] kv[j]).justified != Some(f),
            0 <= why_idx(kv, f) <= kv.len(),
            why_idx(kv, f) < kv.len() ==> kv[why_idx(kv, f)].justified == Some(f),
            forall|j: int| 0 <= j < why_idx(kv, f) ==> (#[trigger] kv[j]).justified != Some(f),
        decreases keys@.len() - i,
    {
        proof {
            assert(kv[i as int] == keys@[i as int]@);
        }
        if keys[i].justified == Some(f) {
            return Some(i);
        }
        i = i + 1;
    }
    None
}

/// Same-activation dependencies are idempotent: a second logical insert
/// by the same activation onto a key that holds a handle adds no support
/// and changes nothing.
pub proof fn law_logical_dep_idempotent(v: EqKeyView, ri: usize, t: Seq<FactId>, s1: u64, x1: Seq<Value>, s2: u64, x2: Seq<Value>)
    requires
        !needs_insert(v),
    ensures
        tms_merge(tms_merge(v, ri, t, s1, x1), ri, t, s2, x2) == tms_merge(v, ri, t, s1, x1),
        has_belief(tms_merge(v, ri, t, s1, x1).beliefs, ri, t),
{
    let w = tms_merge(v, ri, t, s1, x1);
    if !has_belief(v.beliefs, ri, t) {
        let n = v.beliefs.len() as int;
        assert(w.beliefs[n] == (ri, t, s1));
    }
    assert(has_belief(w.beliefs, ri, t));
    assert(!needs_insert(w));
    if w.justified is None {
        assert(w.pending_vals is Some);
    }
    assert(tms_merge(w, ri, t, s2, x2) =~= w);
}

} // verus!
