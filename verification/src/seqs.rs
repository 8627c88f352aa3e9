//! Fact-id lists: the list operations the propagation shadows are built
//! from, and the rank map of a predicted emission order.

use vstd::prelude::*;
use std::collections::HashMap;
use crate::value::FactId;

verus! {

broadcast use vstd::std_specs::hash::group_hash_axioms;

/// `s` with every occurrence of `x` removed, order kept.
pub open spec fn without(s: Seq<FactId>, x: FactId) -> Seq<FactId>
    decreases s.len(),
{
    if s.len() == 0 {
        s
    } else {
        let w = without(s.drop_last(), x);
        if s.last() == x {
            w
        } else {
            w.push(s.last())
        }
    }
}

/// Index of the first occurrence of `x` in `s` (`s.len()` when absent).
pub open spec fn first_idx(s: Seq<FactId>, x: FactId) -> int
    decreases s.len(),
{
    if s.len() == 0 {
        0
    } else if s[0] == x {
        0
    } else {
        1 + first_idx(s.drop_first(), x)
    }
}

/// `first_idx` is the first position holding `x`, or the length.
pub proof fn lemma_first_idx(s: Seq<FactId>, x: FactId)
    ensures
        0 <= first_idx(s, x) <= s.len(),
        first_idx(s, x) < s.len() ==> s[first_idx(s, x)] == x,
        forall|j: int| 0 <= j < first_idx(s, x) ==> s[j] != x,
        (first_idx(s, x) < s.len()) == s.contains(x),
    decreases s.len(),
{
    if s.len() > 0 && s[0] != x {
        lemma_first_idx(s.drop_first(), x);
        assert forall|j: int| 0 <= j < first_idx(s, x) implies s[j] != x by {
            if j > 0 {
                assert(s[j] == s.drop_first()[j - 1]);
            }
        }
        if s.contains(x) {
            let k = choose|k: int| 0 <= k < s.len() && s[k] == x;
            assert(s.drop_first()[k - 1] == x);
        }
        if s.drop_first().contains(x) {
            let k = choose|k: int| 0 <= k < s.drop_first().len() && s.drop_first()[k] == x;
            assert(s[k + 1] == x);
        }
    }
}

/// `s` with its first `x` moved to the tail (unchanged when absent).
pub open spec fn move_tail(s: Seq<FactId>, x: FactId) -> Seq<FactId> {
    let i = first_idx(s, x);
    if i < s.len() {
        s.remove(i).push(x)
    } else {
        s
    }
}

/// `s` with its first `x` moved to the head (unchanged when absent).
pub open spec fn hoist_front(s: Seq<FactId>, x: FactId) -> Seq<FactId> {
    let i = first_idx(s, x);
    if i < s.len() {
        seq![x] + s.remove(i)
    } else {
        s
    }
}

/// `s` with its first `x` removed (unchanged when absent).
pub open spec fn remove_first(s: Seq<FactId>, x: FactId) -> Seq<FactId> {
    let i = first_idx(s, x);
    if i < s.len() {
        s.remove(i)
    } else {
        s
    }
}

/// Each fact of `q` mapped to its LAST position in `q`.
pub open spec fn rank_map(q: Seq<FactId>) -> Map<FactId, usize>
    decreases q.len(),
{
    if q.len() == 0 {
        Map::empty()
    } else {
        rank_map(q.drop_last()).insert(q.last(), (q.len() - 1) as usize)
    }
}

/// Whether `x` occurs in `v`.
pub fn vec_contains(v: &Vec<FactId>, x: FactId) -> (r: bool)
    ensures
        r == v@.contains(x),
{
    let mut i: usize = 0;
    while i < v.len()
        invariant
            i <= v.len(),
            forall|j: int| 0 <= j < i ==> v@[j] != x,
        decreases v.len() - i,
    {
        if v[i] == x {
            return true;
        }
        i = i + 1;
    }
    false
}

/// Position of the first `x` in `v`.
pub fn vec_position(v: &Vec<FactId>, x: FactId) -> (r: Option<usize>)
    ensures
        r is Some <==> v@.contains(x),
        r matches Some(i) ==> i == first_idx(v@, x) && i < v@.len(),
        r is None ==> first_idx(v@, x) == v@.len(),
{
    proof {
        lemma_first_idx(v@, x);
    }
    let mut i: usize = 0;
    while i < v.len()
        invariant
            i <= v.len(),
            forall|j: int| 0 <= j < i ==> v@[j] != x,
            0 <= first_idx(v@, x) <= v@.len(),
            first_idx(v@, x) < v@.len() ==> v@[first_idx(v@, x)] == x,
            forall|j: int| 0 <= j < first_idx(v@, x) ==> v@[j] != x,
        decreases v.len() - i,
    {
        if v[i] == x {
            return Some(i);
        }
        i = i + 1;
    }
    None
}

/// Remove every `x` from `v`, keeping the order of the rest.
pub fn retain_ne(v: &mut Vec<FactId>, x: FactId)
    ensures
        final(v)@ == without(old(v)@, x),
{
    let mut out: Vec<FactId> = Vec::new();
    let mut i: usize = 0;
    proof {
        assert(old(v)@.subrange(0, 0) =~= Seq::<FactId>::empty());
    }
    while i < v.len()
        invariant
            i <= v.len(),
            v@ == old(v)@,
            out@ == without(v@.subrange(0, i as int), x),
        decreases v.len() - i,
    {
        proof {
            assert(v@.subrange(0, i + 1).drop_last() =~= v@.subrange(0, i as int));
        }
        if v[i] != x {
            out.push(v[i]);
        }
        i = i + 1;
    }
    proof {
        assert(v@.subrange(0, v.len() as int) =~= v@);
    }
    *v = out;
}

/// Append `src` to `dst`.
pub fn extend_from(dst: &mut Vec<FactId>, src: &Vec<FactId>)
    ensures
        final(dst)@ == old(dst)@ + src@,
{
    let mut i: usize = 0;
    while i < src.len()
        invariant
            i <= src.len(),
            dst@ == old(dst)@ + src@.subrange(0, i as int),
        decreases src.len() - i,
    {
        dst.push(src[i]);
        i = i + 1;
        proof {
            assert(old(dst)@ + src@.subrange(0, i as int) =~= (old(dst)@ + src@.subrange(0, i - 1)).push(src@[i - 1]));
        }
    }
    proof {
        assert(src@.subrange(0, src.len() as int) =~= src@);
    }
}

/// Append `src` reversed to `dst`.
pub fn extend_rev(dst: &mut Vec<FactId>, src: &Vec<FactId>)
    ensures
        final(dst)@ == old(dst)@ + src@.reverse(),
{
    let mut i: usize = src.len();
    while i > 0
        invariant
            i <= src.len(),
            dst@ == old(dst)@ + src@.subrange(i as int, src.len() as int).reverse(),
        decreases i,
    {
        i = i - 1;
        dst.push(src[i]);
        proof {
            assert(src@.subrange(i as int, src.len() as int).reverse() =~= src@.subrange(i + 1, src.len() as int).reverse().push(src@[i as int]));
        }
    }
    proof {
        assert(src@.subrange(0, src.len() as int) =~= src@);
    }
}

/// The rank map of an emission order.
pub fn build_rank(q: &Vec<FactId>) -> (m: HashMap<FactId, usize>)
    ensures
        m@ == rank_map(q@),
{
    let mut m: HashMap<FactId, usize> = HashMap::new();
    let mut i: usize = 0;
    proof {
        assert(q@.subrange(0, 0) =~= Seq::<FactId>::empty());
    }
    while i < q.len()
        invariant
            i <= q.len(),
            m@ == rank_map(q@.subrange(0, i as int)),
        decreases q.len() - i,
    {
        m.insert(q[i], i);
        proof {
            assert(q@.subrange(0, i + 1).drop_last() =~= q@.subrange(0, i as int));
        }
        i = i + 1;
    }
    proof {
        assert(q@.subrange(0, q.len() as int) =~= q@);
    }
    m
}

/// Move the first `x` in `v` to the tail.
pub fn vec_move_tail(v: &mut Vec<FactId>, x: FactId)
    ensures
        final(v)@ == move_tail(old(v)@, x),
{
    proof {
        lemma_first_idx(v@, x);
    }
    if let Some(pos) = vec_position(v, x) {
        v.remove(pos);
        v.push(x);
    }
}

/// Remove the first `x` in `v`.
pub fn vec_remove_first(v: &mut Vec<FactId>, x: FactId)
    ensures
        final(v)@ == remove_first(old(v)@, x),
{
    proof {
        lemma_first_idx(v@, x);
    }
    if let Some(pos) = vec_position(v, x) {
        v.remove(pos);
    }
}


/// Removing `x` never lengthens a list, and shortens it when `x` occurs.
pub proof fn lemma_without_len(s: Seq<FactId>, x: FactId)
    ensures
        without(s, x).len() <= s.len(),
        s.contains(x) ==> without(s, x).len() < s.len(),
        !s.contains(x) ==> without(s, x) == s,
        !without(s, x).contains(x),
    decreases s.len(),
{
    if s.len() > 0 {
        lemma_without_len(s.drop_last(), x);
        if s.contains(x) && s.last() != x {
            let k = choose|k: int| 0 <= k < s.len() && s[k] == x;
            assert(s.drop_last()[k] == x);
        }
        if !s.contains(x) {
            assert(!s.drop_last().contains(x)) by {
                if s.drop_last().contains(x) {
                    let k = choose|k: int| 0 <= k < s.drop_last().len() && s.drop_last()[k] == x;
                    assert(s[k] == x);
                }
            }
            assert(s.drop_last().push(s.last()) =~= s);
        }
        let w = without(s.drop_last(), x);
        if s.last() != x {
            assert(!w.push(s.last()).contains(x)) by {
                if w.push(s.last()).contains(x) {
                    let k = choose|k: int| 0 <= k < w.push(s.last()).len() && w.push(s.last())[k] == x;
                    if k < w.len() {
                        assert(w[k] == x);
                    }
                }
            }
        }
    }
}

/// Moving an element to the tail or head keeps the length.
pub proof fn lemma_move_len(s: Seq<FactId>, x: FactId)
    ensures
        move_tail(s, x).len() == s.len(),
        hoist_front(s, x).len() == s.len(),
        remove_first(s, x).len() == (if s.contains(x) { s.len() - 1 } else { s.len() as int }),
{
    lemma_first_idx(s, x);
}


/// One staged not/exists-side operation: (is_insert, fact, stamp of the
/// rule firing that staged it).
pub type StagedOp = (bool, FactId, u64);

/// Index of the first staged insert of `id` (`s.len()` when none).
pub open spec fn first_ins_idx(s: Seq<StagedOp>, id: FactId) -> int
    decreases s.len(),
{
    if s.len() == 0 {
        0
    } else if s[0].0 && s[0].1 == id {
        0
    } else {
        1 + first_ins_idx(s.drop_first(), id)
    }
}

/// `first_ins_idx` is the first staged insert of `id`, or the length.
pub proof fn lemma_first_ins_idx(s: Seq<StagedOp>, id: FactId)
    ensures
        0 <= first_ins_idx(s, id) <= s.len(),
        first_ins_idx(s, id) < s.len() ==> s[first_ins_idx(s, id)].0 && s[first_ins_idx(s, id)].1 == id,
        forall|j: int| 0 <= j < first_ins_idx(s, id) ==> !(s[j].0 && s[j].1 == id),
    decreases s.len(),
{
    if s.len() > 0 && !(s[0].0 && s[0].1 == id) {
        lemma_first_ins_idx(s.drop_first(), id);
        assert forall|j: int| 0 <= j < first_ins_idx(s, id) implies !(s[j].0 && s[j].1 == id) by {
            if j > 0 {
                assert(s[j] == s.drop_first()[j - 1]);
            }
        }
    }
}

/// Position of the first staged insert of `id`.
pub fn ops_find_ins(v: &Vec<StagedOp>, id: FactId) -> (r: Option<usize>)
    ensures
        r matches Some(i) ==> i == first_ins_idx(v@, id) && i < v@.len(),
        r is None ==> first_ins_idx(v@, id) == v@.len(),
{
    proof {
        lemma_first_ins_idx(v@, id);
    }
    let mut i: usize = 0;
    while i < v.len()
        invariant
            i <= v.len(),
            forall|j: int| 0 <= j < i ==> !(v@[j].0 && v@[j].1 == id),
            0 <= first_ins_idx(v@, id) <= v@.len(),
            first_ins_idx(v@, id) < v@.len() ==> v@[first_ins_idx(v@, id)].0 && v@[first_ins_idx(v@, id)].1 == id,
            forall|j: int| 0 <= j < first_ins_idx(v@, id) ==> !(v@[j].0 && v@[j].1 == id),
        decreases v.len() - i,
    {
        if v[i].0 && v[i].1 == id {
            return Some(i);
        }
        i = i + 1;
    }
    None
}

/// Where a churn retract lands: before the trailing run of staged inserts
/// carrying the same stamp `stamp`.
pub open spec fn churn_at(s: Seq<StagedOp>, stamp: u64) -> int
    decreases s.len(),
{
    if s.len() == 0 {
        0
    } else if s.last().0 && s.last().2 == stamp {
        churn_at(s.drop_last(), stamp)
    } else {
        s.len() as int
    }
}

/// `churn_at` stays within the list.
pub proof fn lemma_churn_at(s: Seq<StagedOp>, stamp: u64)
    ensures
        0 <= churn_at(s, stamp) <= s.len(),
    decreases s.len(),
{
    if s.len() > 0 {
        lemma_churn_at(s.drop_last(), stamp);
    }
}

/// The insertion point of a retract: the end, or (`churn`) before the
/// trailing same-stamp staged inserts.
pub fn ops_del_pos(v: &Vec<StagedOp>, churn: bool, stamp: u64) -> (r: usize)
    ensures
        r == (if churn { churn_at(v@, stamp) } else { v@.len() as int }),
        r <= v@.len(),
{
    let mut at: usize = v.len();
    if churn {
        proof {
            assert(v@.subrange(0, at as int) =~= v@);
        }
        while at > 0 && v[at - 1].0 && v[at - 1].2 == stamp
            invariant
                at <= v.len(),
                churn_at(v@, stamp) == churn_at(v@.subrange(0, at as int), stamp),
            decreases at,
        {
            proof {
                assert(v@.subrange(0, at as int).drop_last() =~= v@.subrange(0, at - 1));
            }
            at = at - 1;
        }
        proof {
            lemma_churn_at(v@.subrange(0, at as int), stamp);
        }
    }
    at
}

/// Without duplicates, removing `x` drops exactly its one occurrence.
pub proof fn lemma_without_distinct(s: Seq<FactId>, x: FactId)
    requires
        s.no_duplicates(),
    ensures
        without(s, x).no_duplicates(),
        forall|y: FactId| #[trigger] without(s, x).contains(y) <==> (s.contains(y) && y != x),
        s.contains(x) ==> without(s, x).len() + 1 == s.len(),
        !s.contains(x) ==> without(s, x) == s,
    decreases s.len(),
{
    lemma_without_len(s, x);
    if s.len() > 0 {
        let d = s.drop_last();
        let n = s.len() - 1;
        assert forall|i: int, j: int| 0 <= i < d.len() && 0 <= j < d.len() && i != j implies d[i] != d[j] by {
            assert(d[i] == s[i] && d[j] == s[j]);
        }
        lemma_without_distinct(d, x);
        let w = without(d, x);
        assert(!d.contains(s.last())) by {
            if d.contains(s.last()) {
                let k = choose|k: int| 0 <= k < d.len() && d[k] == s.last();
                assert(s[k] == s[n]);
            }
        }
        assert forall|y: FactId| s.contains(y) <==> (d.contains(y) || y == s.last()) by {
            if s.contains(y) {
                let k = choose|k: int| 0 <= k < s.len() && s[k] == y;
                if k < n {
                    assert(d[k] == y);
                }
            }
            if d.contains(y) {
                let k = choose|k: int| 0 <= k < d.len() && d[k] == y;
                assert(s[k] == y);
            }
            if y == s.last() {
                assert(s[n] == y);
            }
        }
        if s.last() != x {
            let r = w.push(s.last());
            assert(without(s, x) == r);
            assert forall|y: FactId| r.contains(y) <==> (w.contains(y) || y == s.last()) by {
                if r.contains(y) {
                    let k = choose|k: int| 0 <= k < r.len() && r[k] == y;
                    if k < w.len() {
                        assert(w[k] == y);
                    }
                }
                if w.contains(y) {
                    let k = choose|k: int| 0 <= k < w.len() && w[k] == y;
                    assert(r[k] == y);
                }
                if y == s.last() {
                    assert(r[w.len() as int] == y);
                }
            }
            assert forall|i: int, j: int| 0 <= i < r.len() && 0 <= j < r.len() && i != j implies r[i] != r[j] by {
                if i < w.len() && j < w.len() {
                    assert(r[i] == w[i] && r[j] == w[j]);
                } else if i < w.len() {
                    assert(r[i] == w[i]);
                    assert(w.contains(w[i]));
                } else if j < w.len() {
                    assert(r[j] == w[j]);
                    assert(w.contains(w[j]));
                }
            }
        }
    }
}

/// Reversal keeps a list free of duplicates and keeps its members.
pub proof fn lemma_reverse_distinct(s: Seq<FactId>)
    ensures
        s.no_duplicates() ==> s.reverse().no_duplicates(),
        forall|y: FactId| #[trigger] s.reverse().contains(y) <==> s.contains(y),
        s.reverse().len() == s.len(),
{
    let r = s.reverse();
    let n = s.len() as int;
    assert forall|i: int| 0 <= i < n implies r[i] == s[n - 1 - i] by {}
    if s.no_duplicates() {
        assert forall|i: int, j: int| 0 <= i < n && 0 <= j < n && i != j implies r[i] != r[j] by {
            assert(r[i] == s[n - 1 - i] && r[j] == s[n - 1 - j]);
        }
    }
    assert forall|y: FactId| r.contains(y) <==> s.contains(y) by {
        if r.contains(y) {
            let k = choose|k: int| 0 <= k < n && r[k] == y;
            assert(s[n - 1 - k] == y);
        }
        if s.contains(y) {
            let k = choose|k: int| 0 <= k < n && s[k] == y;
            assert(r[n - 1 - k] == y);
        }
    }
}

/// Moving an element to the tail keeps a list free of duplicates and
/// keeps its members and length.
pub proof fn lemma_move_tail_distinct(s: Seq<FactId>, x: FactId)
    requires
        s.no_duplicates(),
    ensures
        move_tail(s, x).no_duplicates(),
        forall|y: FactId| #[trigger] move_tail(s, x).contains(y) <==> s.contains(y),
        move_tail(s, x).len() == s.len(),
{
    lemma_first_idx(s, x);
    let i = first_idx(s, x);
    if i < s.len() {
        let m = s.remove(i);
        let r = m.push(x);
        assert forall|k: int| 0 <= k < m.len() implies m[k] == (if k < i { s[k] } else { s[k + 1] }) by {}
        assert forall|k: int| 0 <= k < m.len() implies m[k] != x by {
            if k < i {
                assert(s[k] != s[i]);
            } else {
                assert(s[k + 1] != s[i]);
            }
        }
        assert forall|a: int, b: int| 0 <= a < r.len() && 0 <= b < r.len() && a != b implies r[a] != r[b] by {
            if a < m.len() && b < m.len() {
                let sa = if a < i { a } else { a + 1 };
                let sb = if b < i { b } else { b + 1 };
                assert(r[a] == s[sa] && r[b] == s[sb]);
            } else if a < m.len() {
                assert(r[a] == m[a]);
            } else if b < m.len() {
                assert(r[b] == m[b]);
            }
        }
        assert forall|y: FactId| r.contains(y) <==> s.contains(y) by {
            if r.contains(y) {
                let k = choose|k: int| 0 <= k < r.len() && r[k] == y;
                if k < m.len() {
                    if k < i {
                        assert(s[k] == y);
                    } else {
                        assert(s[k + 1] == y);
                    }
                } else {
                    assert(s[i] == y);
                }
            }
            if s.contains(y) {
                let k = choose|k: int| 0 <= k < s.len() && s[k] == y;
                if k < i {
                    assert(r[k] == y);
                } else if k > i {
                    assert(r[k - 1] == y);
                } else {
                    assert(r[m.len() as int] == y);
                }
            }
        }
    }
}

} // verus!
