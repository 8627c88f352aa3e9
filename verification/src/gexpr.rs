//! Inline boolean constraint groups and their three-valued evaluation:
//! `None` is UNKNOWN. A null operand makes a comparison, `contains` or
//! `in` UNKNOWN; `and`/`or`/`not` compose by the SQL three-valued tables,
//! so `!(...)` over UNKNOWN stays UNKNOWN. Callers admit only `Some(true)`.
//!
//! A regex `matches` constraint needs a pattern matcher, which is not part
//! of this crate: the groups here hold no `matches` leaf, and
//! `matches_leaf` / `matches_alpha` decide such a leaf around the
//! matcher's verdict on the field's text.

use vstd::prelude::*;
use crate::compare::{cmp_holds, eval_cmp, eval_cmp_join};
use crate::allen::AllenOp;
use crate::store::FactStore;
use crate::value::{CmpOp, FactId, Value};

verus! {

/// Where a constraint's right-hand value comes from.
pub enum Src {
    Lit(Value),
    /// Field `.1` of the fact at tuple position `.0`, read live.
    Field(usize, usize),
    /// A right-hand-side snapshot of a binding (never in a constraint).
    SnapField(usize, usize),
}

/// A compiled inline-group expression over the fields of one fact.
pub enum GExpr {
    Cmp { field_idx: usize, op: CmpOp, rhs: Src },
    IsNull { field_idx: usize, negated: bool },
    /// Constant UNKNOWN (a null member of an `in` list inside a group).
    Unknown,
    Contains { field_idx: usize, needle: String },
    InList { field_idx: usize, items: Vec<Value>, negated: bool },
    And(Vec<GExpr>),
    Or(Vec<GExpr>),
    Not(Box<GExpr>),
}

/// `needle` occurs in `hay` as a contiguous run of characters.
pub open spec fn str_has(hay: Seq<char>, needle: Seq<char>) -> bool {
    exists|i: int| 0 <= i && i + needle.len() <= hay.len() && #[trigger] hay.subrange(i, i + needle.len()) == needle
}

/// Three-valued conjunction.
pub open spec fn and3(a: Option<bool>, b: Option<bool>) -> Option<bool> {
    if a == Some(false) || b == Some(false) {
        Some(false)
    } else if a is None || b is None {
        None
    } else {
        Some(true)
    }
}

/// Three-valued disjunction.
pub open spec fn or3(a: Option<bool>, b: Option<bool>) -> Option<bool> {
    if a == Some(true) || b == Some(true) {
        Some(true)
    } else if a is None || b is None {
        None
    } else {
        Some(false)
    }
}

/// The fact a field reference reads: the group's own fact at its own
/// tuple position, else the left tuple's fact.
pub open spec fn ref_fact(f: FactId, l: Option<Seq<FactId>>, tpos: Option<usize>, ti: usize) -> FactId {
    if Some(ti) == tpos {
        f
    } else {
        l.unwrap()[ti as int]
    }
}

/// The value of a group over fact `f` (left tuple `l` for cross-pattern
/// references, own tuple position `tpos`).
pub open spec fn gx_eval(g: GExpr, st: FactStore, f: FactId, l: Option<Seq<FactId>>, tpos: Option<usize>) -> Option<bool>
    decreases g,
{
    match g {
        GExpr::Cmp { field_idx, op, rhs } => {
            let lhs = st.field(f, field_idx);
            if lhs is Null {
                None
            } else {
                match rhs {
                    Src::Lit(v) => Some(cmp_holds(lhs, op, v)),
                    Src::Field(ti, fi) => {
                        let rv = st.field(ref_fact(f, l, tpos, ti), fi);
                        if rv is Null { None } else { Some(cmp_holds(lhs, op, rv)) }
                    },
                    Src::SnapField(..) => None,
                }
            }
        },
        GExpr::IsNull { field_idx, negated } => Some((st.field(f, field_idx) is Null) != negated),
        GExpr::Unknown => None,
        GExpr::Contains { field_idx, needle } => match st.field(f, field_idx) {
            Value::Null => None,
            Value::Str(s) => Some(str_has(s@, needle@)),
            _ => Some(false),
        },
        GExpr::InList { field_idx, items, negated } => {
            let lhs = st.field(f, field_idx);
            if lhs is Null {
                None
            } else {
                let hit = exists|j: int| 0 <= j < items@.len() && !(items@[j] is Null) && cmp_holds(lhs, CmpOp::Eq, #[trigger] items@[j]);
                let has_null = exists|j: int| 0 <= j < items@.len() && (#[trigger] items@[j]) is Null;
                if hit {
                    Some(!negated)
                } else if has_null {
                    None
                } else {
                    Some(negated)
                }
            }
        },
        GExpr::And(xs) => gx_all(xs@, st, f, l, tpos),
        GExpr::Or(xs) => gx_any(xs@, st, f, l, tpos),
        GExpr::Not(x) => match gx_eval(*x, st, f, l, tpos) {
            Some(b) => Some(!b),
            None => None,
        },
    }
}

/// Three-valued conjunction of a list of groups.
pub open spec fn gx_all(xs: Seq<GExpr>, st: FactStore, f: FactId, l: Option<Seq<FactId>>, tpos: Option<usize>) -> Option<bool>
    decreases xs,
{
    if xs.len() == 0 {
        Some(true)
    } else {
        and3(gx_all(xs.drop_last(), st, f, l, tpos), gx_eval(xs.last(), st, f, l, tpos))
    }
}

/// Three-valued disjunction of a list of groups.
pub open spec fn gx_any(xs: Seq<GExpr>, st: FactStore, f: FactId, l: Option<Seq<FactId>>, tpos: Option<usize>) -> Option<bool>
    decreases xs,
{
    if xs.len() == 0 {
        Some(false)
    } else {
        or3(gx_any(xs.drop_last(), st, f, l, tpos), gx_eval(xs.last(), st, f, l, tpos))
    }
}

/// The left tuple as a sequence.
pub open spec fn tup_view(l: Option<&Vec<FactId>>) -> Option<Seq<FactId>> {
    match l {
        Some(t) => Some(t@),
        None => None,
    }
}

/// Every field the evaluation reads exists, and no constraint reaches a
/// form that cannot occur in a group: a null literal (written `== null`
/// compiles to `IsNull`), a snapshot source, or a cross-pattern reference
/// without a left tuple. Short-circuit evaluation only needs the parts it
/// reaches.
pub open spec fn gx_ok(g: GExpr, st: FactStore, f: FactId, l: Option<Seq<FactId>>, tpos: Option<usize>) -> bool
    decreases g,
{
    match g {
        GExpr::Cmp { field_idx, op, rhs } => st.has_field(f, field_idx) && (st.field(f, field_idx) is Null
            || match rhs {
            Src::Lit(v) => !(v is Null),
            Src::Field(ti, fi) => (Some(ti) == tpos || (l is Some && (ti as int) < l.unwrap().len())) && st.has_field(
                ref_fact(f, l, tpos, ti),
                fi,
            ),
            Src::SnapField(..) => false,
        }),
        GExpr::IsNull { field_idx, .. } => st.has_field(f, field_idx),
        GExpr::Unknown => true,
        GExpr::Contains { field_idx, .. } => st.has_field(f, field_idx),
        GExpr::InList { field_idx, .. } => st.has_field(f, field_idx),
        GExpr::And(xs) => gx_all_ok(xs@, st, f, l, tpos),
        GExpr::Or(xs) => gx_any_ok(xs@, st, f, l, tpos),
        GExpr::Not(x) => gx_ok(*x, st, f, l, tpos),
    }
}

/// A conjunction is evaluated left to right until an operand is false.
pub open spec fn gx_all_ok(xs: Seq<GExpr>, st: FactStore, f: FactId, l: Option<Seq<FactId>>, tpos: Option<usize>) -> bool
    decreases xs,
{
    if xs.len() == 0 {
        true
    } else {
        gx_all_ok(xs.drop_last(), st, f, l, tpos) && (gx_all(xs.drop_last(), st, f, l, tpos) == Some(false)
            || gx_ok(xs.last(), st, f, l, tpos))
    }
}

/// A disjunction is evaluated left to right until an operand is true.
pub open spec fn gx_any_ok(xs: Seq<GExpr>, st: FactStore, f: FactId, l: Option<Seq<FactId>>, tpos: Option<usize>) -> bool
    decreases xs,
{
    if xs.len() == 0 {
        true
    } else {
        gx_any_ok(xs.drop_last(), st, f, l, tpos) && (gx_any(xs.drop_last(), st, f, l, tpos) == Some(true)
            || gx_ok(xs.last(), st, f, l, tpos))
    }
}

/// A false prefix makes the whole conjunction false; a well-formed list
/// has well-formed prefixes.
pub proof fn lemma_gx_all_prefix(xs: Seq<GExpr>, k: int, st: FactStore, f: FactId, l: Option<Seq<FactId>>, tpos: Option<usize>)
    requires
        0 <= k <= xs.len(),
    ensures
        gx_all(xs.subrange(0, k), st, f, l, tpos) == Some(false) ==> gx_all(xs, st, f, l, tpos) == Some(false),
        gx_all_ok(xs, st, f, l, tpos) ==> gx_all_ok(xs.subrange(0, k), st, f, l, tpos),
        gx_all_ok(xs, st, f, l, tpos) && k < xs.len() ==> (gx_all(xs.subrange(0, k), st, f, l, tpos) == Some(false)
            || gx_ok(xs[k], st, f, l, tpos)),
    decreases xs.len() - k,
{
    if k < xs.len() {
        lemma_gx_all_prefix(xs, k + 1, st, f, l, tpos);
        let p = xs.subrange(0, k + 1);
        assert(p.drop_last() =~= xs.subrange(0, k));
        assert(p.last() == xs[k]);
    } else {
        assert(xs.subrange(0, k) =~= xs);
    }
}

/// A true prefix makes the whole disjunction true; a well-formed list has
/// well-formed prefixes.
pub proof fn lemma_gx_any_prefix(xs: Seq<GExpr>, k: int, st: FactStore, f: FactId, l: Option<Seq<FactId>>, tpos: Option<usize>)
    requires
        0 <= k <= xs.len(),
    ensures
        gx_any(xs.subrange(0, k), st, f, l, tpos) == Some(true) ==> gx_any(xs, st, f, l, tpos) == Some(true),
        gx_any_ok(xs, st, f, l, tpos) ==> gx_any_ok(xs.subrange(0, k), st, f, l, tpos),
        gx_any_ok(xs, st, f, l, tpos) && k < xs.len() ==> (gx_any(xs.subrange(0, k), st, f, l, tpos) == Some(true)
            || gx_ok(xs[k], st, f, l, tpos)),
    decreases xs.len() - k,
{
    if k < xs.len() {
        lemma_gx_any_prefix(xs, k + 1, st, f, l, tpos);
        let p = xs.subrange(0, k + 1);
        assert(p.drop_last() =~= xs.subrange(0, k));
        assert(p.last() == xs[k]);
    } else {
        assert(xs.subrange(0, k) =~= xs);
    }
}

/// Whether `needle` occurs in `hay` (see `str_has`).
pub fn str_contains(hay: &str, needle: &str) -> (r: bool)
    ensures
        r == str_has(hay@, needle@),
{
    let n = hay.unicode_len();
    let m = needle.unicode_len();
    if m > n {
        proof {
            assert forall|i: int| 0 <= i && i + m <= n implies #[trigger] hay@.subrange(i, i + m) != needle@ by {
            }
        }
        return false;
    }
    let mut i: usize = 0;
    while i <= n - m
        invariant
            m <= n,
            n == hay@.len(),
            m == needle@.len(),
            i <= n - m + 1,
            forall|k: int| 0 <= k < i ==> #[trigger] hay@.subrange(k, k + m) != needle@,
        decreases n - m + 1 - i,
    {
        let mut j: usize = 0;
        while j < m && hay.get_char(i + j) == needle.get_char(j)
            invariant
                j <= m,
                i + m <= n,
                n == hay@.len(),
                m == needle@.len(),
                forall|k: int| 0 <= k < j ==> hay@[i + k] == needle@[k],
            decreases m - j,
        {
            j = j + 1;
        }
        if j == m {
            proof {
                assert(hay@.subrange(i as int, i + m) =~= needle@);
            }
            return true;
        }
        proof {
            assert(hay@.subrange(i as int, i + m)[j as int] == hay@[i + j]);
        }
        i = i + 1;
    }
    false
}

/// Evaluate a group against fact `f` (see `gx_eval`).
pub fn eval_gexpr(g: &GExpr, store: &FactStore, f: FactId, l: Option<&Vec<FactId>>, tpos: Option<usize>) -> (r: Option<bool>)
    requires
        gx_ok(*g, *store, f, tup_view(l), tpos),
    ensures
        r == gx_eval(*g, *store, f, tup_view(l), tpos),
    decreases g,
{
    match g {
        GExpr::Cmp { field_idx, op, rhs } => {
            let lhs = store.value(f, *field_idx);
            if lhs.is_null() {
                return None;
            }
            match rhs {
                Src::Lit(v) => Some(eval_cmp(&lhs, *op, v)),
                Src::Field(ti, fi) => {
                    let other = if Some(*ti) == tpos {
                        f
                    } else {
                        match l {
                            Some(t) => t[*ti],
                            None => f,
                        }
                    };
                    let rv = store.value(other, *fi);
                    if rv.is_null() {
                        return None;
                    }
                    Some(eval_cmp_join(&lhs, *op, &rv))
                },
                Src::SnapField(..) => None,
            }
        },
        GExpr::IsNull { field_idx, negated } => Some(store.value(f, *field_idx).is_null() != *negated),
        GExpr::Unknown => None,
        GExpr::Contains { field_idx, needle } => match store.value(f, *field_idx) {
            Value::Null => None,
            Value::Str(s) => Some(str_contains(s.as_str(), needle.as_str())),
            _ => Some(false),
        },
        GExpr::InList { field_idx, items, negated } => {
            let lhs = store.value(f, *field_idx);
            if lhs.is_null() {
                return None;
            }
            let mut has_null_item = false;
            let mut hit = false;
            let mut i: usize = 0;
            while i < items.len()
                invariant
                    i <= items@.len(),
                    !(lhs is Null),
                    hit == exists|j: int| 0 <= j < i && !(items@[j] is Null) && cmp_holds(lhs, CmpOp::Eq, #[trigger] items@[j]),
                    has_null_item == exists|j: int| 0 <= j < i && (#[trigger] items@[j]) is Null,
                decreases items@.len() - i,
            {
                if items[i].is_null() {
                    has_null_item = true;
                } else if eval_cmp(&lhs, CmpOp::Eq, &items[i]) {
                    hit = true;
                }
                i = i + 1;
            }
            if hit {
                Some(!*negated)
            } else if has_null_item {
                None
            } else {
                Some(*negated)
            }
        },
        GExpr::And(xs) => eval_all(xs, store, f, l, tpos),
        GExpr::Or(xs) => eval_any(xs, store, f, l, tpos),
        GExpr::Not(x) => match eval_gexpr(x, store, f, l, tpos) {
            Some(b) => Some(!b),
            None => None,
        },
    }
}

/// Left-to-right conjunction, stopping at the first false operand.
fn eval_all(xs: &Vec<GExpr>, store: &FactStore, f: FactId, l: Option<&Vec<FactId>>, tpos: Option<usize>) -> (r: Option<bool>)
    requires
        gx_all_ok(xs@, *store, f, tup_view(l), tpos),
    ensures
        r == gx_all(xs@, *store, f, tup_view(l), tpos),
    decreases xs,
{
    let ghost lv = tup_view(l);
    let mut unknown = false;
    let mut i: usize = 0;
    proof {
        assert(xs@.subrange(0, 0) =~= Seq::<GExpr>::empty());
    }
    while i < xs.len()
        invariant
            i <= xs@.len(),
            gx_all_ok(xs@, *store, f, lv, tpos),
            lv == tup_view(l),
            (if unknown { None } else { Some(true) }) == gx_all(xs@.subrange(0, i as int), *store, f, lv, tpos),
        decreases xs@.len() - i,
    {
        proof {
            lemma_gx_all_prefix(xs@, i as int, *store, f, lv, tpos);
            lemma_gx_all_prefix(xs@, i + 1, *store, f, lv, tpos);
            assert(xs@.subrange(0, i + 1).drop_last() =~= xs@.subrange(0, i as int));
            assert(xs@.subrange(0, i + 1).last() == xs@[i as int]);
        }
        match eval_gexpr(&xs[i], store, f, l, tpos) {
            Some(false) => {
                return Some(false);
            },
            None => {
                unknown = true;
            },
            Some(true) => {},
        }
        i = i + 1;
    }
    proof {
        assert(xs@.subrange(0, xs@.len() as int) =~= xs@);
    }
    if unknown {
        None
    } else {
        Some(true)
    }
}

/// Left-to-right disjunction, stopping at the first true operand.
fn eval_any(xs: &Vec<GExpr>, store: &FactStore, f: FactId, l: Option<&Vec<FactId>>, tpos: Option<usize>) -> (r: Option<bool>)
    requires
        gx_any_ok(xs@, *store, f, tup_view(l), tpos),
    ensures
        r == gx_any(xs@, *store, f, tup_view(l), tpos),
    decreases xs,
{
    let ghost lv = tup_view(l);
    let mut unknown = false;
    let mut i: usize = 0;
    proof {
        assert(xs@.subrange(0, 0) =~= Seq::<GExpr>::empty());
    }
    while i < xs.len()
        invariant
            i <= xs@.len(),
            gx_any_ok(xs@, *store, f, lv, tpos),
            lv == tup_view(l),
            (if unknown { None } else { Some(false) }) == gx_any(xs@.subrange(0, i as int), *store, f, lv, tpos),
        decreases xs@.len() - i,
    {
        proof {
            lemma_gx_any_prefix(xs@, i as int, *store, f, lv, tpos);
            lemma_gx_any_prefix(xs@, i + 1, *store, f, lv, tpos);
            assert(xs@.subrange(0, i + 1).drop_last() =~= xs@.subrange(0, i as int));
            assert(xs@.subrange(0, i + 1).last() == xs@[i as int]);
        }
        match eval_gexpr(&xs[i], store, f, l, tpos) {
            Some(true) => {
                return Some(true);
            },
            None => {
                unknown = true;
            },
            Some(false) => {},
        }
        i = i + 1;
    }
    proof {
        assert(xs@.subrange(0, xs@.len() as int) =~= xs@);
    }
    if unknown {
        None
    } else {
        Some(false)
    }
}

/// A compiled single-field test of a pattern constraint.
pub enum Test {
    Cmp { op: CmpOp, rhs: Src },
    /// `field == null` / `field != null`: a definite two-valued test.
    IsNull { negated: bool },
    /// Constant UNKNOWN: never admits.
    Unknown,
    /// Interval relation against an anchor event; evaluated at join time.
    Temporal {
        op: AllenOp,
        params: Vec<i64>,
        anchor: (usize, usize),
        self_dur_fi: Option<usize>,
        anchor_dur_fi: Option<usize>,
    },
    /// String substring test.
    Contains(String),
    /// An inline boolean group.
    Group { g: GExpr, cross_var: bool, key: String },
}

/// The tests that `eval_alpha_test` decides on its own; comparisons,
/// groups and temporal tests are evaluated by their callers.
pub open spec fn is_plain_test(t: Test) -> bool {
    t is IsNull || t is Unknown || t is Contains
}

/// Whether a plain test admits the value `lhs`.
pub open spec fn alpha_test_holds(lhs: Value, t: Test) -> bool {
    match t {
        Test::Contains(needle) => match lhs {
            Value::Str(s) => str_has(s@, needle@),
            _ => false,
        },
        Test::IsNull { negated } => (lhs is Null) != negated,
        _ => false,
    }
}

/// Evaluate a plain test (see `alpha_test_holds`).
pub fn eval_alpha_test(lhs: &Value, test: &Test) -> (r: bool)
    requires
        is_plain_test(*test),
    ensures
        r == alpha_test_holds(*lhs, *test),
{
    match test {
        Test::Contains(needle) => match lhs {
            Value::Str(s) => str_contains(s.as_str(), needle.as_str()),
            _ => false,
        },
        Test::IsNull { negated } => lhs.is_null() != *negated,
        _ => false,
    }
}

/// No operand the group reads is null, no `in` list holds a null member,
/// and the group has no constant UNKNOWN or snapshot source.
pub open spec fn gx_null_free(g: GExpr, st: FactStore, f: FactId, l: Option<Seq<FactId>>, tpos: Option<usize>) -> bool
    decreases g,
{
    match g {
        GExpr::Cmp { field_idx, rhs, .. } => !(st.field(f, field_idx) is Null) && match rhs {
            Src::Lit(v) => !(v is Null),
            Src::Field(ti, fi) => !(st.field(ref_fact(f, l, tpos, ti), fi) is Null),
            Src::SnapField(..) => false,
        },
        GExpr::IsNull { .. } => true,
        GExpr::Unknown => false,
        GExpr::Contains { field_idx, .. } => !(st.field(f, field_idx) is Null),
        GExpr::InList { field_idx, items, .. } => !(st.field(f, field_idx) is Null) && forall|j: int|
            0 <= j < items@.len() ==> !(#[trigger] items@[j] is Null),
        GExpr::And(xs) => gx_list_null_free(xs@, st, f, l, tpos),
        GExpr::Or(xs) => gx_list_null_free(xs@, st, f, l, tpos),
        GExpr::Not(x) => gx_null_free(*x, st, f, l, tpos),
    }
}

/// Every group of the list is null-free.
pub open spec fn gx_list_null_free(xs: Seq<GExpr>, st: FactStore, f: FactId, l: Option<Seq<FactId>>, tpos: Option<usize>) -> bool
    decreases xs,
{
    if xs.len() == 0 {
        true
    } else {
        gx_list_null_free(xs.drop_last(), st, f, l, tpos) && gx_null_free(xs.last(), st, f, l, tpos)
    }
}

/// Without nulls the three-valued evaluation is two-valued: a null-free
/// group is never UNKNOWN.
pub proof fn law_null_free_is_two_valued(g: GExpr, st: FactStore, f: FactId, l: Option<Seq<FactId>>, tpos: Option<usize>)
    requires
        gx_null_free(g, st, f, l, tpos),
    ensures
        gx_eval(g, st, f, l, tpos) is Some,
    decreases g,
{
    match g {
        GExpr::And(xs) => lemma_list_two_valued(xs@, st, f, l, tpos),
        GExpr::Or(xs) => lemma_list_two_valued(xs@, st, f, l, tpos),
        GExpr::Not(x) => law_null_free_is_two_valued(*x, st, f, l, tpos),
        _ => {},
    }
}

/// Conjunctions and disjunctions of null-free groups are never UNKNOWN.
pub proof fn lemma_list_two_valued(xs: Seq<GExpr>, st: FactStore, f: FactId, l: Option<Seq<FactId>>, tpos: Option<usize>)
    requires
        gx_list_null_free(xs, st, f, l, tpos),
    ensures
        gx_all(xs, st, f, l, tpos) is Some,
        gx_any(xs, st, f, l, tpos) is Some,
    decreases xs,
{
    if xs.len() > 0 {
        lemma_list_two_valued(xs.drop_last(), st, f, l, tpos);
        law_null_free_is_two_valued(xs.last(), st, f, l, tpos);
    }
}

/// Negation keeps UNKNOWN: `!(g)` is UNKNOWN exactly when `g` is, and
/// otherwise the opposite truth value; so a negated UNKNOWN never admits.
pub proof fn law_not_keeps_unknown(x: GExpr, st: FactStore, f: FactId, l: Option<Seq<FactId>>, tpos: Option<usize>)
    ensures
        (gx_eval(GExpr::Not(Box::new(x)), st, f, l, tpos) is None) == (gx_eval(x, st, f, l, tpos) is None),
        gx_eval(x, st, f, l, tpos) matches Some(b) ==> gx_eval(GExpr::Not(Box::new(x)), st, f, l, tpos) == Some(!b),
{
}

/// A `matches` leaf inside a group, given the matcher's verdict `accepts`
/// on the field's text: a null field is UNKNOWN, a string field takes the
/// verdict, any other field is false.
pub open spec fn matches_outcome(lhs: Value, accepts: bool) -> Option<bool> {
    match lhs {
        Value::Null => None,
        Value::Str(_) => Some(accepts),
        _ => Some(false),
    }
}

/// The three-valued `matches` leaf (see `matches_outcome`).
pub fn matches_leaf(lhs: &Value, accepts: bool) -> (r: Option<bool>)
    ensures
        r == matches_outcome(*lhs, accepts),
{
    match lhs {
        Value::Null => None,
        Value::Str(_) => Some(accepts),
        _ => Some(false),
    }
}

/// A `matches` alpha test: only a string field whose text the matcher
/// accepts passes (a null field fails).
pub fn matches_alpha(lhs: &Value, accepts: bool) -> (r: bool)
    ensures
        r == (lhs is Str && accepts),
{
    match lhs {
        Value::Str(_) => accepts,
        _ => false,
    }
}

/// The first leaf field a group reads, following first operands.
pub open spec fn first_field(g: GExpr) -> usize
    decreases g,
{
    match g {
        GExpr::Cmp { field_idx, .. } => field_idx,
        GExpr::IsNull { field_idx, .. } => field_idx,
        GExpr::Contains { field_idx, .. } => field_idx,
        GExpr::InList { field_idx, .. } => field_idx,
        GExpr::Unknown => 0,
        GExpr::And(xs) => if xs@.len() > 0 { first_field(xs@[0]) } else { 0 },
        GExpr::Or(xs) => if xs@.len() > 0 { first_field(xs@[0]) } else { 0 },
        GExpr::Not(x) => first_field(*x),
    }
}

/// Every `and`/`or` on the first-operand path has an operand.
pub open spec fn first_path_ok(g: GExpr) -> bool
    decreases g,
{
    match g {
        GExpr::And(xs) => xs@.len() > 0 && first_path_ok(xs@[0]),
        GExpr::Or(xs) => xs@.len() > 0 && first_path_ok(xs@[0]),
        GExpr::Not(x) => first_path_ok(*x),
        _ => true,
    }
}

/// First leaf field of a group: a stable anchor field for the compiled
/// constraint that holds the group.
pub fn first_group_field(g: &GExpr) -> (r: usize)
    requires
        first_path_ok(*g),
    ensures
        r == first_field(*g),
    decreases g,
{
    match g {
        GExpr::Cmp { field_idx, .. } => *field_idx,
        GExpr::IsNull { field_idx, .. } => *field_idx,
        GExpr::Contains { field_idx, .. } => *field_idx,
        GExpr::InList { field_idx, .. } => *field_idx,
        GExpr::Unknown => 0,
        GExpr::And(xs) => first_group_field(&xs[0]),
        GExpr::Or(xs) => first_group_field(&xs[0]),
        GExpr::Not(x) => first_group_field(x),
    }
}

/// Containment: the empty string is in every string, every string is in
/// itself, and a string is in any string built around it; a needle longer
/// than the haystack is never in it.
pub proof fn law_str_has(a: Seq<char>, n: Seq<char>, b: Seq<char>)
    ensures
        str_has(a, Seq::empty()),
        str_has(n, n),
        str_has(a + n + b, n),
        n.len() > a.len() ==> !str_has(a, n),
{
    let e = Seq::<char>::empty();
    assert(a.subrange(0int, 0int + e.len()) =~= e);
    assert(n.subrange(0int, 0int + n.len()) =~= n);
    let h = a + n + b;
    assert(h.subrange(a.len() as int, (a.len() + n.len()) as int) =~= n);
}

} // verus!
