//! Accumulate contexts: the running state of an `accumulate` function over
//! its matches. `apply` folds one contribution in, `try_reverse` takes one
//! back out in place where the function allows it (min/max cannot: they
//! are refolded from the remaining matches), and `result_value` reads the
//! function's result. Null contributions are skipped by the value
//! aggregates; `count` and `collect` look only at the matches.
//!
//! The running double sum of `sum`/`average` over doubles belongs to the
//! double layer, which holds it beside this context.

use vstd::prelude::*;
use crate::decimal::{dec_order_sign, dec_rescale, dec_sign, fits_i128, pow10, rescaled, lemma_pow10_add, lemma_pow10_pos};
use crate::order::sign;
use crate::seqs::{first_idx, lemma_first_idx, remove_first, vec_remove_first};
use crate::value::{FactId, FieldType, Value};

verus! {

/// The accumulate functions.
#[derive(Clone, Copy, Debug, PartialEq, Eq, Structural)]
pub enum AccFunc {
    Sum,
    Count,
    Average,
    Min,
    Max,
    Collect,
    CollectList,
    CollectSet,
}

/// One accumulate context: the function state, the stored per-match
/// contributions (reverse operates on these, never on live fields), and
/// the reused synthetic result fact.
pub struct AccCtx {
    pub result: Option<FactId>,
    pub propagated: bool,
    /// (right fact, stored contribution) in match order.
    pub matches: Vec<(FactId, Value)>,
    pub sum_i: i64,
    /// Exact decimal sum (unscaled, scale); scales align up as
    /// contributions arrive.
    pub sum_d: (i128, u8),
    pub count: i64,
    pub minmax: Option<Value>,
    pub list: Vec<FactId>,
    /// `collectList`: (fact, value) per match, in order.
    pub vlist: Vec<(FactId, Value)>,
    /// `collectSet`: counted values in first-arrival order.
    pub vset: Vec<(Value, usize)>,
}

/// Mathematical state of an `AccCtx`.
#[verifier::ext_equal]
pub struct AccView {
    pub result: Option<FactId>,
    pub propagated: bool,
    pub matches: Seq<(FactId, Value)>,
    pub sum_i: i64,
    pub sum_d: (i128, u8),
    pub count: i64,
    pub minmax: Option<Value>,
    pub list: Seq<FactId>,
    pub vlist: Seq<(FactId, Value)>,
    pub vset: Seq<(Value, usize)>,
}

impl View for AccCtx {
    type V = AccView;

    open spec fn view(&self) -> AccView {
        AccView {
            result: self.result,
            propagated: self.propagated,
            matches: self.matches@,
            sum_i: self.sum_i,
            sum_d: self.sum_d,
            count: self.count,
            minmax: self.minmax,
            list: self.list@,
            vlist: self.vlist@,
            vset: self.vset@,
        }
    }
}

/// Value equality: same kind and same contents (decimals by unscaled
/// value and scale, so `1.10` and `1.1` are different values here).
pub open spec fn value_same(a: Value, b: Value) -> bool {
    match (a, b) {
        (Value::I64(x), Value::I64(y)) => x == y,
        (Value::Str(x), Value::Str(y)) => x@ == y@,
        (Value::Bool(x), Value::Bool(y)) => x == y,
        (Value::Null, Value::Null) => true,
        (Value::Dec { u: x, s: p }, Value::Dec { u: y, s: q }) => x == y && p == q,
        _ => false,
    }
}

/// Whether two values are equal (see `value_same`).
pub fn values_equal(a: &Value, b: &Value) -> (r: bool)
    ensures
        r == value_same(*a, *b),
{
    match (a, b) {
        (Value::I64(x), Value::I64(y)) => *x == *y,
        (Value::Str(x), Value::Str(y)) => *x == *y,
        (Value::Bool(x), Value::Bool(y)) => *x == *y,
        (Value::Null, Value::Null) => true,
        (Value::Dec { u: x, s: p }, Value::Dec { u: y, s: q }) => *x == *y && *p == *q,
        _ => false,
    }
}

/// The context's well-formedness: every counted set value is counted at
/// least once.
pub open spec fn acc_wf(v: AccView) -> bool {
    forall|i: int| 0 <= i < v.vset.len() ==> (#[trigger] v.vset[i]).1 >= 1
}

/// The value aggregates skip null contributions; `count` and `collect`
/// do not look at the value.
pub open spec fn skips(func: AccFunc, x: Value) -> bool {
    x is Null && !(func is Count || func is Collect)
}

/// The decimal sum `a ± u·10^-s`, both sides aligned up to the larger
/// scale.
pub open spec fn dec_step(a: (i128, u8), u: i128, s: u8, neg: bool) -> (int, nat) {
    let t: nat = if a.1 >= s { a.1 as nat } else { s as nat };
    let x = rescaled(a.0 as int, a.1 as nat, t);
    let y = rescaled(u as int, s as nat, t);
    (if neg { x - y } else { x + y }, t)
}

/// The aligned decimal sum stays within `i128` at every step.
pub open spec fn dec_step_ok(a: (i128, u8), u: i128, s: u8, neg: bool) -> bool {
    let t: nat = if a.1 >= s { a.1 as nat } else { s as nat };
    &&& fits_i128(rescaled(a.0 as int, a.1 as nat, t))
    &&& fits_i128(rescaled(u as int, s as nat, t))
    &&& fits_i128(dec_step(a, u, s, neg).0)
}

/// The order `min`/`max` go by: integers and decimals among their own
/// kind; anything else ties (and never replaces the current value).
pub open spec fn acc_order(x: Value, cur: Value) -> int {
    match (x, cur) {
        (Value::I64(a), Value::I64(b)) => sign(a - b),
        (Value::Dec { u: a, s: p }, Value::Dec { u: b, s: q }) => dec_sign(a, p, b, q),
        _ => 0,
    }
}

/// Whether `x` becomes the new min/max.
pub open spec fn replaces(func: AccFunc, x: Value, cur: Option<Value>) -> bool {
    match cur {
        None => true,
        Some(c) => if func is Min { acc_order(x, c) < 0 } else { acc_order(x, c) > 0 },
    }
}

/// Index of the first set entry holding a value equal to `x`
/// (`s.len()` when none).
pub open spec fn set_idx(s: Seq<(Value, usize)>, x: Value) -> int
    decreases s.len(),
{
    if s.len() == 0 {
        0
    } else if value_same(s[0].0, x) {
        0
    } else {
        1 + set_idx(s.drop_first(), x)
    }
}

/// Index of the first list entry of fact `f` (`s.len()` when none).
pub open spec fn vlist_idx(s: Seq<(FactId, Value)>, f: FactId) -> int
    decreases s.len(),
{
    if s.len() == 0 {
        0
    } else if s[0].0 == f {
        0
    } else {
        1 + vlist_idx(s.drop_first(), f)
    }
}

/// The machine limits a contribution must stay within.
pub open spec fn apply_ok(v: AccView, func: AccFunc, x: Value) -> bool {
    skips(func, x) || match func {
        AccFunc::Sum => match x {
            Value::I64(n) => i64::MIN <= v.sum_i + n <= i64::MAX,
            Value::Dec { u, s } => dec_step_ok(v.sum_d, u, s, false),
            _ => true,
        },
        AccFunc::Count => v.count < i64::MAX,
        AccFunc::Average => v.count < i64::MAX,
        AccFunc::CollectSet => set_idx(v.vset, x) < v.vset.len() ==> v.vset[set_idx(v.vset, x)].1 < usize::MAX,
        _ => true,
    }
}

/// `accumulate()`: fold one contribution in. `average` counts here; its
/// double sum moves in the double layer.
pub open spec fn acc_apply(v: AccView, func: AccFunc, f: FactId, x: Value) -> AccView {
    if skips(func, x) {
        v
    } else {
        match func {
            AccFunc::Sum => match x {
                Value::I64(n) => AccView { sum_i: (v.sum_i + n) as i64, ..v },
                Value::Dec { u, s } => {
                    let (w, t) = dec_step(v.sum_d, u, s, false);
                    AccView { sum_d: (w as i128, t as u8), ..v }
                },
                _ => v,
            },
            AccFunc::Count => AccView { count: (v.count + 1) as i64, ..v },
            AccFunc::Average => AccView { count: (v.count + 1) as i64, ..v },
            AccFunc::Min => if replaces(func, x, v.minmax) { AccView { minmax: Some(x), ..v } } else { v },
            AccFunc::Max => if replaces(func, x, v.minmax) { AccView { minmax: Some(x), ..v } } else { v },
            AccFunc::Collect => AccView { list: v.list.push(f), ..v },
            AccFunc::CollectList => AccView { vlist: v.vlist.push((f, x)), ..v },
            AccFunc::CollectSet => {
                let i = set_idx(v.vset, x);
                if i < v.vset.len() {
                    AccView { vset: v.vset.update(i, (v.vset[i].0, (v.vset[i].1 + 1) as usize)), ..v }
                } else {
                    AccView { vset: v.vset.push((x, 1usize)), ..v }
                }
            },
        }
    }
}

/// The machine limits taking a contribution back must stay within.
pub open spec fn reverse_ok(v: AccView, func: AccFunc, x: Value) -> bool {
    skips(func, x) || match func {
        AccFunc::Sum => match x {
            Value::I64(n) => i64::MIN <= v.sum_i - n <= i64::MAX,
            Value::Dec { u, s } => dec_step_ok(v.sum_d, u, s, true),
            _ => true,
        },
        AccFunc::Count => v.count > i64::MIN,
        AccFunc::Average => v.count > i64::MIN,
        _ => true,
    }
}

/// `tryReverse()`: take one contribution back out; `false` (state
/// untouched) for min/max, which must be refolded.
pub open spec fn acc_reverse(v: AccView, func: AccFunc, f: FactId, x: Value) -> (AccView, bool) {
    if skips(func, x) {
        (v, true)
    } else {
        match func {
            AccFunc::Sum => (match x {
                Value::I64(n) => AccView { sum_i: (v.sum_i - n) as i64, ..v },
                Value::Dec { u, s } => {
                    let (w, t) = dec_step(v.sum_d, u, s, true);
                    AccView { sum_d: (w as i128, t as u8), ..v }
                },
                _ => v,
            }, true),
            AccFunc::Count => (AccView { count: (v.count - 1) as i64, ..v }, true),
            AccFunc::Average => (AccView { count: (v.count - 1) as i64, ..v }, true),
            AccFunc::Min => (v, false),
            AccFunc::Max => (v, false),
            AccFunc::Collect => (AccView { list: remove_first(v.list, f), ..v }, true),
            AccFunc::CollectList => {
                let i = vlist_idx(v.vlist, f);
                (if i < v.vlist.len() { AccView { vlist: v.vlist.remove(i), ..v } } else { v }, true)
            },
            AccFunc::CollectSet => {
                let i = set_idx(v.vset, x);
                (if i < v.vset.len() {
                    if v.vset[i].1 == 1 {
                        AccView { vset: v.vset.remove(i), ..v }
                    } else {
                        AccView { vset: v.vset.update(i, (v.vset[i].0, (v.vset[i].1 - 1) as usize)), ..v }
                    }
                } else {
                    v
                }, true)
            },
        }
    }
}

/// The results read here: every function but `average`, and `sum` over
/// integer and decimal arguments (the double results belong to the double
/// layer).
pub open spec fn result_in_core(func: AccFunc, arg_ft: FieldType) -> bool {
    !(func is Average) && (func is Sum ==> (arg_ft is I64 || arg_ft is Dec))
}

/// `getResult()`: an integer sum or count; a decimal sum, which when
/// nothing was ever added is zero at the argument's declared scale; the
/// current min/max (`None` blocks propagation); `0` for the collect
/// functions, whose values live with the matches.
pub open spec fn acc_result(v: AccView, func: AccFunc, arg_ft: FieldType) -> Option<Value> {
    match func {
        AccFunc::Sum => match arg_ft {
            FieldType::I64 => Some(Value::I64(v.sum_i)),
            FieldType::Dec { s, .. } => if v.sum_d.1 == 0 && v.sum_d.0 == 0 {
                Some(Value::Dec { u: 0, s })
            } else {
                Some(Value::Dec { u: v.sum_d.0, s: v.sum_d.1 })
            },
            _ => None,
        },
        AccFunc::Count => Some(Value::I64(v.count)),
        AccFunc::Min => v.minmax,
        AccFunc::Max => v.minmax,
        _ => Some(Value::I64(0)),
    }
}

/// `set_idx` is the first entry equal to `x`, or the length.
proof fn lemma_set_idx(s: Seq<(Value, usize)>, x: Value)
    ensures
        0 <= set_idx(s, x) <= s.len(),
        set_idx(s, x) < s.len() ==> value_same(s[set_idx(s, x)].0, x),
        forall|j: int| 0 <= j < set_idx(s, x) ==> !value_same(#[trigger] s[j].0, x),
    decreases s.len(),
{
    if s.len() > 0 && !value_same(s[0].0, x) {
        lemma_set_idx(s.drop_first(), x);
        assert forall|j: int| 0 <= j < set_idx(s, x) implies !value_same(#[trigger] s[j].0, x) by {
            if j > 0 {
                assert(s[j] == s.drop_first()[j - 1]);
            }
        }
    }
}

/// `vlist_idx` is the first entry of `f`, or the length.
proof fn lemma_vlist_idx(s: Seq<(FactId, Value)>, f: FactId)
    ensures
        0 <= vlist_idx(s, f) <= s.len(),
        vlist_idx(s, f) < s.len() ==> s[vlist_idx(s, f)].0 == f,
        forall|j: int| 0 <= j < vlist_idx(s, f) ==> (#[trigger] s[j]).0 != f,
    decreases s.len(),
{
    if s.len() > 0 && s[0].0 != f {
        lemma_vlist_idx(s.drop_first(), f);
        assert forall|j: int| 0 <= j < vlist_idx(s, f) implies (#[trigger] s[j]).0 != f by {
            if j > 0 {
                assert(s[j] == s.drop_first()[j - 1]);
            }
        }
    }
}

/// The first index satisfying `set_idx`'s description is `set_idx`.
proof fn lemma_set_idx_unique(s: Seq<(Value, usize)>, x: Value, i: int)
    requires
        0 <= i <= s.len(),
        i < s.len() ==> value_same(s[i].0, x),
        forall|j: int| 0 <= j < i ==> !value_same(#[trigger] s[j].0, x),
    ensures
        set_idx(s, x) == i,
{
    lemma_set_idx(s, x);
    let k = set_idx(s, x);
    if k < i {
        assert(!value_same(s[k].0, x));
    }
    if i < k {
        assert(!value_same(s[i].0, x));
    }
}

/// Position of the first set entry equal to `x`.
fn set_position(s: &Vec<(Value, usize)>, x: &Value) -> (r: usize)
    ensures
        r == set_idx(s@, *x),
{
    proof {
        lemma_set_idx(s@, *x);
    }
    let mut i: usize = 0;
    while i < s.len()
        invariant
            i <= s@.len(),
            forall|j: int| 0 <= j < i ==> !value_same(#[trigger] s@[j].0, *x),
        decreases s@.len() - i,
    {
        if values_equal(&s[i].0, x) {
            proof {
                lemma_set_idx_unique(s@, *x, i as int);
            }
            return i;
        }
        i = i + 1;
    }
    proof {
        lemma_set_idx_unique(s@, *x, i as int);
    }
    i
}

/// Position of the first list entry of fact `f`.
fn vlist_position(s: &Vec<(FactId, Value)>, f: FactId) -> (r: usize)
    ensures
        r == vlist_idx(s@, f),
{
    proof {
        lemma_vlist_idx(s@, f);
    }
    let mut i: usize = 0;
    while i < s.len()
        invariant
            i <= s@.len(),
            forall|j: int| 0 <= j < i ==> (#[trigger] s@[j]).0 != f,
            0 <= vlist_idx(s@, f) <= s@.len(),
            vlist_idx(s@, f) < s@.len() ==> s@[vlist_idx(s@, f)].0 == f,
            forall|j: int| 0 <= j < vlist_idx(s@, f) ==> (#[trigger] s@[j]).0 != f,
        decreases s@.len() - i,
    {
        if s[i].0 == f {
            return i;
        }
        i = i + 1;
    }
    i
}

/// The aligned decimal step (see `dec_step`).
fn dec_step_exec(a: (i128, u8), u: i128, s: u8, neg: bool) -> (r: (i128, u8))
    requires
        dec_step_ok(a, u, s, neg),
    ensures
        r.0 as int == dec_step(a, u, s, neg).0,
        r.1 as nat == dec_step(a, u, s, neg).1,
{
    let t: u8 = if a.1 >= s { a.1 } else { s };
    let x = match dec_rescale(a.0, a.1, t) {
        Some((x, _)) => x,
        None => 0,
    };
    let y = match dec_rescale(u, s, t) {
        Some((y, _)) => y,
        None => 0,
    };
    if neg {
        (x - y, t)
    } else {
        (x + y, t)
    }
}

/// Sign of the min/max order (see `acc_order`).
fn acc_order_sign(x: &Value, cur: &Value) -> (r: i8)
    ensures
        r as int == acc_order(*x, *cur),
{
    match (x, cur) {
        (Value::I64(a), Value::I64(b)) => {
            if *a < *b {
                -1
            } else if *a == *b {
                0
            } else {
                1
            }
        },
        (Value::Dec { u: a, s: p }, Value::Dec { u: b, s: q }) => dec_order_sign(*a, *p, *b, *q),
        _ => 0,
    }
}

impl AccCtx {
    /// A fresh context: no result fact, nothing propagated, empty state.
    pub fn new() -> (r: AccCtx)
        ensures
            r@ == (AccView {
                result: None,
                propagated: false,
                matches: Seq::empty(),
                sum_i: 0,
                sum_d: (0, 0),
                count: 0,
                minmax: None,
                list: Seq::empty(),
                vlist: Seq::empty(),
                vset: Seq::empty(),
            }),
            acc_wf(r@),
    {
        AccCtx {
            result: None,
            propagated: false,
            matches: Vec::new(),
            sum_i: 0,
            sum_d: (0, 0),
            count: 0,
            minmax: None,
            list: Vec::new(),
            vlist: Vec::new(),
            vset: Vec::new(),
        }
    }

    /// Reinitialize the function state; the result fact, the propagation
    /// flag and the stored matches survive (the handle is reused).
    pub fn reset_state(&mut self)
        ensures
            final(self)@ == (AccView {
                sum_i: 0,
                sum_d: (0, 0),
                count: 0,
                minmax: None,
                list: Seq::empty(),
                vlist: Seq::empty(),
                vset: Seq::empty(),
                ..old(self)@
            }),
            acc_wf(final(self)@),
    {
        self.sum_i = 0;
        self.sum_d = (0, 0);
        self.count = 0;
        self.minmax = None;
        self.list.clear();
        self.vlist.clear();
        self.vset.clear();
    }

    /// Fold the contribution `x` of fact `f` in (see `acc_apply`).
    pub fn apply(&mut self, func: AccFunc, f: FactId, x: &Value)
        requires
            acc_wf(old(self)@),
            apply_ok(old(self)@, func, *x),
        ensures
            final(self)@ == acc_apply(old(self)@, func, f, *x),
            acc_wf(final(self)@),
    {
        if x.is_null() && !(func == AccFunc::Count || func == AccFunc::Collect) {
            return;
        }
        match func {
            AccFunc::Sum => match x {
                Value::I64(n) => {
                    self.sum_i = self.sum_i + *n;
                },
                Value::Dec { u, s } => {
                    let r = dec_step_exec(self.sum_d, *u, *s, false);
                    self.sum_d = r;
                },
                _ => {},
            },
            AccFunc::Count => {
                self.count = self.count + 1;
            },
            AccFunc::Average => {
                self.count = self.count + 1;
            },
            AccFunc::Min | AccFunc::Max => {
                let better = match &self.minmax {
                    None => true,
                    Some(cur) => {
                        let o = acc_order_sign(x, cur);
                        if func == AccFunc::Min {
                            o < 0
                        } else {
                            o > 0
                        }
                    },
                };
                if better {
                    self.minmax = Some(x.duplicate());
                }
            },
            AccFunc::Collect => {
                self.list.push(f);
            },
            AccFunc::CollectList => {
                self.vlist.push((f, x.duplicate()));
            },
            AccFunc::CollectSet => {
                let i = set_position(&self.vset, x);
                if i < self.vset.len() {
                    let c = self.vset[i].1;
                    let e = (self.vset[i].0.duplicate(), c + 1);
                    self.vset.set(i, e);
                } else {
                    self.vset.push((x.duplicate(), 1));
                }
            },
        }
    }

    /// Take the contribution `x` of fact `f` back out where the function
    /// allows it (see `acc_reverse`); `false` means a refold is needed.
    pub fn try_reverse(&mut self, func: AccFunc, f: FactId, x: &Value) -> (r: bool)
        requires
            acc_wf(old(self)@),
            reverse_ok(old(self)@, func, *x),
        ensures
            (final(self)@, r) == acc_reverse(old(self)@, func, f, *x),
            acc_wf(final(self)@),
    {
        if x.is_null() && !(func == AccFunc::Count || func == AccFunc::Collect) {
            return true;
        }
        match func {
            AccFunc::Sum => {
                match x {
                    Value::I64(n) => {
                        self.sum_i = self.sum_i - *n;
                    },
                    Value::Dec { u, s } => {
                        let r = dec_step_exec(self.sum_d, *u, *s, true);
                        self.sum_d = r;
                    },
                    _ => {},
                }
                true
            },
            AccFunc::Count => {
                self.count = self.count - 1;
                true
            },
            AccFunc::Average => {
                self.count = self.count - 1;
                true
            },
            AccFunc::Min | AccFunc::Max => false,
            AccFunc::Collect => {
                vec_remove_first(&mut self.list, f);
                true
            },
            AccFunc::CollectList => {
                let i = vlist_position(&self.vlist, f);
                if i < self.vlist.len() {
                    self.vlist.remove(i);
                }
                true
            },
            AccFunc::CollectSet => {
                let i = set_position(&self.vset, x);
                if i < self.vset.len() {
                    let c = self.vset[i].1;
                    if c == 1 {
                        self.vset.remove(i);
                        proof {
                            assert forall|k: int| 0 <= k < self.vset@.len() implies (#[trigger] self.vset@[k]).1 >= 1 by {
                                if k < i {
                                    assert(self.vset@[k] == old(self).vset@[k]);
                                } else {
                                    assert(self.vset@[k] == old(self).vset@[k + 1]);
                                }
                            }
                        }
                    } else {
                        let e = (self.vset[i].0.duplicate(), c - 1);
                        self.vset.set(i, e);
                    }
                }
                true
            },
        }
    }

    /// The function's result (see `acc_result`).
    pub fn result_value(&self, func: AccFunc, arg_ft: FieldType) -> (r: Option<Value>)
        requires
            result_in_core(func, arg_ft),
        ensures
            r == acc_result(self@, func, arg_ft),
    {
        match func {
            AccFunc::Sum => match arg_ft {
                FieldType::I64 => Some(Value::I64(self.sum_i)),
                FieldType::Dec { s, .. } => {
                    let (u, us) = self.sum_d;
                    if us == 0 && u == 0 {
                        Some(Value::Dec { u: 0, s })
                    } else {
                        Some(Value::Dec { u, s: us })
                    }
                },
                _ => None,
            },
            AccFunc::Count => Some(Value::I64(self.count)),
            AccFunc::Min | AccFunc::Max => match &self.minmax {
                Some(v) => Some(v.duplicate()),
                None => None,
            },
            _ => Some(Value::I64(0)),
        }
    }
}

/// Every value is equal to itself.
proof fn lemma_value_same_refl(x: Value)
    ensures
        value_same(x, x),
{
}

/// Taking a contribution back undoes folding it in: for every function
/// but min/max (which refold instead), reversing right after applying the
/// same contribution succeeds and restores the state; a decimal sum comes
/// back to the same value, possibly at a larger scale. A `collect` or
/// `collectList` fact is one the list does not hold yet.
pub proof fn law_reverse_undoes_apply(v: AccView, func: AccFunc, f: FactId, x: Value)
    requires
        acc_wf(v),
        apply_ok(v, func, x),
        !(func is Min || func is Max),
        func is Collect ==> !v.list.contains(f),
        func is CollectList ==> vlist_idx(v.vlist, f) == v.vlist.len(),
    ensures
        reverse_ok(acc_apply(v, func, f, x), func, x),
        acc_reverse(acc_apply(v, func, f, x), func, f, x).1,
        !(func is Sum && x is Dec) ==> acc_reverse(acc_apply(v, func, f, x), func, f, x).0 == v,
        (func is Sum && x is Dec) ==> ({
            let w = acc_reverse(acc_apply(v, func, f, x), func, f, x).0;
            &&& w == (AccView { sum_d: w.sum_d, ..v })
            &&& dec_sign(w.sum_d.0, w.sum_d.1, v.sum_d.0, v.sum_d.1) == 0
        }),
{
    let a = acc_apply(v, func, f, x);
    if !skips(func, x) {
        match func {
            AccFunc::Sum => {
                if let Value::Dec { u, s } = x {
                    let t: nat = if v.sum_d.1 >= s { v.sum_d.1 as nat } else { s as nat };
                    assert(pow10(0) == 1);
                    assert(a.sum_d.1 as nat == t);
                    assert(rescaled(a.sum_d.0 as int, t, t) == a.sum_d.0);
                    let w = acc_reverse(a, func, f, x).0;
                    assert(w.sum_d.0 == rescaled(v.sum_d.0 as int, v.sum_d.1 as nat, t));
                    assert(w.sum_d.1 as nat == t);
                    assert(rescaled(v.sum_d.0 as int, v.sum_d.1 as nat, t) == v.sum_d.0 * pow10((t - v.sum_d.1) as nat));
                    assert(pow10((t - t) as nat) == 1);
                    assert(w.sum_d.0 * pow10((t - t) as nat) == w.sum_d.0);
                    assert(w =~= AccView { sum_d: w.sum_d, ..v });
                }
            },
            AccFunc::Collect => {
                let l = v.list.push(f);
                lemma_first_idx(l, f);
                lemma_first_idx(v.list, f);
                let k = first_idx(l, f);
                if k < v.list.len() {
                    assert(l[k] == v.list[k]);
                    assert(v.list.contains(f));
                }
                assert(l[v.list.len() as int] == f);
                assert(k == v.list.len());
                assert(l.remove(v.list.len() as int) =~= v.list);
            },
            AccFunc::CollectList => {
                let l = v.vlist.push((f, x));
                lemma_vlist_idx(l, f);
                lemma_vlist_idx(v.vlist, f);
                if vlist_idx(l, f) < v.vlist.len() {
                    assert(l[vlist_idx(l, f)] == v.vlist[vlist_idx(l, f)]);
                }
                assert(l[v.vlist.len() as int].0 == f);
                assert(vlist_idx(l, f) == v.vlist.len());
                assert(l.remove(v.vlist.len() as int) =~= v.vlist);
            },
            AccFunc::CollectSet => {
                lemma_set_idx(v.vset, x);
                let i = set_idx(v.vset, x);
                if i < v.vset.len() {
                    let l = v.vset.update(i, (v.vset[i].0, (v.vset[i].1 + 1) as usize));
                    assert forall|j: int| 0 <= j < i implies !value_same(#[trigger] l[j].0, x) by {
                        assert(l[j] == v.vset[j]);
                    }
                    lemma_set_idx_unique(l, x, i);
                    assert(v.vset[i].1 >= 1);
                    assert(l.update(i, (l[i].0, (l[i].1 - 1) as usize)) =~= v.vset);
                } else {
                    let l = v.vset.push((x, 1usize));
                    lemma_value_same_refl(x);
                    assert forall|j: int| 0 <= j < v.vset.len() implies !value_same(#[trigger] l[j].0, x) by {
                        assert(l[j] == v.vset[j]);
                    }
                    lemma_set_idx_unique(l, x, v.vset.len() as int);
                    assert(l.remove(v.vset.len() as int) =~= v.vset);
                }
            },
            _ => {},
        }
    }
}

/// Null contributions are skipped by the value aggregates (`sum`,
/// `average` — neither its sum nor its count moves —, `min`, `max` and the
/// value collections), in both directions; `count` counts the match
/// whatever its value and `collect` gathers the fact.
pub proof fn law_null_contribution_skipped(v: AccView, func: AccFunc, f: FactId)
    requires
        func is Count ==> v.count < i64::MAX,
    ensures
        !(func is Count || func is Collect) ==> acc_apply(v, func, f, Value::Null) == v,
        !(func is Count || func is Collect) ==> acc_reverse(v, func, f, Value::Null) == (v, true),
        func is Count ==> acc_apply(v, func, f, Value::Null).count == v.count + 1,
        func is Collect ==> acc_apply(v, func, f, Value::Null).list == v.list.push(f),
{
}

/// The decimal `a·10^-p` is numerically below `b·10^-q`
/// (cross-multiplied: `a·10^q < b·10^p`).
pub open spec fn dec_below(a: i128, p: u8, b: i128, q: u8) -> bool {
    a * pow10(q as nat) < b * pow10(p as nat)
}

/// Numerically below, for two values of one kind: integers by value,
/// decimals by value whatever their scales; values of different kinds,
/// or of other kinds, are never below one another.
pub open spec fn num_below(x: Value, y: Value) -> bool {
    match (x, y) {
        (Value::I64(a), Value::I64(b)) => a < b,
        (Value::Dec { u: a, s: p }, Value::Dec { u: b, s: q }) => dec_below(a, p, b, q),
        _ => false,
    }
}

/// Scaling both sides by a positive factor keeps a strict order.
proof fn lemma_scale_lt(x: int, y: int, c: int)
    requires
        c > 0,
    ensures
        (x * c < y * c) == (x < y),
{
    if x < y {
        assert(x * c < y * c) by (nonlinear_arith)
            requires
                x < y,
                c > 0,
        ;
    } else {
        assert(x * c >= y * c) by (nonlinear_arith)
            requires
                x >= y,
                c > 0,
        ;
    }
}

/// The decimal order decides by value: its sign is negative exactly when
/// the first decimal is numerically below the second.
proof fn lemma_dec_sign_below(a: i128, p: u8, b: i128, q: u8)
    ensures
        (dec_sign(a, p, b, q) < 0) == dec_below(a, p, b, q),
        (dec_sign(a, p, b, q) > 0) == dec_below(b, q, a, p),
{
    lemma_pow10_pos(p as nat);
    lemma_pow10_pos(q as nat);
    if p >= q {
        let k = (p - q) as nat;
        lemma_pow10_add(k, q as nat);
        lemma_pow10_pos(k);
        assert(pow10(0) == 1);
        let r = b * pow10(k);
        assert(b * pow10(p as nat) == r * pow10(q as nat)) by (nonlinear_arith)
            requires
                pow10(p as nat) == pow10(k) * pow10(q as nat),
                r == b * pow10(k),
        ;
        lemma_scale_lt(a as int, r, pow10(q as nat));
        lemma_scale_lt(r, a as int, pow10(q as nat));
    } else {
        let k = (q - p) as nat;
        lemma_pow10_add(k, p as nat);
        lemma_pow10_pos(k);
        assert(pow10(0) == 1);
        let l = a * pow10(k);
        assert(a * pow10(q as nat) == l * pow10(p as nat)) by (nonlinear_arith)
            requires
                pow10(q as nat) == pow10(k) * pow10(p as nat),
                l == a * pow10(k),
        ;
        lemma_scale_lt(l, b as int, pow10(p as nat));
        lemma_scale_lt(b as int, l, pow10(p as nat));
    }
}

/// Min and max keep the numerically least / greatest contribution: the
/// first contribution is kept; afterwards a contribution replaces the held
/// value exactly when it is numerically below it (min) / above it (max) —
/// integers by value, decimals by value across scales — and a value of
/// another kind never replaces it. Nothing else in the context changes.
pub proof fn law_min_max_numeric(v: AccView, f: FactId, x: Value)
    requires
        !(x is Null),
    ensures
        v.minmax is None ==> acc_apply(v, AccFunc::Min, f, x) == (AccView { minmax: Some(x), ..v }),
        v.minmax is None ==> acc_apply(v, AccFunc::Max, f, x) == (AccView { minmax: Some(x), ..v }),
        v.minmax matches Some(c) ==> acc_apply(v, AccFunc::Min, f, x) == (AccView {
            minmax: if num_below(x, c) { Some(x) } else { Some(c) },
            ..v
        }),
        v.minmax matches Some(c) ==> acc_apply(v, AccFunc::Max, f, x) == (AccView {
            minmax: if num_below(c, x) { Some(x) } else { Some(c) },
            ..v
        }),
{
    if let Some(c) = v.minmax {
        match (x, c) {
            (Value::Dec { u: a, s: p }, Value::Dec { u: b, s: q }) => {
                lemma_dec_sign_below(a, p, b, q);
            },
            _ => {},
        }
        assert(acc_apply(v, AccFunc::Min, f, x) =~= AccView { minmax: if num_below(x, c) { Some(x) } else { Some(c) }, ..v });
        assert(acc_apply(v, AccFunc::Max, f, x) =~= AccView { minmax: if num_below(c, x) { Some(x) } else { Some(c) }, ..v });
    } else {
        assert(acc_apply(v, AccFunc::Min, f, x) =~= AccView { minmax: Some(x), ..v });
        assert(acc_apply(v, AccFunc::Max, f, x) =~= AccView { minmax: Some(x), ..v });
    }
}

/// The decimal running sum adds by value: aligned up to the larger of the
/// two scales, `w·10^-t = a·10^-p + u·10^-s`, stated by cross
/// multiplication.
proof fn lemma_dec_step_value(a: i128, p: u8, u: i128, s: u8)
    ensures
        ({
            let (w, t) = dec_step((a, p), u, s, false);
            &&& t == (if p >= s { p as nat } else { s as nat })
            &&& w * pow10(p as nat) * pow10(s as nat) == (a * pow10(s as nat) + u * pow10(p as nat)) * pow10(t)
        }),
{
    let t: nat = if p >= s { p as nat } else { s as nat };
    let kp = (t - p) as nat;
    let ks = (t - s) as nat;
    lemma_pow10_add(kp, p as nat);
    lemma_pow10_add(ks, s as nat);
    assert(kp + p as nat == t);
    assert(ks + s as nat == t);
    let ka = pow10(kp);
    let kb = pow10(ks);
    let pp = pow10(p as nat);
    let ps = pow10(s as nat);
    let pt = pow10(t);
    let ai = a as int;
    let ui = u as int;
    let w = ai * ka + ui * kb;
    assert(dec_step((a, p), u, s, false).0 == w);
    assert(ai * ka * pp * ps == ai * ps * pt) by (nonlinear_arith)
        requires
            pt == ka * pp,
    ;
    assert(ui * kb * pp * ps == ui * pp * pt) by (nonlinear_arith)
        requires
            pt == kb * ps,
    ;
    assert(w * pp * ps == ai * ka * pp * ps + ui * kb * pp * ps) by (nonlinear_arith)
        requires
            w == ai * ka + ui * kb,
    ;
    assert((ai * ps + ui * pp) * pt == ai * ps * pt + ui * pp * pt) by (nonlinear_arith);
}

/// What one contribution adds, in the terms of the functions themselves:
/// an integer sum grows by the integer; a decimal sum grows by the
/// decimal's value, at the larger of the two scales; `count` and
/// `average` count one more; `collect` appends the fact, `collectList`
/// the (fact, value) pair. Nothing else in the context changes.
pub proof fn law_apply_adds_one(v: AccView, func: AccFunc, f: FactId, x: Value)
    requires
        !skips(func, x),
        apply_ok(v, func, x),
    ensures
        x matches Value::I64(n) ==> (func is Sum ==> acc_apply(v, func, f, x) == (AccView { sum_i: (v.sum_i + n) as i64, ..v })
            && acc_apply(v, func, f, x).sum_i == v.sum_i + n),
        x matches Value::Dec { u, s } ==> (func is Sum ==> {
            let r = acc_apply(v, func, f, x);
            &&& r == (AccView { sum_d: r.sum_d, ..v })
            &&& r.sum_d.1 == (if v.sum_d.1 >= s { v.sum_d.1 } else { s })
            &&& r.sum_d.0 * pow10(v.sum_d.1 as nat) * pow10(s as nat)
                == (v.sum_d.0 * pow10(s as nat) + u * pow10(v.sum_d.1 as nat)) * pow10(r.sum_d.1 as nat)
        }),
        (func is Sum && !(x is I64) && !(x is Dec)) ==> acc_apply(v, func, f, x) == v,
        (func is Count || func is Average) ==> acc_apply(v, func, f, x) == (AccView { count: (v.count + 1) as i64, ..v })
            && acc_apply(v, func, f, x).count == v.count + 1,
        func is Collect ==> acc_apply(v, func, f, x) == (AccView { list: v.list.push(f), ..v }),
        func is CollectList ==> acc_apply(v, func, f, x) == (AccView { vlist: v.vlist.push((f, x)), ..v }),
{
    if func is Sum {
        if let Value::Dec { u, s } = x {
            lemma_dec_step_value(v.sum_d.0, v.sum_d.1, u, s);
            let (w, t) = dec_step(v.sum_d, u, s, false);
            assert(fits_i128(w));
            assert((w as i128) as int == w);
            assert(t < 256);
            assert((t as u8) as nat == t);
        }
    }
}

} // verus!
