//! Event lifetimes and windows: the expiration deadline of an event and
//! its class against the clock, the admission of an event into a
//! `window:time(N)` accumulate, and the slot ring of a `window:length(N)`
//! accumulate, and the pseudo-clock with its deadline queue. Timestamps
//! are 64-bit with two's-complement wrapping.

use vstd::prelude::*;
use crate::value::{EngineError, FactId};

verus! {

/// `a + b` wrapped into 64 bits.
pub open spec fn wadd(a: i64, b: i64) -> i64 {
    if a + b > i64::MAX {
        (a + b - 0x1_0000_0000_0000_0000) as i64
    } else if a + b < i64::MIN {
        (a + b + 0x1_0000_0000_0000_0000) as i64
    } else {
        (a + b) as i64
    }
}

/// Wrapped addition.
fn wrap_add(a: i64, b: i64) -> (r: i64)
    ensures
        r == wadd(a, b),
{
    a.wrapping_add(b)
}

/// The expiration deadline of an event with timestamp `ts`, duration
/// `dur` and offset `exp`: it expires from its end, and strictly after the
/// offset (one more millisecond) when some rule references its type.
pub open spec fn spec_deadline(ts: i64, dur: i64, exp: i64, referenced: bool) -> i64 {
    wadd(wadd(wadd(ts, dur), exp), if referenced { 1i64 } else { 0i64 })
}

/// The expiration deadline (see `spec_deadline`).
pub fn expiry_deadline(ts: i64, dur: i64, exp: i64, referenced: bool) -> (r: i64)
    ensures
        r == spec_deadline(ts, dur, exp, referenced),
{
    let plus: i64 = if referenced { 1 } else { 0 };
    wrap_add(wrap_add(wrap_add(ts, dur), exp), plus)
}

/// How a deadline stands against the insertion clock.
#[derive(Clone, Copy, Debug, PartialEq, Eq, Structural)]
pub enum DeadlineClass {
    /// A negative deadline: the event is kept forever.
    Leaked,
    /// Due on arrival: it still matches and fires this cycle and drops at
    /// the quiescence drain.
    Due,
    /// Scheduled on the reaper queue.
    Scheduled,
}

/// The class of `deadline` at clock `clock`.
pub open spec fn spec_deadline_class(deadline: i64, clock: i64) -> DeadlineClass {
    if deadline < 0 {
        DeadlineClass::Leaked
    } else if deadline <= clock {
        DeadlineClass::Due
    } else {
        DeadlineClass::Scheduled
    }
}

/// The class of a deadline (see `spec_deadline_class`).
pub fn deadline_class(deadline: i64, clock: i64) -> (r: DeadlineClass)
    ensures
        r == spec_deadline_class(deadline, clock),
{
    if deadline < 0 {
        DeadlineClass::Leaked
    } else if deadline <= clock {
        DeadlineClass::Due
    } else {
        DeadlineClass::Scheduled
    }
}

/// A `window:time(n)` accumulate admits an event whose insert-time
/// timestamp `ts` has `ts + n` (wrapped) still after the clock.
pub fn window_time_admits(ts: i64, n: i64, clock: i64) -> (r: bool)
    ensures
        r == (wadd(ts, n) > clock),
{
    wrap_add(ts, n) > clock
}

/// The slot ring of a `window:length(n)` accumulate after admitting `f`:
/// its slot appends, and on overflow the oldest slot leaves.
pub open spec fn ring_after(ring: Seq<FactId>, f: FactId, n: i64) -> (Seq<FactId>, Option<FactId>) {
    let r = ring.push(f);
    if r.len() > n {
        (r.drop_first(), Some(r[0]))
    } else {
        (r, None)
    }
}

/// Admit `f` into the slot ring (see `ring_after`); the evicted occupant
/// of the oldest slot is returned for removal.
pub fn ring_admit(ring: &mut Vec<FactId>, f: FactId, n: i64) -> (evicted: Option<FactId>)
    requires
        old(ring)@.len() < usize::MAX,
    ensures
        (final(ring)@, evicted) == ring_after(old(ring)@, f, n),
{
    ring.push(f);
    if (ring.len() as i128) > (n as i128) {
        let first = ring.remove(0);
        proof {
            assert(ring@ =~= old(ring)@.push(f).drop_first());
        }
        Some(first)
    } else {
        None
    }
}

/// A `window:length(n)` admission: a fact already holding a slot or
/// waiting for one is never re-appended; with deferred entries pending the
/// admission waits (`Some(true)`); otherwise the ring operation runs
/// (`Some(false)`); `None` when the fact is skipped.
pub open spec fn spec_length_admission(ring: Seq<FactId>, waiting: Seq<FactId>, f: FactId, entries_pending: bool) -> Option<bool> {
    if ring.contains(f) || waiting.contains(f) {
        None
    } else {
        Some(entries_pending)
    }
}

/// The `window:length(n)` admission decision (see
/// `spec_length_admission`).
pub fn length_admission(ring: &Vec<FactId>, waiting: &Vec<FactId>, f: FactId, entries_pending: bool) -> (r: Option<bool>)
    ensures
        r == spec_length_admission(ring@, waiting@, f, entries_pending),
{
    if crate::seqs::vec_contains(ring, f) || crate::seqs::vec_contains(waiting, f) {
        None
    } else {
        Some(entries_pending)
    }
}

/// The session's pseudo-clock and its expiration deadlines: per deadline
/// (in rising order, each once) the events due then, in scheduling order.
pub struct PseudoClock {
    pub clock_ms: i64,
    pub deadlines: Vec<(i64, Vec<FactId>)>,
}

/// One deadline entry as plain values.
pub type DeadlineEntry = (i64, Seq<FactId>);

/// Mathematical state of a `PseudoClock`.
#[verifier::ext_equal]
pub struct ClockView {
    pub clock_ms: i64,
    pub deadlines: Seq<DeadlineEntry>,
}

impl View for PseudoClock {
    type V = ClockView;

    open spec fn view(&self) -> ClockView {
        ClockView {
            clock_ms: self.clock_ms,
            deadlines: self.deadlines@.map_values(|e: (i64, Vec<FactId>)| (e.0, e.1@)),
        }
    }
}

/// Deadlines rise strictly: each deadline is held once, in order.
pub open spec fn clock_wf(v: ClockView) -> bool {
    forall|i: int, j: int| 0 <= i < j < v.deadlines.len() ==> (#[trigger] v.deadlines[i]).0 < (#[trigger] v.deadlines[j]).0
}

/// How many deadlines (a prefix, as they rise) are at or before `t`.
pub open spec fn due_count(ds: Seq<DeadlineEntry>, t: i64) -> int
    decreases ds.len(),
{
    if ds.len() == 0 || ds[0].0 > t {
        0
    } else {
        1 + due_count(ds.drop_first(), t)
    }
}

/// The events of a run of deadline entries, in deadline order.
pub open spec fn events_of(ds: Seq<DeadlineEntry>) -> Seq<FactId>
    decreases ds.len(),
{
    if ds.len() == 0 {
        Seq::empty()
    } else {
        events_of(ds.drop_last()) + ds.last().1
    }
}

/// Scheduling `id` at deadline `d`: it joins `d`'s events, or `d` enters
/// in rising order with `id` alone.
pub open spec fn schedule_after(ds: Seq<DeadlineEntry>, d: i64, id: FactId) -> Seq<DeadlineEntry> {
    let k = due_count(ds, d);
    if k > 0 && ds[k - 1].0 == d {
        ds.update(k - 1, (d, ds[k - 1].1.push(id)))
    } else {
        ds.insert(k, (d, seq![id]))
    }
}

/// `due_count` counts the entries at or before `t`.
proof fn lemma_due_count(ds: Seq<DeadlineEntry>, t: i64)
    requires
        forall|i: int, j: int| 0 <= i < j < ds.len() ==> (#[trigger] ds[i]).0 < (#[trigger] ds[j]).0,
    ensures
        0 <= due_count(ds, t) <= ds.len(),
        forall|i: int| 0 <= i < due_count(ds, t) ==> (#[trigger] ds[i]).0 <= t,
        forall|i: int| due_count(ds, t) <= i < ds.len() ==> (#[trigger] ds[i]).0 > t,
    decreases ds.len(),
{
    if ds.len() > 0 && ds[0].0 <= t {
        let d = ds.drop_first();
        assert forall|i: int, j: int| 0 <= i < j < d.len() implies (#[trigger] d[i]).0 < (#[trigger] d[j]).0 by {
            assert(d[i] == ds[i + 1] && d[j] == ds[j + 1]);
        }
        lemma_due_count(d, t);
        assert forall|i: int| 0 <= i < due_count(ds, t) implies (#[trigger] ds[i]).0 <= t by {
            if i > 0 {
                assert(ds[i] == d[i - 1]);
            }
        }
        assert forall|i: int| due_count(ds, t) <= i < ds.len() implies (#[trigger] ds[i]).0 > t by {
            assert(ds[i] == d[i - 1]);
        }
    } else if ds.len() > 0 {
        assert forall|i: int| 0 <= i < ds.len() implies (#[trigger] ds[i]).0 > t by {
            if i > 0 {
                assert(ds[0].0 < ds[i].0);
            }
        }
    }
}

/// The first `k` entries are exactly those at or before `t`.
proof fn lemma_due_count_unique(ds: Seq<DeadlineEntry>, t: i64, k: int)
    requires
        forall|i: int, j: int| 0 <= i < j < ds.len() ==> (#[trigger] ds[i]).0 < (#[trigger] ds[j]).0,
        0 <= k <= ds.len(),
        forall|i: int| 0 <= i < k ==> (#[trigger] ds[i]).0 <= t,
        forall|i: int| k <= i < ds.len() ==> (#[trigger] ds[i]).0 > t,
    ensures
        due_count(ds, t) == k,
{
    lemma_due_count(ds, t);
    let c = due_count(ds, t);
    if c < k {
        assert(ds[c].0 <= t);
    }
    if k < c {
        assert(ds[k].0 <= t);
    }
}

impl PseudoClock {
    /// A clock at 0 with nothing scheduled.
    pub fn new() -> (r: PseudoClock)
        ensures
            r@ == (ClockView { clock_ms: 0, deadlines: Seq::empty() }),
            clock_wf(r@),
    {
        let r = PseudoClock { clock_ms: 0, deadlines: Vec::new() };
        proof {
            assert(r@.deadlines =~= Seq::<DeadlineEntry>::empty());
        }
        r
    }

    /// Schedule `id` to expire at deadline `d` (see `schedule_after`).
    pub fn schedule(&mut self, d: i64, id: FactId)
        requires
            clock_wf(old(self)@),
        ensures
            final(self)@ == (ClockView { deadlines: schedule_after(old(self)@.deadlines, d, id), ..old(self)@ }),
            clock_wf(final(self)@),
    {
        let ghost ds = self@.deadlines;
        proof {
            lemma_due_count(ds, d);
        }
        let mut k: usize = 0;
        while k < self.deadlines.len() && self.deadlines[k].0 <= d
            invariant
                k <= self.deadlines@.len(),
                ds == self@.deadlines,
                ds.len() == self.deadlines@.len(),
                forall|i: int| 0 <= i < k ==> (#[trigger] ds[i]).0 <= d,
            decreases self.deadlines@.len() - k,
        {
            proof {
                assert(ds[k as int].0 == self.deadlines@[k as int].0);
            }
            k = k + 1;
        }
        proof {
            if k < ds.len() {
                assert(ds[k as int].0 == self.deadlines@[k as int].0);
                assert forall|i: int| k <= i < ds.len() implies (#[trigger] ds[i]).0 > d by {
                    if i > k {
                        assert(ds[k as int].0 < ds[i].0);
                    }
                }
            }
            lemma_due_count_unique(ds, d, k as int);
        }
        if k > 0 && self.deadlines[k - 1].0 == d {
            let mut e = self.deadlines.remove(k - 1);
            proof {
                assert(e.1@ == ds[k - 1].1);
            }
            e.1.push(id);
            self.deadlines.insert(k - 1, e);
            proof {
                assert(self@.deadlines =~= ds.update(k - 1, (d, ds[k - 1].1.push(id))));
            }
        } else {
            let mut v: Vec<FactId> = Vec::new();
            v.push(id);
            self.deadlines.insert(k, (d, v));
            proof {
                assert(self@.deadlines =~= ds.insert(k as int, (d, seq![id])));
                let n = self@.deadlines;
                assert forall|i: int, j: int| 0 <= i < j < n.len() implies (#[trigger] n[i]).0 < (#[trigger] n[j]).0 by {
                    if i < k && j < k {
                        assert(n[i] == ds[i] && n[j] == ds[j]);
                    } else if i < k && j == k {
                        assert(n[i] == ds[i]);
                        if k > 0 && i < k - 1 {
                            assert(ds[i].0 < ds[k - 1].0);
                        }
                    } else if i < k {
                        assert(n[i] == ds[i] && n[j] == ds[j - 1]);
                    } else if i == k {
                        assert(n[j] == ds[j - 1]);
                    } else {
                        assert(n[i] == ds[i - 1] && n[j] == ds[j - 1]);
                    }
                }
            }
        }
    }

    /// Advance the clock by `ms` (wrapping); the events whose deadlines
    /// are now due come back in deadline order and leave the queue. A
    /// negative step is refused.
    pub fn advance(&mut self, ms: i64) -> (r: Result<Vec<FactId>, EngineError>)
        requires
            clock_wf(old(self)@),
        ensures
            r is Err <==> ms < 0,
            r matches Err(e) ==> e.0@ == "advance must be >= 0"@ && *final(self) == *old(self),
            r matches Ok(due) ==> ({
                let t = wadd(old(self)@.clock_ms, ms);
                let k = due_count(old(self)@.deadlines, t);
                &&& final(self)@.clock_ms == t
                &&& due@ == events_of(old(self)@.deadlines.subrange(0, k))
                &&& final(self)@.deadlines == old(self)@.deadlines.subrange(k, old(self)@.deadlines.len() as int)
            }),
            clock_wf(final(self)@),
    {
        if ms < 0 {
            let mut m = String::new();
            crate::render::push_str(&mut m, "advance must be >= 0");
            proof {
                reveal_strlit("advance must be >= 0");
                assert(m@ =~= "advance must be >= 0"@);
            }
            return Err(EngineError(m));
        }
        let t = wrap_add(self.clock_ms, ms);
        self.clock_ms = t;
        let ghost ds = self@.deadlines;
        proof {
            assert(ds == old(self)@.deadlines);
            lemma_due_count(ds, t);
        }
        let mut due: Vec<FactId> = Vec::new();
        let mut k: usize = 0;
        proof {
            assert(ds.subrange(0, 0) =~= Seq::<DeadlineEntry>::empty());
        }
        while k < self.deadlines.len() && self.deadlines[k].0 <= t
            invariant
                k <= self.deadlines@.len(),
                ds == self@.deadlines,
                ds.len() == self.deadlines@.len(),
                forall|i: int| 0 <= i < k ==> (#[trigger] ds[i]).0 <= t,
                due@ == events_of(ds.subrange(0, k as int)),
            decreases self.deadlines@.len() - k,
        {
            proof {
                assert(ds[k as int] == (self.deadlines@[k as int].0, self.deadlines@[k as int].1@));
                assert(ds.subrange(0, k + 1).drop_last() =~= ds.subrange(0, k as int));
            }
            let mut j: usize = 0;
            let ghost d0 = due@;
            while j < self.deadlines[k].1.len()
                invariant
                    k < self.deadlines@.len(),
                    j <= self.deadlines@[k as int].1@.len(),
                    due@ == d0 + self.deadlines@[k as int].1@.subrange(0, j as int),
                decreases self.deadlines@[k as int].1@.len() - j,
            {
                due.push(self.deadlines[k].1[j]);
                j = j + 1;
                proof {
                    assert(due@ =~= d0 + self.deadlines@[k as int].1@.subrange(0, j as int));
                }
            }
            proof {
                assert(self.deadlines@[k as int].1@.subrange(0, j as int) =~= self.deadlines@[k as int].1@);
            }
            k = k + 1;
        }
        proof {
            if k < ds.len() {
                assert(ds[k as int].0 == self.deadlines@[k as int].0);
                assert forall|i: int| k <= i < ds.len() implies (#[trigger] ds[i]).0 > t by {
                    if i > k {
                        assert(ds[k as int].0 < ds[i].0);
                    }
                }
            }
            lemma_due_count_unique(ds, t, k as int);
        }
        let rest = self.deadlines.split_off(k);
        self.deadlines = rest;
        proof {
            assert(self@.deadlines =~= ds.subrange(k as int, ds.len() as int));
            let n = self@.deadlines;
            assert forall|i: int, j: int| 0 <= i < j < n.len() implies (#[trigger] n[i]).0 < (#[trigger] n[j]).0 by {
                assert(n[i] == ds[i + k] && n[j] == ds[j + k]);
            }
        }
        Ok(due)
    }
}

/// The events of two consecutive runs of entries are those of the first
/// followed by those of the second.
proof fn lemma_events_of_concat(a: Seq<DeadlineEntry>, b: Seq<DeadlineEntry>)
    ensures
        events_of(a + b) == events_of(a) + events_of(b),
    decreases b.len(),
{
    if b.len() == 0 {
        assert(a + b =~= a);
        assert(events_of(b) =~= Seq::<FactId>::empty());
        assert(events_of(a) + events_of(b) =~= events_of(a));
    } else {
        lemma_events_of_concat(a, b.drop_last());
        assert((a + b).drop_last() =~= a + b.drop_last());
        assert((a + b).last() == b.last());
        assert(events_of(a) + events_of(b) =~= events_of(a) + events_of(b.drop_last()) + b.last().1);
    }
}

/// Advancing the clock to `t` splits the queue cleanly: the entries that
/// come due are exactly those at or before `t`, those left all lie after
/// `t`, and no event is lost or duplicated (the due events followed by the
/// remaining ones are all the scheduled events, in deadline order).
pub proof fn law_advance_splits_queue(v: ClockView, t: i64)
    requires
        clock_wf(v),
    ensures
        ({
            let ds = v.deadlines;
            let k = due_count(ds, t);
            &&& 0 <= k <= ds.len()
            &&& forall|i: int| 0 <= i < k ==> (#[trigger] ds[i]).0 <= t
            &&& forall|i: int| k <= i < ds.len() ==> (#[trigger] ds[i]).0 > t
            &&& events_of(ds.subrange(0, k)) + events_of(ds.subrange(k, ds.len() as int)) == events_of(ds)
        }),
{
    let ds = v.deadlines;
    lemma_due_count(ds, t);
    let k = due_count(ds, t);
    lemma_events_of_concat(ds.subrange(0, k), ds.subrange(k, ds.len() as int));
    assert(ds.subrange(0, k) + ds.subrange(k, ds.len() as int) =~= ds);
}

/// An event expires from its end: away from the 64-bit edges its deadline
/// is `ts + dur + exp`, one millisecond later when its type is
/// referenced; and in every case the referenced deadline is the plain one
/// plus one, wrapped.
pub proof fn law_deadline_from_end(ts: i64, dur: i64, exp: i64, referenced: bool)
    ensures
        (i64::MIN <= ts + dur <= i64::MAX && i64::MIN <= ts + dur + exp < i64::MAX) ==> spec_deadline(ts, dur, exp, referenced)
            == ts + dur + exp + (if referenced { 1int } else { 0int }),
        spec_deadline(ts, dur, exp, true) == wadd(spec_deadline(ts, dur, exp, false), 1),
{
}

} // verus!
