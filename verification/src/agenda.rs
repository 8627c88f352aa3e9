//! The agenda decisions of the fire loop: which rule item pops next
//! (salience descending, then rule declaration index ascending, over the
//! focused group's live items), which queued activation of the popped
//! rule fires (FIFO, a gated rule's shadow-ranked order, or a dynamic
//! rule's highest activation), how a dynamic-salience item's sticky
//! salience follows its queue, and the fire limit.

use vstd::prelude::*;
use std::collections::HashMap;
use crate::render::{push_nat, push_str, nat_digits};
use crate::rulenet::RuleNet;
use crate::value::{EngineError, FactId};

verus! {

broadcast use vstd::std_specs::hash::group_hash_axioms;

/// One agenda activation: the tuple, its salience (computed at creation
/// or at a fired re-add, kept through queued restages), and its creation
/// number (tie order among dynamic activations).
pub struct Act {
    pub t: Vec<FactId>,
    pub sal: i32,
    pub seq: u64,
}

/// One candidate agenda item, in scan order (rules in declaration-scan
/// order, then pending queries): its item salience, declaration index,
/// whether it is a query, its rule or query index, and whether it takes
/// part in this pick (in the focused group and queued or with deferred
/// work).
#[derive(Clone, Copy, Debug, PartialEq, Eq, Structural)]
pub struct AgendaItem {
    pub sal: i32,
    pub decl: usize,
    pub is_query: bool,
    pub idx: usize,
    pub live: bool,
}

/// Item `a` goes no later than item `b`: higher salience, or equal
/// salience and no greater declaration index.
pub open spec fn agenda_le(a: AgendaItem, b: AgendaItem) -> bool {
    a.sal > b.sal || (a.sal == b.sal && a.decl <= b.decl)
}

/// `k` is the pick: a live item that goes no later than any live item,
/// and the first in scan order with its (salience, declaration) key.
pub open spec fn is_agenda_pick(items: Seq<AgendaItem>, k: int) -> bool {
    &&& 0 <= k < items.len()
    &&& items[k].live
    &&& forall|j: int| 0 <= j < items.len() && (#[trigger] items[j]).live ==> agenda_le(items[k], items[j])
    &&& forall|j: int| 0 <= j < k && (#[trigger] items[j]).live ==> !agenda_le(items[j], items[k])
}

/// The next agenda item: `(is_query, index)` of the live item with the
/// highest salience and, among those, the lowest declaration index (the
/// first scanned on a full tie); `None` when no item is live.
pub fn pick_agenda_item(items: &[AgendaItem]) -> (r: Option<(bool, usize)>)
    ensures
        r is None <==> forall|j: int| 0 <= j < items@.len() ==> !(#[trigger] items@[j]).live,
        r matches Some((q, i)) ==> exists|k: int| is_agenda_pick(items@, k) && items@[k].is_query == q && items@[k].idx == i,
{
    let mut best: Option<usize> = None;
    let mut i: usize = 0;
    while i < items.len()
        invariant
            i <= items@.len(),
            best is None <==> forall|j: int| 0 <= j < i ==> !(#[trigger] items@[j]).live,
            best matches Some(k) ==> k < i && items@[k as int].live
                && (forall|j: int| 0 <= j < i && (#[trigger] items@[j]).live ==> agenda_le(items@[k as int], items@[j]))
                && (forall|j: int| 0 <= j < k && (#[trigger] items@[j]).live ==> !agenda_le(items@[j], items@[k as int])),
        decreases items@.len() - i,
    {
        let it = items[i];
        if it.live {
            let better = match best {
                None => true,
                Some(k) => it.sal > items[k].sal || (it.sal == items[k].sal && it.decl < items[k].decl),
            };
            if better {
                best = Some(i);
            }
        }
        i = i + 1;
    }
    match best {
        None => None,
        Some(k) => {
            proof {
                assert(is_agenda_pick(items@, k as int));
            }
            Some((items[k].is_query, items[k].idx))
        },
    }
}

/// Whether a strictly higher-salience item of the focused group waits
/// while the just-fired rule's item has salience `fired_sal`: another
/// queued rule item above it, or, in the main group, a pending query
/// (salience 0) above it. `others` are the other queued items' saliences
/// in the focused group.
pub open spec fn spec_higher_waits(fired_sal: i32, others: Seq<i32>, main_query_pending: bool) -> bool {
    (exists|j: int| 0 <= j < others.len() && #[trigger] others[j] > fired_sal) || (main_query_pending && 0 > fired_sal)
}

/// See `spec_higher_waits`: a strictly higher item waiting halts the
/// executor without re-evaluating the fired rule.
pub fn higher_waits(fired_sal: i32, others: &[i32], main_query_pending: bool) -> (r: bool)
    ensures
        r == spec_higher_waits(fired_sal, others@, main_query_pending),
{
    let mut i: usize = 0;
    while i < others.len()
        invariant
            i <= others@.len(),
            forall|j: int| 0 <= j < i ==> #[trigger] others@[j] <= fired_sal,
        decreases others@.len() - i,
    {
        if others[i] > fired_sal {
            return true;
        }
        i = i + 1;
    }
    main_query_pending && 0 > fired_sal
}

/// The text of the fire-limit error.
pub open spec fn fire_limit_msg(limit: usize) -> Seq<char> {
    "fire limit "@ + nat_digits(limit as nat) + " reached (non-terminating?)"@
}

/// The fire-limit check before a firing: with `fired` firings done, one
/// more is refused once `limit` are done.
pub fn fire_limit_check(fired: usize, limit: usize) -> (r: Result<(), EngineError>)
    ensures
        r is Ok <==> fired < limit,
        r matches Err(e) ==> e.0@ == fire_limit_msg(limit),
{
    if fired >= limit {
        let mut m = String::new();
        push_str(&mut m, "fire limit ");
        push_nat(&mut m, limit as u128);
        push_str(&mut m, " reached (non-terminating?)");
        proof {
            assert(m@ =~= fire_limit_msg(limit));
        }
        Err(EngineError(m))
    } else {
        Ok(())
    }
}

/// Activation `a` pops no later than `b` in a dynamic rule: higher
/// salience, or equal salience and a creation number at least as large.
pub open spec fn act_ge(a: Act, b: Act) -> bool {
    a.sal > b.sal || (a.sal == b.sal && a.seq >= b.seq)
}

/// The activation a dynamic-salience rule fires: the highest
/// (salience, creation number), the last one on a full tie; 0 for an
/// empty queue.
pub fn pick_dynamic(q: &Vec<Act>) -> (r: usize)
    ensures
        q@.len() == 0 ==> r == 0,
        q@.len() > 0 ==> r < q@.len()
            && (forall|j: int| 0 <= j < q@.len() ==> act_ge(q@[r as int], #[trigger] q@[j]))
            && (forall|j: int| r < j < q@.len() ==> !act_ge(#[trigger] q@[j], q@[r as int])),
{
    if q.len() == 0 {
        return 0;
    }
    let mut best: usize = 0;
    let mut i: usize = 1;
    while i < q.len()
        invariant
            1 <= i <= q@.len(),
            best < i,
            forall|j: int| 0 <= j < i ==> act_ge(q@[best as int], #[trigger] q@[j]),
            forall|j: int| best < j < i ==> !act_ge(#[trigger] q@[j], q@[best as int]),
        decreases q@.len() - i,
    {
        if q[i].sal > q[best].sal || (q[i].sal == q[best].sal && q[i].seq >= q[best].seq) {
            best = i;
        }
        i = i + 1;
    }
    best
}

/// The emission rank of an activation: the rank of its fact at tuple
/// position `pos`, `usize::MAX` when unranked (no shadow, no such
/// position, or a fact the shadow did not emit).
pub open spec fn act_rank(a: Act, pos: usize, rank: Option<Map<FactId, usize>>) -> usize {
    match rank {
        Some(m) => if pos < a.t@.len() && m.contains_key(a.t@[pos as int]) {
            m[a.t@[pos as int]]
        } else {
            usize::MAX
        },
        None => usize::MAX,
    }
}

/// The map behind an optional rank map.
pub open spec fn rank_view(rank: Option<&HashMap<FactId, usize>>) -> Option<Map<FactId, usize>> {
    match rank {
        Some(m) => Some(m@),
        None => None,
    }
}

/// The rank of one activation (see `act_rank`).
fn rank_of(a: &Act, pos: usize, rank: Option<&HashMap<FactId, usize>>) -> (r: usize)
    ensures
        r == act_rank(*a, pos, rank_view(rank)),
{
    match rank {
        Some(m) => {
            if pos < a.t.len() {
                match m.get(&a.t[pos]) {
                    Some(v) => *v,
                    None => usize::MAX,
                }
            } else {
                usize::MAX
            }
        },
        None => usize::MAX,
    }
}

/// The activation a gated rule fires: the lowest emission rank of its
/// fact at `pos`, the first queued on a tie (so with nothing ranked the
/// pick is FIFO); 0 for an empty queue.
pub fn pick_ranked(q: &Vec<Act>, pos: usize, rank: Option<&HashMap<FactId, usize>>) -> (r: usize)
    ensures
        q@.len() == 0 ==> r == 0,
        q@.len() > 0 ==> r < q@.len()
            && (forall|j: int| 0 <= j < q@.len() ==> act_rank(q@[r as int], pos, rank_view(rank)) <= act_rank(#[trigger] q@[j], pos, rank_view(rank)))
            && (forall|j: int| 0 <= j < r ==> act_rank(q@[r as int], pos, rank_view(rank)) < act_rank(#[trigger] q@[j], pos, rank_view(rank))),
{
    if q.len() == 0 {
        return 0;
    }
    let mut best: usize = 0;
    let mut best_rank: usize = rank_of(&q[0], pos, rank);
    let mut i: usize = 1;
    while i < q.len()
        invariant
            1 <= i <= q@.len(),
            best < i,
            best_rank == act_rank(q@[best as int], pos, rank_view(rank)),
            forall|j: int| 0 <= j < i ==> best_rank <= act_rank(#[trigger] q@[j], pos, rank_view(rank)),
            forall|j: int| 0 <= j < best ==> best_rank < act_rank(#[trigger] q@[j], pos, rank_view(rank)),
        decreases q@.len() - i,
    {
        let r = rank_of(&q[i], pos, rank);
        if r < best_rank {
            best = i;
            best_rank = r;
        }
        i = i + 1;
    }
    best
}

/// The queue top by salience: the highest salience of a queued
/// activation, when there is one.
pub open spec fn is_top_sal(q: Seq<Act>, s: i32) -> bool {
    (exists|i: int| 0 <= i < q.len() && (#[trigger] q[i]).sal == s) && forall|j: int| 0 <= j < q.len() ==> (#[trigger] q[j]).sal <= s
}

/// The sticky item salience after an activation was added or removed
/// with top `pre_top` before the change: a changed top dequeues the item,
/// and an unqueued item is re-added at the new top (0 when empty).
pub open spec fn item_after_update(queued: bool, item_sal: i32, pre_top: i32, new_top: i32) -> (i32, bool) {
    let still = queued && pre_top == new_top;
    (if still { item_sal } else { new_top }, true)
}

impl RuleNet {
    /// The highest salience among the queued activations.
    pub fn queue_top_sal(&self) -> (r: Option<i32>)
        ensures
            r is None <==> self.queue@.len() == 0,
            r matches Some(s) ==> is_top_sal(self.queue@, s),
    {
        if self.queue.len() == 0 {
            return None;
        }
        let mut top: i32 = self.queue[0].sal;
        let mut i: usize = 1;
        while i < self.queue.len()
            invariant
                1 <= i <= self.queue@.len(),
                exists|k: int| 0 <= k < i && (#[trigger] self.queue@[k]).sal == top,
                forall|j: int| 0 <= j < i ==> (#[trigger] self.queue@[j]).sal <= top,
            decreases self.queue@.len() - i,
        {
            if self.queue[i].sal > top {
                top = self.queue[i].sal;
            }
            i = i + 1;
        }
        Some(top)
    }

    /// A rule item's current agenda salience: the constant of a static
    /// rule (`Some`), the sticky item salience of a dynamic one (`None`).
    pub fn item_salience(&self, static_sal: Option<i32>) -> (r: i32)
        ensures
            r == (match static_sal {
                Some(n) => n,
                None => self.item_sal,
            }),
    {
        match static_sal {
            Some(n) => n,
            None => self.item_sal,
        }
    }

    /// After an activation add or remove with top `pre_top` before it: a
    /// dynamic item whose top changed is dequeued, and an unqueued one is
    /// re-added at the new top (see `item_after_update`); static items
    /// are untouched.
    pub fn update_item_salience(&mut self, dynamic: bool, pre_top: i32)
        ensures
            !dynamic ==> *final(self) == *old(self),
            dynamic ==> ({
                let new_top = if old(self).queue@.len() == 0 { 0i32 } else { choose|s: i32| is_top_sal(old(self).queue@, s) };
                (final(self).item_sal, final(self).queued)
                    == item_after_update(old(self).queued, old(self).item_sal, pre_top, new_top)
            }),
            final(self).queue == old(self).queue,
            final(self).s0 == old(self).s0,
            final(self).term_pending == old(self).term_pending,
            final(self).peer_live == old(self).peer_live,
            final(self).lia == old(self).lia,
            final(self).path == old(self).path,
    {
        if !dynamic {
            return;
        }
        let new_top = match self.queue_top_sal() {
            Some(s) => s,
            None => 0,
        };
        proof {
            if self.queue@.len() > 0 {
                lemma_top_unique(self.queue@, new_top);
            }
        }
        if pre_top != new_top {
            self.queued = false;
        }
        if !self.queued {
            self.item_sal = new_top;
            self.queued = true;
        }
    }

    /// Queue an activation (`sal`, creation number `seq`) and update a
    /// dynamic item's salience against the top before the push.
    pub fn push_act(&mut self, t: Vec<FactId>, sal: i32, seq: u64, dynamic: bool)
        ensures
            final(self).queue@.len() == old(self).queue@.len() + 1,
            forall|j: int| 0 <= j < old(self).queue@.len() ==> #[trigger] final(self).queue@[j] == old(self).queue@[j],
            final(self).queue@.last().t@ == t@,
            final(self).queue@.last().sal == sal,
            final(self).queue@.last().seq == seq,
            !dynamic ==> final(self).item_sal == old(self).item_sal && final(self).queued == old(self).queued,
            dynamic ==> ({
                let pre_top = if old(self).queue@.len() == 0 { 0i32 } else { choose|s: i32| is_top_sal(old(self).queue@, s) };
                let new_top = choose|s: i32| is_top_sal(final(self).queue@, s);
                (final(self).item_sal, final(self).queued)
                    == item_after_update(old(self).queued, old(self).item_sal, pre_top, new_top)
            }),
            final(self).s0 == old(self).s0,
            final(self).term_pending == old(self).term_pending,
            final(self).peer_live == old(self).peer_live,
            final(self).lia == old(self).lia,
            final(self).path == old(self).path,
    {
        let pre = if dynamic {
            match self.queue_top_sal() {
                Some(s) => s,
                None => 0,
            }
        } else {
            0
        };
        proof {
            if dynamic && self.queue@.len() > 0 {
                lemma_top_unique(self.queue@, pre);
            }
        }
        self.queue.push(Act { t, sal, seq });
        self.update_item_salience(dynamic, pre);
    }

    /// After a dynamic rule fired: its item salience follows a changed
    /// queue top (an empty queue leaves it).
    pub fn resort_dynamic_item(&mut self)
        ensures
            old(self).queue@.len() == 0 ==> final(self).item_sal == old(self).item_sal,
            old(self).queue@.len() > 0 ==> is_top_sal(old(self).queue@, final(self).item_sal),
            final(self).queue == old(self).queue,
            final(self).queued == old(self).queued,
            final(self).s0 == old(self).s0,
            final(self).term_pending == old(self).term_pending,
            final(self).peer_live == old(self).peer_live,
            final(self).lia == old(self).lia,
            final(self).path == old(self).path,
    {
        if let Some(top) = self.queue_top_sal() {
            if top != self.item_sal {
                self.item_sal = top;
            }
        }
    }
}

/// The queue top is unique.
proof fn lemma_top_unique(q: Seq<Act>, s: i32)
    requires
        is_top_sal(q, s),
    ensures
        (choose|x: i32| is_top_sal(q, x)) == s,
{
    let c = choose|x: i32| is_top_sal(q, x);
    assert(is_top_sal(q, c));
    let i = choose|i: int| 0 <= i < q.len() && (#[trigger] q[i]).sal == s;
    let k = choose|k: int| 0 <= k < q.len() && (#[trigger] q[k]).sal == c;
    assert(q[i].sal <= c);
    assert(q[k].sal <= s);
}

} // verus!
