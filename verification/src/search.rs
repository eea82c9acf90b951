//! One iteration of the search as a function on search states: a vehicle
//! tries every zone, what is accepted becomes the local checkpoint, and a
//! search that stalls is shaken up.

use vstd::prelude::*;
use crate::validity::lemma_wf_passes_check;
use crate::cost::lemma_cost_bound;
use crate::invariants::{lemma_rehome_keeps, lemma_relocate_keeps};
use crate::ls::SearchView;

verus! {

/// Iterations without an accepted move after which every reservation looks
/// for a vehicle in its own zone.
pub const POLISH_AGE: u64 = 30;

/// Iterations without an accepted move after which costlier assignments are
/// let through.
pub const RELAX_AGE: u64 = 100;

/// By how much an assignment may then cost more than the best one.
pub const RELAXED_MARGIN: i32 = 70;

/// The margin that goes with an age.
pub open spec fn margin_for(age: int) -> int {
    if age > RELAX_AGE {
        RELAXED_MARGIN as int
    } else {
        0
    }
}

impl SearchView {
    /// The local checkpoint carries its true cost.
    pub open spec fn local_priced(self) -> bool {
        self.local_cost == self.local.cost(self.problem)
    }

    /// The best checkpoint carries its true cost.
    pub open spec fn best_priced(self) -> bool {
        self.best_cost == self.best.cost(self.problem)
    }

    /// The current assignment becomes the local checkpoint.
    pub open spec fn commit(self) -> SearchView {
        SearchView {
            local: self.current,
            local_cost: self.current.cost(self.problem) as i32,
            ..self
        }
    }

    /// The local checkpoint becomes the current assignment.
    pub open spec fn restore(self) -> SearchView {
        SearchView { current: self.local, ..self }
    }

    /// The local checkpoint becomes the best one where it is cheaper.
    pub open spec fn record_best(self) -> SearchView {
        if self.local_cost < self.best_cost {
            SearchView { best: self.local, best_cost: self.local_cost, ..self }
        } else {
            self
        }
    }

    /// The local checkpoint becomes the best one where it is cheaper, or
    /// where the best checkpoint does not carry its true cost: such a
    /// checkpoint was never priced, and its cost says nothing.
    pub open spec fn settle_best(self) -> SearchView {
        if self.best_priced() {
            self.record_best()
        } else {
            SearchView { best: self.local, best_cost: self.local_cost, ..self }
        }
    }

    /// Vehicle `v` tries `zone`. The move is accepted, and committed, where
    /// the assignment passes the validity check and costs less than the
    /// best cost plus `margin`; else it is undone. The flag tells whether it
    /// was accepted.
    pub open spec fn try_zone(self, v: int, zone: i32, margin: int) -> (SearchView, bool) {
        let moved = SearchView { current: self.current.relocate(self.problem, v, zone), ..self };
        if moved.current.passes_check(self.problem) && moved.current.cost(self.problem)
            < self.best_cost + margin {
            (moved.commit(), true)
        } else {
            (moved.restore(), false)
        }
    }

    /// Vehicle `v` tries the first `k` zones in order. The flag tells
    /// whether a move was accepted.
    pub open spec fn zone_sweep(self, v: int, margin: int, k: int) -> (SearchView, bool)
        decreases k,
    {
        if k <= 0 {
            (self, false)
        } else {
            let (s, better) = self.zone_sweep(v, margin, k - 1);
            let (t, accepted) = s.try_zone(v, s.problem.zones[k - 1].id, margin);
            (t, better || accepted)
        }
    }

    /// The first `k` reservations in turn look for a vehicle in their own
    /// zone. A move is committed where the assignment then costs less than
    /// the best cost, else it is undone. The flag tells whether a move was
    /// committed.
    pub open spec fn polish(self, k: int) -> (SearchView, bool)
        decreases k,
    {
        if k <= 0 {
            (self, false)
        } else {
            let (s, changed) = self.polish(k - 1);
            let moved = SearchView {
                current: s.current.rehome(s.problem, (k - 1) as i32),
                ..s
            };
            if moved.current.cost(s.problem) < s.best_cost {
                (moved.commit(), true)
            } else {
                (moved.restore(), changed)
            }
        }
    }

    /// What happens at `age` when no zone was accepted: from a certain age
    /// on the search is polished. Where that changed something and the
    /// assignment is valid and cheaper than the local checkpoint was, it is
    /// committed and recorded, and the age starts anew; where it changed
    /// nothing, the local checkpoint is restored.
    pub open spec fn escalate(self, age: int) -> (SearchView, int) {
        if age > POLISH_AGE {
            let (s, changed) = self.polish(self.problem.reservations.len() as int);
            if changed {
                if s.current.passes_check(s.problem) && s.current.cost(s.problem)
                    < self.local_cost {
                    (s.commit().record_best(), 1)
                } else {
                    (s, age)
                }
            } else {
                (s.restore(), age)
            }
        } else {
            (self, age)
        }
    }

    /// One iteration with vehicle `v` at `age`: the search state after it,
    /// and the age that the next iteration starts with.
    ///
    /// The vehicle tries every zone, with the margin that goes with the
    /// age. Where a zone was accepted and the assignment is valid, it is
    /// committed and recorded, and the age is 1. Else the age grows by one
    /// and the search may be polished.
    pub open spec fn step(self, v: int, age: int) -> (SearchView, int) {
        let (s, better) = self.zone_sweep(v, margin_for(age), self.problem.zones.len() as int);
        if better && s.current.passes_check(s.problem) {
            (s.commit().record_best(), 1)
        } else {
            s.escalate(age + 1)
        }
    }

    /// The search, and its age, after one iteration with each of the given
    /// vehicles in order.
    pub open spec fn iterated(self, age: int, draws: Seq<int>) -> (SearchView, int)
        decreases draws.len(),
    {
        if draws.len() == 0 {
            (self, age)
        } else {
            let (s, a) = self.iterated(age, draws.drop_last());
            s.step(draws.last(), a)
        }
    }

    /// A search can start from here: a search can be made from the
    /// problem, and both checkpoints are well formed on the problem in the
    /// order of its ids.
    pub open spec fn startable(self) -> bool {
        &&& self.problem.admissible()
        &&& self.local.wf(self.problem.ordered())
        &&& self.best.wf(self.problem.ordered())
    }

    /// How the search opens: the problem is put in the order of its ids,
    /// the first assignment is committed, the best checkpoint is settled,
    /// the search is polished, and the outcome is recorded.
    pub open spec fn opened(self) -> SearchView {
        let s = SearchView {
            problem: self.problem.ordered(),
            current: crate::construct::constructed(self.problem),
            ..self
        }.commit().settle_best();
        s.polish(s.problem.reservations.len() as int).0.record_best()
    }

    /// How the search closes: the best checkpoint becomes the current
    /// assignment, and the best cost is the cost of that assignment.
    pub open spec fn closed(self) -> SearchView {
        SearchView {
            current: self.best,
            best_cost: self.best.cost(self.problem) as i32,
            ..self
        }
    }

    /// What the search never loses from `self` to `later`: the problem and
    /// well-formedness; where the local checkpoint carried its true cost,
    /// it still does; and where the best checkpoint did so too, it still
    /// does and costs no more.
    pub open spec fn leads_to(self, later: SearchView) -> bool {
        &&& later.problem == self.problem
        &&& later.wf()
        &&& self.local_priced() ==> {
            &&& later.local_priced()
            &&& self.best_priced() ==> later.best_priced() && later.best_cost <= self.best_cost
        }
    }
}

/// Whether every draw names a vehicle of a fleet of the given size.
pub open spec fn drawn_from(draws: Seq<int>, fleet: int) -> bool {
    forall|k: int| 0 <= k < draws.len() ==> 0 <= #[trigger] draws[k] < fleet
}

/// A well-formed assignment costs what fits in an `i32`.
pub proof fn lemma_cost_fits(s: SearchView)
    requires
        s.problem.wf(),
        s.current.wf(s.problem),
    ensures
        i32::MIN < s.current.cost(s.problem) <= i32::MAX,
        s.current.cost(s.problem) as i32 == s.current.cost(s.problem),
        s.current.passes_check(s.problem),
{
    lemma_cost_bound(s.problem, s.current);
    lemma_wf_passes_check(s.problem, s.current);
}

/// Trying a zone loses nothing and leaves the best checkpoint alone.
pub proof fn lemma_try_zone(s: SearchView, v: int, zone: i32, margin: int)
    requires
        s.wf(),
        0 <= v < s.problem.vehicles.len(),
    ensures
        s.leads_to(s.try_zone(v, zone, margin).0),
        s.try_zone(v, zone, margin).0.best == s.best,
        s.try_zone(v, zone, margin).0.best_cost == s.best_cost,
{
    lemma_relocate_keeps(s.problem, s.current, v, zone);
    let moved = SearchView { current: s.current.relocate(s.problem, v, zone), ..s };
    lemma_cost_fits(moved);
}

/// Trying the zones in turn loses nothing and leaves the best checkpoint
/// alone.
pub proof fn lemma_zone_sweep(s: SearchView, v: int, margin: int, k: int)
    requires
        s.wf(),
        0 <= v < s.problem.vehicles.len(),
        0 <= k <= s.problem.zones.len(),
    ensures
        s.leads_to(s.zone_sweep(v, margin, k).0),
        s.zone_sweep(v, margin, k).0.best == s.best,
        s.zone_sweep(v, margin, k).0.best_cost == s.best_cost,
    decreases k,
{
    if k > 0 {
        lemma_zone_sweep(s, v, margin, k - 1);
        let t = s.zone_sweep(v, margin, k - 1).0;
        lemma_try_zone(t, v, t.problem.zones[k - 1].id, margin);
    }
}

/// Polishing loses nothing and leaves the best checkpoint alone.
pub proof fn lemma_polish(s: SearchView, k: int)
    requires
        s.wf(),
        0 <= k <= s.problem.reservations.len(),
    ensures
        s.leads_to(s.polish(k).0),
        s.polish(k).0.best == s.best,
        s.polish(k).0.best_cost == s.best_cost,
    decreases k,
{
    if k > 0 {
        lemma_polish(s, k - 1);
        let t = s.polish(k - 1).0;
        lemma_rehome_keeps(t.problem, t.current, (k - 1) as i32);
        let moved = SearchView { current: t.current.rehome(t.problem, (k - 1) as i32), ..t };
        lemma_cost_fits(moved);
    }
}

/// A commit followed by a record loses nothing; the best checkpoint then
/// costs no more than the assignment that was committed.
pub proof fn lemma_commit_record(s: SearchView)
    requires
        s.wf(),
    ensures
        s.leads_to(s.commit().record_best()),
        s.commit().record_best().local_priced(),
        s.commit().record_best().best_cost <= s.current.cost(s.problem),
        s.best_cost > s.current.cost(s.problem) ==> s.commit().record_best().best_priced(),
{
    lemma_cost_fits(s);
}

/// Recording loses nothing and never raises the best cost.
pub proof fn lemma_record_best(s: SearchView)
    requires
        s.wf(),
    ensures
        s.leads_to(s.record_best()),
        s.record_best().best_cost <= s.best_cost,
{
}

/// Shaking up a stalled search loses nothing, and the age stays or starts
/// anew.
pub proof fn lemma_escalate(s: SearchView, age: int)
    requires
        s.wf(),
    ensures
        s.leads_to(s.escalate(age).0),
        s.escalate(age).1 == 1 || s.escalate(age).1 == age,
{
    if age > POLISH_AGE {
        lemma_polish(s, s.problem.reservations.len() as int);
        let t = s.polish(s.problem.reservations.len() as int).0;
        lemma_commit_record(t);
    }
}

/// An iteration loses nothing, and the next age is 1 or one more than
/// before.
pub proof fn lemma_step(s: SearchView, v: int, age: int)
    requires
        s.wf(),
        0 <= v < s.problem.vehicles.len(),
    ensures
        s.leads_to(s.step(v, age).0),
        s.step(v, age).1 == 1 || s.step(v, age).1 == age + 1,
{
    let margin = margin_for(age);
    lemma_zone_sweep(s, v, margin, s.problem.zones.len() as int);
    let t = s.zone_sweep(v, margin, s.problem.zones.len() as int).0;
    lemma_commit_record(t);
    lemma_escalate(t, age + 1);
}

/// The opened search is well formed, both checkpoints carry their true
/// cost, and the best one costs no more than the first assignment.
pub proof fn lemma_opened(s: SearchView)
    requires
        s.startable(),
    ensures
        s.opened().problem == s.problem.ordered(),
        s.opened().wf(),
        s.opened().local_priced(),
        s.opened().best_priced(),
        s.opened().best_cost <= crate::construct::constructed(s.problem).cost(s.problem.ordered()),
{
    crate::construct::lemma_constructed(s.problem);
    let s0 = SearchView {
        problem: s.problem.ordered(),
        current: crate::construct::constructed(s.problem),
        ..s
    };
    lemma_cost_fits(s0);
    let s1 = s0.commit().settle_best();
    lemma_polish(s1, s1.problem.reservations.len() as int);
    let s2 = s1.polish(s1.problem.reservations.len() as int).0;
    lemma_record_best(s2);
}

/// A well-formed search can start anew.
pub proof fn lemma_wf_startable(s: SearchView)
    requires
        s.wf(),
    ensures
        s.startable(),
{
    crate::model::lemma_indexed_is_ordered(s.problem);
}

} // verus!
