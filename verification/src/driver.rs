//! The search itself: iterations until the time is up.

use vstd::prelude::*;
use rand::rngs::StdRng;
use rand::Rng;
use rand::SeedableRng;
use std::time::Duration;
use std::time::Instant;
use crate::construct::constructed;
use crate::ls::LocalSearch;
use crate::operators::{copy_ids, copy_loads};
use crate::search::{
    drawn_from, lemma_cost_fits, lemma_escalate, lemma_opened, lemma_polish, lemma_step,
    lemma_wf_startable, lemma_zone_sweep, margin_for, POLISH_AGE, RELAXED_MARGIN, RELAX_AGE,
};

verus! {

/// `StdRng` of the rand crate, carried through as it is.
#[verifier::external_type_specification]
#[verifier::external_body]
pub struct ExStdRng(StdRng);

/// `Instant` of std, carried through as it is.
#[verifier::external_type_specification]
#[verifier::external_body]
pub struct ExInstant(Instant);

/// `StdRng::seed_from_u64` of the rand crate: a generator whose draws are
/// fixed by the seed. Nothing is claimed of the generator.
#[verifier::external_body]
fn seeded_generator(seed: u64) -> StdRng {
    StdRng::seed_from_u64(seed)
}

/// `Rng::gen_range` of the rand crate on the range from 0 up to, not
/// including, `bound`. It panics on an empty range, so `bound` is positive;
/// the draw lies in the range.
#[verifier::external_body]
fn draw_below(generator: &mut StdRng, bound: usize) -> (draw: usize)
    requires
        bound > 0,
    ensures
        draw < bound,
{
    generator.gen_range(0..bound)
}

/// `Instant::now` of std: the present moment. Nothing is claimed of it.
#[verifier::external_body]
fn start_clock() -> Instant {
    Instant::now()
}

/// `Instant::elapsed` of std: the time that has passed since the moment
/// was taken. Nothing is claimed of it.
#[verifier::external_body]
fn elapsed_since(start: &Instant) -> Duration {
    start.elapsed()
}

/// `Duration::as_secs` of std: the whole seconds of the duration. Nothing
/// is claimed of them.
#[verifier::external_body]
fn whole_seconds(duration: &Duration) -> u64 {
    duration.as_secs()
}

/// Tells whether `budget` seconds have not yet passed since the moment was
/// taken. What the clock says is not known beforehand; whatever it says,
/// of an empty budget no time is left.
fn time_left(start: &Instant, budget: u64) -> (left: bool)
    ensures
        budget == 0 ==> !left,
{
    let passed = elapsed_since(start);
    whole_seconds(&passed) < budget
}

/// The margin that goes with an age.
pub fn margin(age: u64) -> (m: i32)
    ensures
        m == margin_for(age as int),
{
    if age > RELAX_AGE {
        RELAXED_MARGIN
    } else {
        0
    }
}

impl LocalSearch {
    /// Makes the local checkpoint the best one where it is cheaper.
    pub fn record_best(&mut self)
        ensures
            final(self)@ == old(self)@.record_best(),
    {
        if self.local_cost < self.best_cost {
            self.best_cost = self.local_cost;
            self.best_unassigned = copy_ids(&self.local_unassigned);
            self.best_veh_to_res = copy_loads(&self.local_veh_to_res);
            self.best_veh_to_zon = copy_ids(&self.local_veh_to_zon);
        }
    }

    /// Makes the local checkpoint the best one where it is cheaper, or
    /// where the best checkpoint does not carry its true cost.
    pub fn settle_best(&mut self)
        requires
            old(self).problem().wf(),
            old(self).best().shaped(old(self).problem()),
            old(self).best().partitioned(old(self).problem()),
        ensures
            final(self)@ == old(self)@.settle_best(),
    {
        let true_cost =
            self.price(&self.best_veh_to_res, &self.best_veh_to_zon, &self.best_unassigned);
        if true_cost == self.best_cost {
            self.record_best();
        } else {
            self.best_cost = self.local_cost;
            self.best_unassigned = copy_ids(&self.local_unassigned);
            self.best_veh_to_res = copy_loads(&self.local_veh_to_res);
            self.best_veh_to_zon = copy_ids(&self.local_veh_to_zon);
        }
    }

    /// Lets every reservation in turn look for a vehicle in its own zone,
    /// and keeps each move after which the assignment costs less than the
    /// best cost. Tells whether a move was kept.
    pub fn optimise(&mut self) -> (changed: bool)
        requires
            old(self).wf(),
        ensures
            (final(self)@, changed) == old(self)@.polish(old(self).reservations.len() as int),
            old(self)@.leads_to(final(self)@),
            final(self)@.best == old(self)@.best,
            final(self).best_cost == old(self).best_cost,
    {
        let ghost before = self@;
        let n = self.reservations.len();
        let mut changed = false;
        let mut i: usize = 0;
        while i < n
            invariant
                i <= n == before.problem.reservations.len(),
                before.wf(),
                (self@, changed) == before.polish(i as int),
                before.leads_to(self@),
            decreases n - i,
        {
            proof {
                lemma_polish(before, i + 1);
                crate::invariants::lemma_rehome_keeps(self@.problem, self@.current, i as i32);
            }
            self.small_operator(i as i32);
            proof {
                lemma_cost_fits(self@);
            }
            let cost = self.calculate_full_cost();
            if cost < self.best_cost {
                self.commit();
                changed = true;
            } else {
                self.restore();
            }
            i += 1;
        }
        proof {
            lemma_polish(before, n as int);
        }
        changed
    }

    /// One iteration of the search with the given vehicle, at the given
    /// age; returns the age for the next iteration.
    pub fn step(&mut self, vehicle_id: usize, age: u64) -> (next_age: u64)
        requires
            old(self).wf(),
            vehicle_id < old(self).vehicle.len(),
            age < u64::MAX,
        ensures
            (final(self)@, next_age as int) == old(self)@.step(vehicle_id as int, age as int),
            old(self)@.leads_to(final(self)@),
            next_age == 1 || next_age == age + 1,
    {
        let ghost before = self@;
        let threshold = margin(age);
        let mut better = false;
        let zones = self.zones.len();
        let mut zone_id: usize = 0;
        while zone_id < zones
            invariant
                zone_id <= zones == before.problem.zones.len(),
                before.wf(),
                vehicle_id < before.problem.vehicles.len(),
                threshold == margin_for(age as int),
                (self@, better) == before.zone_sweep(
                    vehicle_id as int,
                    threshold as int,
                    zone_id as int,
                ),
                before.leads_to(self@),
            decreases zones - zone_id,
        {
            let zone = self.zones[zone_id].id;
            proof {
                lemma_zone_sweep(before, vehicle_id as int, threshold as int, zone_id + 1);
                crate::invariants::lemma_relocate_keeps(
                    self@.problem,
                    self@.current,
                    vehicle_id as int,
                    zone,
                );
            }
            self.car_to_zone(vehicle_id as i32, zone);
            let cost = self.calculate_full_cost();
            if self.check_all() && (cost as i64) < self.best_cost as i64 + threshold as i64 {
                self.commit();
                better = true;
            } else {
                self.restore();
            }
            zone_id += 1;
        }
        proof {
            lemma_step(before, vehicle_id as int, age as int);
            lemma_cost_fits(self@);
            lemma_escalate(self@, age + 1);
        }
        if better && self.check_all() {
            self.commit();
            self.record_best();
            return 1;
        }
        let age = age + 1;
        if age > POLISH_AGE {
            let local_before = self.local_cost;
            if self.optimise() {
                proof {
                    lemma_cost_fits(self@);
                }
                let cost = self.calculate_full_cost();
                if self.check_all() && cost < local_before {
                    self.commit();
                    self.record_best();
                    return 1;
                }
            } else {
                self.restore();
            }
        }
        age
    }

    /// Makes the best checkpoint the current assignment and prices it.
    pub fn close(&mut self)
        requires
            old(self).problem().wf(),
            old(self).best().wf(old(self).problem()),
        ensures
            final(self)@ == old(self)@.closed(),
            final(self)@.best_priced(),
    {
        self.veh_to_res = copy_loads(&self.best_veh_to_res);
        self.veh_to_zon = copy_ids(&self.best_veh_to_zon);
        self.unassigned = copy_ids(&self.best_unassigned);
        proof {
            lemma_cost_fits(self@);
        }
        self.best_cost = self.calculate_full_cost();
    }

    /// Searches for `time` seconds and leaves the best assignment that was
    /// recorded as the current one, with its cost as the best cost.
    ///
    /// The reservations may stand in any order; the search puts them in
    /// the order of their ids. It opens with the first assignment, which is
    /// committed, recorded whatever it costs where the best checkpoint was
    /// never priced, and polished. Then, while time is left, a vehicle is drawn
    /// with a generator made from `seed`, and one iteration is made with
    /// it. Which vehicles are drawn and how many iterations fit into the
    /// time is not known beforehand; whatever they are, the result is a
    /// well-formed assignment with its true cost, and it costs no more
    /// than the first assignment. No iteration is made
    /// without a vehicle or without time, and the search ends at the latest
    /// when the count of its iterations would no longer fit in a `u64`.
    pub fn run(&mut self, time: i32, seed: i32)
        requires
            old(self)@.startable(),
        ensures
            final(self)@.problem == old(self)@.problem.ordered(),
            final(self).wf(),
            final(self)@.startable(),
            final(self)@.current == final(self)@.best,
            final(self)@.best_priced(),
            final(self).best_cost <= constructed(old(self).problem()).cost(
                old(self).problem().ordered(),
            ),
            time <= 0 || old(self).vehicle.len() == 0 ==> final(self)@ == old(self)@.opened().closed(),
            exists|draws: Seq<int>|
                drawn_from(draws, old(self).vehicle.len() as int) && final(self)@ == (
                #[trigger] old(self)@.opened().iterated(1, draws)).0.closed(),
    {
        let ghost before = self@;
        let ghost first_cost = constructed(before.problem).cost(before.problem.ordered());
        proof {
            lemma_opened(before);
        }
        self.initialise();
        self.commit();
        self.settle_best();
        proof {
            lemma_polish(self@, self@.problem.reservations.len() as int);
        }
        self.optimise();
        self.record_best();
        assert(self@ == before.opened());
        let ghost start = self@;
        let ghost mut draws: Seq<int> = Seq::empty();
        let fleet = self.vehicle.len();
        let budget: u64 = if time > 0 { time as u64 } else { 0 };
        if fleet > 0 {
            let mut generator = seeded_generator((seed as i64 + 0x8000_0000) as u64);
            let clock = start_clock();
            let mut age: u64 = 1;
            let mut rounds: u64 = 0;
            while rounds < u64::MAX - 1 && time_left(&clock, budget)
                invariant
                    budget == 0 ==> draws.len() == 0,
                    0 < fleet == self.vehicle.len(),
                    1 <= age <= rounds + 1,
                    rounds <= u64::MAX - 1,
                    self@.problem == before.problem.ordered(),
                    self.wf(),
                    self@.local_priced(),
                    self@.best_priced(),
                    self.best_cost <= first_cost,
                    drawn_from(draws, fleet as int),
                    (self@, age as int) == start.iterated(1, draws),
                decreases u64::MAX - rounds,
            {
                rounds += 1;
                let vehicle_id = draw_below(&mut generator, fleet);
                age = self.step(vehicle_id, age);
                proof {
                    let ghost longer = draws.push(vehicle_id as int);
                    assert(longer.drop_last() =~= draws);
                    draws = longer;
                }
            }
        }
        assert(self@ == start.iterated(1, draws).0);
        self.close();
        proof {
            lemma_cost_fits(self@);
            lemma_wf_startable(self@);
        }
    }
}

} // verus!
