//! The search state and the moves on it.

use vstd::prelude::*;
use crate::data_structs::{Reservation, Vehicle, Zone};
use crate::model::{first_index, interferes, Assignment, Problem};

verus! {

/// The search: the problem, the assignment that the moves work on, and two
/// checkpoints of it with their costs. `local` is the assignment that was
/// accepted last, `best` the cheapest one that was recorded.
pub struct LocalSearch {
    pub reservations: Vec<Reservation>,
    pub zones: Vec<Zone>,
    pub vehicle: Vec<Vehicle>,
    pub veh_to_res: Vec<Vec<i32>>,
    pub veh_to_zon: Vec<i32>,
    pub unassigned: Vec<i32>,
    pub best_cost: i32,
    pub best_veh_to_res: Vec<Vec<i32>>,
    pub best_veh_to_zon: Vec<i32>,
    pub best_unassigned: Vec<i32>,
    pub local_cost: i32,
    pub local_veh_to_res: Vec<Vec<i32>>,
    pub local_veh_to_zon: Vec<i32>,
    pub local_unassigned: Vec<i32>,
}

/// A [`LocalSearch`] as a mathematical value.
pub struct SearchView {
    pub problem: Problem,
    pub current: Assignment,
    pub local: Assignment,
    pub local_cost: i32,
    pub best: Assignment,
    pub best_cost: i32,
}

impl SearchView {
    /// The problem is well formed, and so are the assignment and both
    /// checkpoints.
    pub open spec fn wf(self) -> bool {
        &&& self.problem.wf()
        &&& self.current.wf(self.problem)
        &&& self.local.wf(self.problem)
        &&& self.best.wf(self.problem)
    }
}

/// The lists of the vehicles as sequences.
pub open spec fn loads(lists: Seq<Vec<i32>>) -> Seq<Seq<i32>> {
    Seq::new(lists.len(), |v: int| lists[v]@)
}

/// The problem that the three vectors hold.
pub open spec fn problem_of(
    reservations: Seq<Reservation>,
    zones: Seq<Zone>,
    vehicles: Seq<Vehicle>,
) -> Problem {
    Problem {
        reservations: Seq::new(reservations.len(), |r: int| reservations[r]@),
        zones: Seq::new(zones.len(), |z: int| zones[z]@),
        vehicles: Seq::new(vehicles.len(), |v: int| vehicles[v]@),
    }
}

impl View for LocalSearch {
    type V = SearchView;

    open spec fn view(&self) -> SearchView {
        SearchView {
            problem: self.problem(),
            current: self.current(),
            local: self.local(),
            local_cost: self.local_cost,
            best: self.best(),
            best_cost: self.best_cost,
        }
    }
}

impl LocalSearch {
    /// The problem that the search works on.
    pub open spec fn problem(&self) -> Problem {
        problem_of(self.reservations@, self.zones@, self.vehicle@)
    }

    /// The assignment that the moves work on.
    pub open spec fn current(&self) -> Assignment {
        Assignment {
            zone_of: self.veh_to_zon@,
            served: loads(self.veh_to_res@),
            unassigned: self.unassigned@,
        }
    }

    /// The assignment that was accepted last.
    pub open spec fn local(&self) -> Assignment {
        Assignment {
            zone_of: self.local_veh_to_zon@,
            served: loads(self.local_veh_to_res@),
            unassigned: self.local_unassigned@,
        }
    }

    /// The cheapest assignment on record.
    pub open spec fn best(&self) -> Assignment {
        Assignment {
            zone_of: self.best_veh_to_zon@,
            served: loads(self.best_veh_to_res@),
            unassigned: self.best_unassigned@,
        }
    }

    /// The problem is well formed, and so are the assignment and both
    /// checkpoints.
    pub open spec fn wf(&self) -> bool {
        self@.wf()
    }

    /// Tells whether the two reservations interfere.
    pub fn does_interfere(&self, res1: usize, res2: usize) -> (hit: bool)
        requires
            res1 < self.reservations.len(),
            res2 < self.reservations.len(),
        ensures
            hit == interferes(self.problem().res(res1 as int), self.problem().res(res2 as int)),
    {
        let a = &self.reservations[res1];
        let b = &self.reservations[res2];
        if a.day != b.day {
            return false;
        }
        let start_1: i64 = a.start as i64;
        let end_1: i64 = start_1 + a.restime as i64;
        let start_2: i64 = b.start as i64;
        let end_2: i64 = start_2 + b.restime as i64;
        start_1 <= end_1 && start_2 <= end_2 && start_1 <= end_2 && start_2 <= end_1
    }

    /// Tells whether the reservation interferes with one of the list.
    pub fn does_list_interfere(&self, res_1: usize, res_list: &Vec<i32>) -> (hit: bool)
        requires
            res_1 < self.reservations.len(),
            forall|i: int|
                0 <= i < res_list.len() ==> 0 <= #[trigger] res_list[i] < self.reservations.len(),
        ensures
            hit == self.problem().interferes_with_any(res_1 as int, res_list@),
    {
        let mut i: usize = 0;
        while i < res_list.len()
            invariant
                i <= res_list.len(),
                res_1 < self.reservations.len(),
                forall|k: int|
                    0 <= k < res_list.len() ==> 0 <= #[trigger] res_list[k]
                        < self.reservations.len(),
                forall|k: int|
                    0 <= k < i ==> !interferes(
                        self.problem().res(res_1 as int),
                        self.problem().res(#[trigger] res_list[k] as int),
                    ),
            decreases res_list.len() - i,
        {
            if self.does_interfere(res_1, res_list[i] as usize) {
                return true;
            }
            i += 1;
        }
        false
    }

    /// What the moves need to run: ids that fit in an `i32`, and an
    /// assignment with one entry per vehicle that names reservations only.
    pub open spec fn ready(&self) -> bool {
        &&& self.problem().sized()
        &&& self.current().shaped(self.problem())
    }

    /// Stations the vehicle in the zone.
    pub fn assign_zon_to_veh(&mut self, veh_id: i32, zon_id: i32)
        requires
            0 <= veh_id < old(self).veh_to_zon.len(),
        ensures
            final(self)@ == (SearchView {
                current: old(self).current().station(veh_id as int, zon_id),
                ..old(self)@
            }),
    {
        self.veh_to_zon[veh_id as usize] = zon_id;
    }

    /// Takes the reservation from the unassigned and gives it to the vehicle.
    pub fn assign_veh_to_res(&mut self, veh_id: i32, res_id: i32)
        requires
            0 <= veh_id < old(self).veh_to_res.len(),
            old(self).unassigned@.contains(res_id),
        ensures
            final(self)@ == (SearchView {
                current: old(self).current().place(res_id, veh_id as int),
                ..old(self)@
            }),
    {
        self.veh_to_res[veh_id as usize].push(res_id);
        match position(&self.unassigned, res_id) {
            Some(index) => {
                self.unassigned.remove(index);
            },
            None => {},
        }
        assert(final(self).current().served =~= old(self).current().place(
            res_id,
            veh_id as int,
        ).served);
    }

    /// Tells whether the reservation waits in the zone of the vehicle and the
    /// vehicle may serve it.
    pub fn vehicle_possible_own(&self, veh_id: usize, res_id: usize) -> (ok: bool)
        requires
            self.ready(),
            veh_id < self.vehicle.len(),
            res_id < self.reservations.len(),
        ensures
            ok == self.current().fits_own(self.problem(), veh_id as int, res_id as i32),
    {
        self.reservations[res_id].zone == self.veh_to_zon[veh_id] && position(
            &self.unassigned,
            res_id as i32,
        ).is_some() && position(&self.reservations[res_id].possible_vehicles, veh_id as i32).is_some()
    }

    /// Tells whether the reservation waits in a zone next to that of the
    /// vehicle and the vehicle may serve it.
    pub fn vehicle_possible_neighbour(&self, veh_id: usize, res_id: usize) -> (ok: bool)
        requires
            self.ready(),
            veh_id < self.vehicle.len(),
            res_id < self.reservations.len(),
        ensures
            ok == self.current().fits_neighbour(self.problem(), veh_id as int, res_id as i32),
    {
        let zone = self.veh_to_zon[veh_id];
        if zone < 0 || zone as usize >= self.zones.len() {
            return false;
        }
        position(&self.zones[zone as usize].neighbours, self.reservations[res_id].zone).is_some()
            && position(&self.unassigned, res_id as i32).is_some() && position(
            &self.reservations[res_id].possible_vehicles,
            veh_id as i32,
        ).is_some()
    }

    /// Gives the reservation to the vehicle if it waits for one and the
    /// vehicle has room for it in time; tells whether it did.
    pub fn set_vehicle_if_not_interfere(&mut self, res_1: usize, veh: usize) -> (placed: bool)
        requires
            old(self).ready(),
            res_1 < old(self).reservations.len(),
            veh < old(self).vehicle.len(),
        ensures
            placed == old(self).current().has_room(old(self).problem(), res_1 as i32, veh as int),
            final(self)@ == (SearchView {
                current: old(self).current().try_place(
                    old(self).problem(),
                    res_1 as i32,
                    veh as int,
                ),
                ..old(self)@
            }),
    {
        assert(self.current().served[veh as int] == self.veh_to_res[veh as int]@);
        assert forall|i: int| 0 <= i < self.veh_to_res[veh as int].len() implies 0
            <= #[trigger] self.veh_to_res[veh as int][i] < self.reservations.len() by {
            assert(self.current().served[veh as int][i] == self.veh_to_res[veh as int][i]);
        }
        if !self.does_list_interfere(res_1, &self.veh_to_res[veh]) {
            if position(&self.unassigned, res_1 as i32).is_some() {
                self.assign_veh_to_res(veh as i32, res_1 as i32);
                return true;
            }
        }
        false
    }
}

/// Position of the first `x` in `v`.
pub fn position(v: &Vec<i32>, x: i32) -> (at: Option<usize>)
    ensures
        match at {
            Some(i) => i < v.len() && v[i as int] == x && i == first_index(v@, x),
            None => !v@.contains(x),
        },
{
    let mut i: usize = 0;
    while i < v.len()
        invariant
            i <= v.len(),
            forall|k: int| 0 <= k < i ==> v[k] != x,
        decreases v.len() - i,
    {
        if v[i] == x {
            proof {
                lemma_first_index(v@, x, i as int);
            }
            return Some(i);
        }
        i += 1;
    }
    None
}

/// The first position is the one before which `x` does not occur.
pub proof fn lemma_first_index(s: Seq<i32>, x: i32, i: int)
    requires
        0 <= i < s.len(),
        s[i] == x,
        forall|k: int| 0 <= k < i ==> s[k] != x,
    ensures
        first_index(s, x) == i,
    decreases s.len(),
{
    if i > 0 {
        let t = s.drop_first();
        assert forall|k: int| 0 <= k < i - 1 implies t[k] != x by {
            assert(t[k] == s[k + 1]);
        }
        lemma_first_index(t, x, i - 1);
    }
}

} // verus!
