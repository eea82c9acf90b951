//! The first assignment: the scarcest reservations claim a vehicle each,
//! then every vehicle takes what fits from its zone, then from the
//! neighbouring zones.

use vstd::prelude::*;
use crate::validity::{all_ids_below, empty_loads, lemma_empty_wf, no_zones};
use crate::invariants::{
    keeps, lemma_place_eligible, lemma_place_wf, lemma_sweep_neighbour_keeps, lemma_sweep_own_keeps,
};
use crate::data_structs::Reservation;
use crate::ls::{position, problem_of, LocalSearch, SearchView};
use crate::model::{by_id, id_position, lemma_ordered, Assignment, Problem};
use crate::operators::copy_ids;
use crate::moves::names_reservations;

verus! {

/// How many vehicles may serve `r`: the fewer, the scarcer.
pub open spec fn choices(p: Problem, r: i32) -> nat {
    p.res(r as int).eligible.len()
}

/// Where `r` enters `order`: before the first entry from `from` on that has
/// more choices than `r`, at the end where there is none.
pub open spec fn entry_point(p: Problem, order: Seq<i32>, r: i32, from: int) -> int
    decreases order.len() - from,
{
    if from >= order.len() {
        order.len() as int
    } else if choices(p, order[from]) > choices(p, r) {
        from
    } else {
        entry_point(p, order, r, from + 1)
    }
}

/// The first `k` reservations, those with fewer choices first, and among
/// those with equally many the one with the smaller id first.
pub open spec fn scarcest_first(p: Problem, k: int) -> Seq<i32>
    decreases k,
{
    if k <= 0 {
        Seq::empty()
    } else {
        let order = scarcest_first(p, k - 1);
        order.insert(entry_point(p, order, (k - 1) as i32, 0), (k - 1) as i32)
    }
}

/// The first vehicle of `eligible`, from `from` on, that is not in
/// `claimed`.
pub open spec fn first_free(eligible: Seq<i32>, claimed: Seq<i32>, from: int) -> Option<i32>
    decreases eligible.len() - from,
{
    if from >= eligible.len() {
        None
    } else if !claimed.contains(eligible[from]) {
        Some(eligible[from])
    } else {
        first_free(eligible, claimed, from + 1)
    }
}

/// The ids below `n`, in order.
pub open spec fn every_id(n: nat) -> Seq<i32> {
    Seq::new(n, |r: int| r as i32)
}

/// The assignment, and the vehicles claimed in it, after the first `k`
/// reservations of `order` had their turn: each claims the first vehicle
/// that may serve it and that nobody claimed before, stations it in its own
/// zone, and is served by it.
pub open spec fn seeded(p: Problem, order: Seq<i32>, k: int) -> (Assignment, Seq<i32>)
    decreases k,
{
    if k <= 0 {
        (Assignment::empty(p.vehicles.len(), p.reservations.len()), Seq::empty())
    } else {
        let (a, claimed) = seeded(p, order, k - 1);
        let r = order[k - 1];
        match first_free(p.res(r as int).eligible, claimed, 0) {
            Some(v) => (
                a.station(v as int, p.res(r as int).zone).place(r, v as int),
                claimed.push(v),
            ),
            None => (a, claimed),
        }
    }
}

impl Assignment {
    /// Each of the first `k` vehicles in turn takes, from all reservations
    /// in the order of their ids, what waits in its zone and fits.
    pub open spec fn fleet_sweep_own(self, p: Problem, k: int) -> Assignment
        decreases k,
    {
        if k <= 0 {
            self
        } else {
            let ids = every_id(p.reservations.len());
            self.fleet_sweep_own(p, k - 1).sweep_own(p, k - 1, ids, ids.len() as int)
        }
    }

    /// Each of the first `k` vehicles in turn takes, from all reservations
    /// in the order of their ids, what waits in a neighbouring zone and
    /// fits.
    pub open spec fn fleet_sweep_neighbour(self, p: Problem, k: int) -> Assignment
        decreases k,
    {
        if k <= 0 {
            self
        } else {
            let ids = every_id(p.reservations.len());
            self.fleet_sweep_neighbour(p, k - 1).sweep_neighbour(p, k - 1, ids, ids.len() as int)
        }
    }
}

/// The ids of the reservations in the order in which they claim their
/// vehicles: the scarcest first, and among equally scarce ones the one
/// that stands first in the problem.
pub open spec fn claim_order(p: Problem) -> Seq<i32> {
    Seq::new(
        p.reservations.len(),
        |k: int| p.reservations[scarcest_first(p, p.reservations.len() as int)[k] as int].id,
    )
}

/// The assignment that the search starts from, on the problem in the order
/// of its ids. It depends on the problem alone.
pub open spec fn constructed(p: Problem) -> Assignment {
    let n = p.reservations.len() as int;
    let fleet = p.vehicles.len() as int;
    let q = p.ordered();
    seeded(q, claim_order(p), n).0.fleet_sweep_own(q, fleet).fleet_sweep_neighbour(q, fleet)
}

/// `scarcest_first` names each of the first `k` reservations once.
pub proof fn lemma_scarcest_first_ids(p: Problem, k: int)
    requires
        0 <= k <= i32::MAX,
    ensures
        scarcest_first(p, k).len() == k,
        forall|i: int| 0 <= i < k ==> 0 <= #[trigger] scarcest_first(p, k)[i] < k,
        forall|i: int, j: int|
            0 <= i < j < k ==> #[trigger] scarcest_first(p, k)[i] != #[trigger] scarcest_first(
                p,
                k,
            )[j],
    decreases k,
{
    if k > 0 {
        lemma_scarcest_first_ids(p, k - 1);
        let o = scarcest_first(p, k - 1);
        let at = entry_point(p, o, (k - 1) as i32, 0);
        lemma_entry_point(p, o, (k - 1) as i32, 0);
        let s = scarcest_first(p, k);
        assert forall|i: int| 0 <= i < k implies #[trigger] s[i] == (if i < at {
            o[i]
        } else if i == at {
            (k - 1) as i32
        } else {
            o[i - 1]
        }) by {}
    }
}

/// The entry point lies in the order, behind `from`.
pub proof fn lemma_entry_point(p: Problem, order: Seq<i32>, r: i32, from: int)
    requires
        0 <= from <= order.len(),
    ensures
        from <= entry_point(p, order, r, from) <= order.len(),
    decreases order.len() - from,
{
    if from < order.len() && choices(p, order[from]) <= choices(p, r) {
        lemma_entry_point(p, order, r, from + 1);
    }
}

/// A vehicle that `first_free` finds is one of `eligible` and not claimed.
pub proof fn lemma_first_free(eligible: Seq<i32>, claimed: Seq<i32>, from: int)
    requires
        0 <= from,
    ensures
        match first_free(eligible, claimed, from) {
            Some(v) => eligible.contains(v) && !claimed.contains(v),
            None => true,
        },
    decreases eligible.len() - from,
{
    if from < eligible.len() && claimed.contains(eligible[from]) {
        lemma_first_free(eligible, claimed, from + 1);
    }
}

/// What holds while the scarcest reservations claim their vehicles: the
/// assignment is well formed, a vehicle that nobody claimed serves nothing,
/// and a reservation whose turn is still to come waits.
pub open spec fn seeding_inv(p: Problem, order: Seq<i32>, k: int) -> bool {
    let (a, claimed) = seeded(p, order, k);
    &&& a.wf(p)
    &&& forall|v: int|
        0 <= v < a.served.len() && !claimed.contains(v as i32) ==> (#[trigger] a.served[v]).len()
            == 0
    &&& forall|j: int| k <= j < order.len() ==> a.unassigned.contains(#[trigger] order[j])
}

/// The claiming of vehicles keeps what `seeding_inv` says, turn by turn.
pub proof fn lemma_seeded(p: Problem, order: Seq<i32>, k: int)
    requires
        p.indexed(),
        order.len() == p.reservations.len(),
        names_reservations(p, order),
        forall|i: int, j: int| 0 <= i < j < order.len() ==> #[trigger] order[i] != #[trigger] order[j],
        0 <= k <= order.len(),
    ensures
        seeding_inv(p, order, k),
    decreases k,
{
    if k == 0 {
        lemma_empty_wf(p);
        let a = Assignment::empty(p.vehicles.len(), p.reservations.len());
        assert forall|j: int| 0 <= j < order.len() implies a.unassigned.contains(
            #[trigger] order[j],
        ) by {
            assert(a.unassigned[order[j] as int] == order[j]);
        }
    } else {
        lemma_seeded(p, order, k - 1);
        let (a, claimed) = seeded(p, order, k - 1);
        let r = order[k - 1];
        let eligible = p.res(r as int).eligible;
        lemma_first_free(eligible, claimed, 0);
        match first_free(eligible, claimed, 0) {
            Some(v) => {
                let i = choose|i: int| 0 <= i < eligible.len() && eligible[i] == v;
                assert(0 <= p.reservations[r as int].eligible[i] < p.vehicles.len());
                let a1 = a.station(v as int, p.res(r as int).zone);
                assert(a1.wf(p));
                assert(a1.eligibility_kept(p));
                assert(a1.served[v as int].len() == 0);
                assert(a1.unassigned.contains(order[k - 1]));
                assert(a1.has_room(p, r, v as int));
                lemma_place_wf(p, a1, r, v as int);
                lemma_place_eligible(p, a1, r, v as int);
                let b = a1.place(r, v as int);
                let c = claimed.push(v);
                assert(c[claimed.len() as int] == v);
                assert forall|w: int|
                    0 <= w < b.served.len() && !c.contains(w as i32) implies (
                #[trigger] b.served[w]).len() == 0 by {
                    if claimed.contains(w as i32) {
                        let x = choose|x: int| 0 <= x < claimed.len() && claimed[x] == w as i32;
                        assert(c[x] == w as i32);
                    }
                    assert(w != v);
                    assert(b.served[w] == a.served[w]);
                }
                crate::invariants::lemma_first_index_found(a1.unassigned, r);
                let at = crate::model::first_index(a1.unassigned, r);
                assert forall|j: int| k <= j < order.len() implies b.unassigned.contains(
                    #[trigger] order[j],
                ) by {
                    assert(a.unassigned.contains(order[j]));
                    let u = choose|u: int| 0 <= u < a.unassigned.len() && a.unassigned[u] == order[j];
                    assert(order[k - 1] != order[j]);
                    let u1 = if u < at { u } else { u - 1 };
                    assert(b.unassigned[u1] == order[j]);
                }
            },
            None => {},
        }
    }
}

/// The sweeps of the whole fleet keep everything.
pub proof fn lemma_fleet_sweep_own_keeps(p: Problem, a: Assignment, k: int)
    requires
        p.reservations.len() <= i32::MAX,
        a.shaped(p),
        0 <= k <= a.served.len(),
    ensures
        keeps(p, a, a.fleet_sweep_own(p, k)),
    decreases k,
{
    if k > 0 {
        lemma_fleet_sweep_own_keeps(p, a, k - 1);
        let ids = every_id(p.reservations.len());
        lemma_sweep_own_keeps(p, a.fleet_sweep_own(p, k - 1), k - 1, ids, ids.len() as int);
    }
}

/// The sweeps of the whole fleet over neighbouring zones keep everything.
pub proof fn lemma_fleet_sweep_neighbour_keeps(p: Problem, a: Assignment, k: int)
    requires
        p.reservations.len() <= i32::MAX,
        a.shaped(p),
        0 <= k <= a.served.len(),
    ensures
        keeps(p, a, a.fleet_sweep_neighbour(p, k)),
    decreases k,
{
    if k > 0 {
        lemma_fleet_sweep_neighbour_keeps(p, a, k - 1);
        let ids = every_id(p.reservations.len());
        lemma_sweep_neighbour_keeps(
            p,
            a.fleet_sweep_neighbour(p, k - 1),
            k - 1,
            ids,
            ids.len() as int,
        );
    }
}

/// The claim order names every reservation once.
pub proof fn lemma_claim_order(p: Problem)
    requires
        p.orderable(),
    ensures
        claim_order(p).len() == p.reservations.len(),
        names_reservations(p.ordered(), claim_order(p)),
        forall|i: int, j: int|
            0 <= i < j < claim_order(p).len() ==> #[trigger] claim_order(p)[i]
                != #[trigger] claim_order(p)[j],
{
    let n = p.reservations.len() as int;
    let positions = scarcest_first(p, n);
    let order = claim_order(p);
    lemma_scarcest_first_ids(p, n);
    assert forall|i: int| 0 <= i < order.len() implies 0 <= #[trigger] order[i]
        < p.ordered().reservations.len() by {
        assert(0 <= positions[i] < n);
        assert(0 <= p.reservations[positions[i] as int].id < n);
    }
    assert forall|i: int, j: int| 0 <= i < j < order.len() implies #[trigger] order[i]
        != #[trigger] order[j] by {
        let a = positions[i] as int;
        let b = positions[j] as int;
        assert(positions[i] != positions[j]);
        assert(0 <= a < n && 0 <= b < n);
        if a < b {
            assert(p.reservations[a].id != p.reservations[b].id);
        } else {
            assert(p.reservations[b].id != p.reservations[a].id);
        }
    }
}

/// The first assignment is well formed on the problem in the order of its
/// ids.
pub proof fn lemma_constructed(p: Problem)
    requires
        p.orderable(),
    ensures
        constructed(p).wf(p.ordered()),
{
    let n = p.reservations.len() as int;
    let fleet = p.vehicles.len() as int;
    let q = p.ordered();
    lemma_ordered(p);
    lemma_claim_order(p);
    lemma_seeded(q, claim_order(p), n);
    let a1 = seeded(q, claim_order(p), n).0;
    lemma_fleet_sweep_own_keeps(q, a1, fleet);
    lemma_fleet_sweep_neighbour_keeps(q, a1.fleet_sweep_own(q, fleet), fleet);
}

/// A copy of the reservation.
pub fn copy_reservation(r: &Reservation) -> (copy: Reservation)
    ensures
        copy@ == r@,
{
    Reservation {
        id: r.id,
        zone: r.zone,
        day: r.day,
        start: r.start,
        restime: r.restime,
        possible_vehicles: copy_ids(&r.possible_vehicles),
        p1: r.p1,
        p2: r.p2,
        vehicle: r.vehicle,
    }
}

impl LocalSearch {
    /// The reservations, the scarcest first.
    pub fn scarcest_first(&self) -> (order: Vec<i32>)
        requires
            self.reservations.len() <= i32::MAX,
        ensures
            order@ == scarcest_first(self.problem(), self.reservations.len() as int),
    {
        let ghost p = self.problem();
        let mut order: Vec<i32> = Vec::new();
        let mut r: usize = 0;
        while r < self.reservations.len()
            invariant
                r <= self.reservations.len() <= i32::MAX,
                p == self.problem(),
                order@ == scarcest_first(p, r as int),
            decreases self.reservations.len() - r,
        {
            proof {
                lemma_scarcest_first_ids(p, r as int);
            }
            let key = self.reservations[r].possible_vehicles.len();
            let mut at: usize = 0;
            while at < order.len() && self.reservations[order[at] as usize].possible_vehicles.len()
                <= key
                invariant
                    at <= order.len(),
                    r < self.reservations.len() <= i32::MAX,
                    p == self.problem(),
                    key == choices(p, r as i32),
                    forall|i: int| 0 <= i < order.len() ==> 0 <= #[trigger] order[i] < r,
                    entry_point(p, order@, r as i32, 0) == entry_point(p, order@, r as i32, at as int),
                decreases order.len() - at,
            {
                at += 1;
            }
            order.insert(at, r as i32);
            r += 1;
        }
        order
    }

    /// The ids of the reservations in the order in which they claim their
    /// vehicles.
    pub fn claim_order(&self) -> (order: Vec<i32>)
        requires
            self.reservations.len() <= i32::MAX,
        ensures
            order@ == claim_order(self.problem()),
    {
        let ghost p = self.problem();
        let n = self.reservations.len();
        let positions = self.scarcest_first();
        proof {
            lemma_scarcest_first_ids(p, n as int);
        }
        let mut order: Vec<i32> = Vec::new();
        let mut k: usize = 0;
        while k < n
            invariant
                k <= n == self.reservations.len() == positions.len(),
                p == self.problem(),
                positions@ == scarcest_first(p, n as int),
                forall|i: int| 0 <= i < n ==> 0 <= #[trigger] positions[i] < n,
                order.len() == k,
                forall|i: int| 0 <= i < k ==> #[trigger] order[i] == claim_order(p)[i],
            decreases n - k,
        {
            order.push(self.reservations[positions[k] as usize].id);
            k += 1;
        }
        assert(order@ =~= claim_order(p));
        order
    }

    /// The reservations in the order of their ids.
    pub fn in_id_order(&self) -> (sorted: Vec<Reservation>)
        requires
            self.problem().orderable(),
        ensures
            problem_of(sorted@, self.zones@, self.vehicle@) == self.problem().ordered(),
    {
        let ghost p = self.problem();
        let ghost rs = p.reservations;
        let n = self.reservations.len();
        let mut sorted: Vec<Reservation> = Vec::new();
        let mut id: usize = 0;
        while id < n
            invariant
                id <= n == self.reservations.len(),
                p == self.problem(),
                rs == p.reservations,
                p.orderable(),
                sorted.len() == id,
                forall|i: int| 0 <= i < id ==> (#[trigger] sorted[i])@ == by_id(rs)[i],
            decreases n - id,
        {
            let mut at: usize = 0;
            while at < n && self.reservations[at].id != id as i32
                invariant
                    at <= n == self.reservations.len(),
                    id < n <= i32::MAX,
                    p == self.problem(),
                    rs == p.reservations,
                    id_position(rs, id as int, 0) == id_position(rs, id as int, at as int),
                decreases n - at,
            {
                assert(rs[at as int].id == self.reservations[at as int].id);
                at += 1;
            }
            assert(id_position(rs, id as int, 0) < rs.len());
            assert(at < n ==> rs[at as int].id == self.reservations[at as int].id);
            sorted.push(copy_reservation(&self.reservations[at]));
            id += 1;
        }
        assert(problem_of(sorted@, self.zones@, self.vehicle@).reservations =~= by_id(rs));
        sorted
    }

    /// Builds the first assignment from nothing.
    ///
    /// The order in which the reservations claim their vehicles is fixed,
    /// the scarcest first. Then the reservations are put in the order of
    /// their ids, and the current assignment is emptied. The reservations
    /// claim a vehicle each: the first that may serve the reservation and
    /// that nobody claimed yet is stationed in its zone and serves it. Then
    /// every vehicle in turn takes what fits from its zone, and after that
    /// every vehicle in turn takes what fits from the neighbouring zones.
    /// The checkpoints stay as they are.
    pub fn initialise(&mut self)
        requires
            old(self).problem().orderable(),
        ensures
            final(self)@ == (SearchView {
                problem: old(self).problem().ordered(),
                current: constructed(old(self).problem()),
                ..old(self)@
            }),
            final(self).problem().indexed(),
            final(self).current().wf(final(self).problem()),
    {
        let ghost given = self.problem();
        let n = self.reservations.len();
        let fleet = self.vehicle.len();
        proof {
            lemma_constructed(given);
            lemma_claim_order(given);
            lemma_ordered(given);
        }
        let order = self.claim_order();
        self.reservations = self.in_id_order();
        self.veh_to_zon = no_zones(fleet);
        self.veh_to_res = empty_loads(fleet);
        self.unassigned = all_ids_below(n);
        let ghost p = self.problem();
        let ghost before = self@;
        assert(p == given.ordered());
        let mut used: Vec<i32> = Vec::new();
        let mut k: usize = 0;
        while k < n
            invariant
                k <= n == order.len(),
                n == p.reservations.len(),
                fleet == p.vehicles.len(),
                p.indexed(),
                p == self.problem(),
                names_reservations(p, order@),
                forall|i: int, j: int|
                    0 <= i < j < order.len() ==> #[trigger] order[i] != #[trigger] order[j],
                self@ == (SearchView { current: seeded(p, order@, k as int).0, ..before }),
                used@ == seeded(p, order@, k as int).1,
            decreases n - k,
        {
            proof {
                lemma_seeded(p, order@, k as int);
                lemma_seeded(p, order@, k + 1);
            }
            let res = order[k];
            let ghost eligible = p.res(res as int).eligible;
            let ghost claimed = used@;
            let mut i: usize = 0;
            while i < self.reservations[res as usize].possible_vehicles.len()
                invariant_except_break
                    self@ == (SearchView { current: seeded(p, order@, k as int).0, ..before }),
                    used@ == claimed,
                    first_free(eligible, claimed, 0) == first_free(eligible, claimed, i as int),
                invariant
                    i <= eligible.len(),
                    k < n == order.len(),
                    res == order[k as int],
                    0 <= res < n,
                    n == p.reservations.len(),
                    fleet == p.vehicles.len(),
                    p.indexed(),
                    p == self.problem(),
                    eligible == p.res(res as int).eligible,
                    claimed == seeded(p, order@, k as int).1,
                    seeding_inv(p, order@, k as int),
                ensures
                    self@ == (SearchView { current: seeded(p, order@, k + 1).0, ..before }),
                    used@ == seeded(p, order@, k + 1).1,
                decreases eligible.len() - i,
            {
                let veh_id = self.reservations[res as usize].possible_vehicles[i];
                assert(veh_id == eligible[i as int]);
                assert(0 <= p.reservations[res as int].eligible[i as int] < p.vehicles.len());
                if position(&used, veh_id).is_none() {
                    used.push(veh_id);
                    let zone = self.reservations[res as usize].zone;
                    self.assign_zon_to_veh(veh_id, zone);
                    self.assign_veh_to_res(veh_id, res);
                    break ;
                }
                i += 1;
            }
            k += 1;
        }
        let ids = all_ids_below(n);
        let ghost seeds = seeded(p, order@, n as int).0;
        proof {
            lemma_seeded(p, order@, n as int);
        }
        let mut veh: usize = 0;
        while veh < fleet
            invariant
                veh <= fleet == p.vehicles.len(),
                p.indexed(),
                p == self.problem(),
                ids@ == every_id(p.reservations.len()),
                seeds.shaped(p),
                self.ready(),
                self@ == (SearchView { current: seeds.fleet_sweep_own(p, veh as int), ..before }),
            decreases fleet - veh,
        {
            self.sweep_own(veh, &ids);
            veh += 1;
            proof {
                lemma_fleet_sweep_own_keeps(p, seeds, veh as int);
            }
        }
        let ghost swept = seeds.fleet_sweep_own(p, fleet as int);
        let mut veh: usize = 0;
        while veh < fleet
            invariant
                veh <= fleet == p.vehicles.len(),
                p.indexed(),
                p == self.problem(),
                ids@ == every_id(p.reservations.len()),
                swept.shaped(p),
                self.ready(),
                self@ == (SearchView {
                    current: swept.fleet_sweep_neighbour(p, veh as int),
                    ..before
                }),
            decreases fleet - veh,
        {
            self.sweep_neighbour(veh, &ids);
            veh += 1;
            proof {
                lemma_fleet_sweep_neighbour_keeps(p, swept, veh as int);
            }
        }
    }
}

} // verus!
