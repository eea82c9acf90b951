//! The validity check on an assignment, the fresh search, and the
//! checkpoints.

use vstd::prelude::*;
use crate::counting::lemma_partition_count;
use crate::data_structs::{Reservation, Vehicle, Zone};
use crate::ls::{loads, problem_of, LocalSearch, SearchView};
use crate::model::{interferes, Assignment, Problem, NO_ZONE, UNPRICED};
use crate::operators::{copy_ids, copy_loads};

verus! {

impl Assignment {
    /// What the validity check asks: no vehicle serves two different
    /// reservations that interfere, and the assignment names as many
    /// reservations as there are.
    pub open spec fn passes_check(self, p: Problem) -> bool {
        &&& forall|v: int, i: int, j: int|
            0 <= v < self.served.len() && 0 <= i < self.served[v].len() && 0 <= j
                < self.served[v].len() && self.served[v][i] != self.served[v][j] ==> !interferes(
                p.res(#[trigger] self.served[v][i] as int),
                p.res(#[trigger] self.served[v][j] as int),
            )
        &&& self.slot_count() == p.reservations.len()
    }
}

/// A partition in which no vehicle serves two reservations that interfere
/// passes the validity check.
pub proof fn lemma_wf_passes_check(p: Problem, a: Assignment)
    requires
        p.reservations.len() <= i32::MAX,
        a.shaped(p),
        a.partitioned(p),
        a.interference_free(p),
    ensures
        a.passes_check(p),
{
    lemma_partition_count(p, a);
}

/// As many empty lists as asked for.
pub fn empty_loads(count: usize) -> (lists: Vec<Vec<i32>>)
    ensures
        loads(lists@) == Seq::new(count as nat, |v: int| Seq::<i32>::empty()),
{
    let mut lists: Vec<Vec<i32>> = Vec::new();
    let mut i: usize = 0;
    while i < count
        invariant
            i <= count,
            lists.len() == i,
            forall|k: int| 0 <= k < i ==> (#[trigger] lists[k])@ == Seq::<i32>::empty(),
        decreases count - i,
    {
        lists.push(Vec::new());
        i += 1;
    }
    assert(loads(lists@) =~= Seq::new(count as nat, |v: int| Seq::<i32>::empty()));
    lists
}

/// As many times "no zone" as asked for.
pub fn no_zones(count: usize) -> (zones: Vec<i32>)
    ensures
        zones@ == Seq::new(count as nat, |v: int| NO_ZONE),
{
    let mut zones: Vec<i32> = Vec::new();
    let mut i: usize = 0;
    while i < count
        invariant
            i <= count,
            zones.len() == i,
            forall|k: int| 0 <= k < i ==> #[trigger] zones[k] == NO_ZONE,
        decreases count - i,
    {
        zones.push(NO_ZONE);
        i += 1;
    }
    assert(zones@ =~= Seq::new(count as nat, |v: int| NO_ZONE));
    zones
}

/// The ids below `count`, in order.
pub fn all_ids_below(count: usize) -> (ids: Vec<i32>)
    requires
        count <= i32::MAX,
    ensures
        ids@ == Seq::new(count as nat, |r: int| r as i32),
{
    let mut ids: Vec<i32> = Vec::new();
    let mut i: usize = 0;
    while i < count
        invariant
            i <= count,
            count <= i32::MAX,
            ids.len() == i,
            forall|k: int| 0 <= k < i ==> #[trigger] ids[k] == k as i32,
        decreases count - i,
    {
        ids.push(i as i32);
        i += 1;
    }
    assert(ids@ =~= Seq::new(count as nat, |r: int| r as i32));
    ids
}

/// The empty assignment is well formed.
pub proof fn lemma_empty_wf(p: Problem)
    requires
        p.reservations.len() <= i32::MAX,
    ensures
        Assignment::empty(p.vehicles.len(), p.reservations.len()).wf(p),
        Assignment::empty(p.vehicles.len(), p.reservations.len()).eligibility_kept(p),
{
    let a = Assignment::empty(p.vehicles.len(), p.reservations.len());
    assert forall|r: i32| 0 <= r < p.reservations.len() implies #[trigger] a.unassigned.contains(r)
        || a.is_served(r) by {
        assert(a.unassigned[r as int] == r);
    }
}

impl LocalSearch {
    /// A search on the given problem in which nothing is assigned yet. Both
    /// checkpoints hold the empty assignment, at a cost that stands for "not
    /// priced yet".
    pub fn new(res: Vec<Reservation>, zon: Vec<Zone>, veh: Vec<Vehicle>) -> (fresh: LocalSearch)
        requires
            res.len() <= i32::MAX,
        ensures
            fresh@ == (SearchView {
                problem: problem_of(res@, zon@, veh@),
                current: Assignment::empty(veh.len() as nat, res.len() as nat),
                local: Assignment::empty(veh.len() as nat, res.len() as nat),
                local_cost: UNPRICED,
                best: Assignment::empty(veh.len() as nat, res.len() as nat),
                best_cost: UNPRICED,
            }),
            fresh.problem().wf() ==> fresh.wf(),
            fresh.problem().admissible() ==> fresh@.startable(),
    {
        let veh_to_zon = no_zones(veh.len());
        let best_veh_to_zon = no_zones(veh.len());
        let local_veh_to_zon = no_zones(veh.len());
        let veh_to_res = empty_loads(veh.len());
        let best_veh_to_res = empty_loads(veh.len());
        let local_veh_to_res = empty_loads(veh.len());
        let unassigned = all_ids_below(res.len());
        let best_unassigned = all_ids_below(res.len());
        let local_unassigned = all_ids_below(res.len());
        proof {
            lemma_empty_wf(problem_of(res@, zon@, veh@));
            lemma_empty_wf(problem_of(res@, zon@, veh@).ordered());
        }
        LocalSearch {
            reservations: res,
            zones: zon,
            vehicle: veh,
            veh_to_res,
            veh_to_zon,
            unassigned,
            best_cost: UNPRICED,
            best_veh_to_res,
            best_veh_to_zon,
            best_unassigned,
            local_cost: UNPRICED,
            local_veh_to_res,
            local_veh_to_zon,
            local_unassigned,
        }
    }

    /// Makes the current assignment, with its cost, the local checkpoint.
    pub fn commit(&mut self)
        requires
            old(self).problem().wf(),
            old(self).current().shaped(old(self).problem()),
            old(self).current().partitioned(old(self).problem()),
        ensures
            final(self)@ == (SearchView {
                local: old(self).current(),
                local_cost: old(self).current().cost(old(self).problem()) as i32,
                ..old(self)@
            }),
            final(self).local_cost == old(self).current().cost(old(self).problem()),
    {
        self.local_veh_to_res = copy_loads(&self.veh_to_res);
        self.local_veh_to_zon = copy_ids(&self.veh_to_zon);
        self.local_unassigned = copy_ids(&self.unassigned);
        self.local_cost = self.calculate_full_cost();
    }

    /// Puts the local checkpoint in the place of the current assignment.
    pub fn restore(&mut self)
        ensures
            final(self)@ == (SearchView { current: old(self).local(), ..old(self)@ }),
    {
        self.veh_to_res = copy_loads(&self.local_veh_to_res);
        self.veh_to_zon = copy_ids(&self.local_veh_to_zon);
        self.unassigned = copy_ids(&self.local_unassigned);
    }

    /// Tells whether the current assignment passes the validity check.
    pub fn check_all(&self) -> (ok: bool)
        requires
            self.ready(),
        ensures
            ok == self.current().passes_check(self.problem()),
    {
        let ghost p = self.problem();
        let ghost a = self.current();
        let amount_res = self.reservations.len();
        let mut res: u128 = 0;
        let mut veh: usize = 0;
        while veh < self.veh_to_res.len()
            invariant
                veh <= self.veh_to_res.len(),
                p == self.problem(),
                a == self.current(),
                a.shaped(p),
                res == a.served_count(veh as int),
                res <= veh * 0x1_0000_0000_0000_0000,
                forall|v: int, i: int, j: int|
                    0 <= v < veh && 0 <= i < a.served[v].len() && 0 <= j < a.served[v].len()
                        && a.served[v][i] != a.served[v][j] ==> !interferes(
                        p.res(#[trigger] a.served[v][i] as int),
                        p.res(#[trigger] a.served[v][j] as int),
                    ),
            decreases self.veh_to_res.len() - veh,
        {
            let list = &self.veh_to_res[veh];
            assert(a.served[veh as int] == list@);
            res = res + list.len() as u128;
            let mut i: usize = 0;
            while i < list.len()
                invariant
                    i <= list.len(),
                    veh < self.veh_to_res.len(),
                    p == self.problem(),
                    a == self.current(),
                    a.shaped(p),
                    a.served[veh as int] == list@,
                    forall|x: int, y: int|
                        0 <= x < i && 0 <= y < list.len() && list[x] != list[y] ==> !interferes(
                            p.res(#[trigger] list[x] as int),
                            p.res(#[trigger] list[y] as int),
                        ),
                decreases list.len() - i,
            {
                let mut j: usize = 0;
                while j < list.len()
                    invariant
                        j <= list.len(),
                        i < list.len(),
                        veh < self.veh_to_res.len(),
                        p == self.problem(),
                        a == self.current(),
                        a.shaped(p),
                        a.served[veh as int] == list@,
                        forall|y: int|
                            0 <= y < j && list[i as int] != list[y] ==> !interferes(
                                p.res(list[i as int] as int),
                                p.res(#[trigger] list[y] as int),
                            ),
                    decreases list.len() - j,
                {
                    assert(0 <= a.served[veh as int][i as int] < p.reservations.len());
                    assert(0 <= a.served[veh as int][j as int] < p.reservations.len());
                    if list[i] != list[j] && self.does_interfere(
                        list[i] as usize,
                        list[j] as usize,
                    ) {
                        return false;
                    }
                    j += 1;
                }
                i += 1;
            }
            veh += 1;
        }
        res = res + self.unassigned.len() as u128;
        res == amount_res as u128
    }
}

} // verus!
