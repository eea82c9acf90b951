//! What an assignment costs, and why the cost fits in an `i32`.

use vstd::prelude::*;
use crate::counting::{
    gathered, lemma_partition_names_each_once, lemma_sum_each_once, lemma_sum_over_add, sum_below,
    sum_over,
};
use crate::ls::{loads, LocalSearch};
use crate::model::{penalty_cap, penalty_total, Assignment, Problem};

verus! {

impl Assignment {
    /// What it costs that `v` serves `r`: nothing where `v` stands in the
    /// zone of `r`, else the second penalty of `r`. Whether the two zones
    /// are neighbours makes no difference.
    pub open spec fn service_cost(self, p: Problem, v: int, r: i32) -> int {
        if self.zone_of[v] == p.res(r as int).zone {
            0
        } else {
            p.res(r as int).p2 as int
        }
    }

    /// Cost of the first `k` reservations that `v` serves.
    pub open spec fn load_cost(self, p: Problem, v: int, k: int) -> int
        decreases k,
    {
        if k <= 0 {
            0
        } else {
            self.load_cost(p, v, k - 1) + self.service_cost(p, v, self.served[v][k - 1])
        }
    }

    /// Cost of all that the first `k` vehicles serve.
    pub open spec fn fleet_cost(self, p: Problem, k: int) -> int
        decreases k,
    {
        if k <= 0 {
            0
        } else {
            self.fleet_cost(p, k - 1) + self.load_cost(p, k - 1, self.served[k - 1].len() as int)
        }
    }

    /// First penalties of the first `k` unassigned reservations.
    pub open spec fn waiting_cost(self, p: Problem, k: int) -> int
        decreases k,
    {
        if k <= 0 {
            0
        } else {
            self.waiting_cost(p, k - 1) + p.res(self.unassigned[k - 1] as int).p1
        }
    }

    /// The objective: what the vehicles' services cost, and the first
    /// penalty of every reservation that nobody serves.
    pub open spec fn cost(self, p: Problem) -> int {
        self.fleet_cost(p, self.served.len() as int) + self.waiting_cost(
            p,
            self.unassigned.len() as int,
        )
    }
}

/// The penalty cap of the reservation with the given id.
pub open spec fn cap_of(p: Problem) -> spec_fn(int) -> int {
    |r: int| penalty_cap(p.reservations[r])
}

/// A sum over one entry more is the sum before plus that entry.
proof fn lemma_take_step(w: spec_fn(int) -> int, s: Seq<i32>, k: int)
    requires
        0 < k <= s.len(),
    ensures
        sum_over(w, s.take(k)) == sum_over(w, s.take(k - 1)) + w(s[k - 1] as int),
{
    assert(s.take(k).drop_last() =~= s.take(k - 1));
}

/// What a vehicle serves costs no more than the caps of what it serves.
proof fn lemma_load_bound(p: Problem, a: Assignment, v: int, k: int)
    requires
        0 <= v < a.served.len(),
        0 <= k <= a.served[v].len(),
    ensures
        -sum_over(cap_of(p), a.served[v].take(k)) <= a.load_cost(p, v, k) <= sum_over(
            cap_of(p),
            a.served[v].take(k),
        ),
    decreases k,
{
    if k > 0 {
        lemma_load_bound(p, a, v, k - 1);
        lemma_take_step(cap_of(p), a.served[v], k);
    }
}

/// What the first vehicles serve costs no more than the caps of what they
/// serve.
proof fn lemma_fleet_bound(p: Problem, a: Assignment, k: int)
    requires
        0 <= k <= a.served.len(),
    ensures
        -sum_over(cap_of(p), gathered(a.served, k)) <= a.fleet_cost(p, k) <= sum_over(
            cap_of(p),
            gathered(a.served, k),
        ),
    decreases k,
{
    if k > 0 {
        lemma_fleet_bound(p, a, k - 1);
        let row = a.served[k - 1];
        lemma_load_bound(p, a, k - 1, row.len() as int);
        assert(row.take(row.len() as int) =~= row);
        lemma_sum_over_add(cap_of(p), gathered(a.served, k - 1), row);
    }
}

/// The unassigned cost no more than their caps.
proof fn lemma_waiting_bound(p: Problem, a: Assignment, k: int)
    requires
        0 <= k <= a.unassigned.len(),
    ensures
        -sum_over(cap_of(p), a.unassigned.take(k)) <= a.waiting_cost(p, k) <= sum_over(
            cap_of(p),
            a.unassigned.take(k),
        ),
    decreases k,
{
    if k > 0 {
        lemma_waiting_bound(p, a, k - 1);
        lemma_take_step(cap_of(p), a.unassigned, k);
    }
}

/// The penalty total is the sum of the caps over all ids.
proof fn lemma_penalty_total_below(p: Problem, k: int)
    requires
        0 <= k <= p.reservations.len(),
    ensures
        penalty_total(p.reservations.take(k)) == sum_below(cap_of(p), k),
    decreases k,
{
    if k > 0 {
        lemma_penalty_total_below(p, k - 1);
        assert(p.reservations.take(k).drop_last() =~= p.reservations.take(k - 1));
    }
}

/// No partition costs more than all penalty caps together, nor less than
/// their negative.
pub proof fn lemma_cost_bound(p: Problem, a: Assignment)
    requires
        p.reservations.len() <= i32::MAX,
        a.shaped(p),
        a.partitioned(p),
    ensures
        -penalty_total(p.reservations) <= a.cost(p) <= penalty_total(p.reservations),
{
    let n = p.reservations.len() as int;
    let nv = a.served.len() as int;
    lemma_fleet_bound(p, a, nv);
    lemma_waiting_bound(p, a, a.unassigned.len() as int);
    assert(a.unassigned.take(a.unassigned.len() as int) =~= a.unassigned);
    lemma_sum_over_add(cap_of(p), gathered(a.served, nv), a.unassigned);
    lemma_partition_names_each_once(p, a);
    lemma_sum_each_once(cap_of(p), a.all_ids(), n);
    lemma_penalty_total_below(p, n);
    assert(p.reservations.take(n) =~= p.reservations);
}

impl LocalSearch {
    /// What it costs that a vehicle which stands in `zone` serves the
    /// reservation.
    pub fn service_charge(&self, res_id: i32, zone: i32) -> (cost: i32)
        requires
            0 <= res_id < self.reservations.len(),
        ensures
            cost == if zone == self.problem().res(res_id as int).zone {
                0
            } else {
                self.problem().res(res_id as int).p2
            },
    {
        let res = &self.reservations[res_id as usize];
        if zone == res.zone {
            return 0;
        }
        res.p2
    }

    /// What it costs that the vehicle serves the reservation.
    pub fn calculate_cost(&self, res_id: i32, veh_id: usize) -> (cost: i32)
        requires
            0 <= res_id < self.reservations.len(),
            veh_id < self.veh_to_zon.len(),
        ensures
            cost == self.current().service_cost(self.problem(), veh_id as int, res_id),
    {
        self.service_charge(res_id, self.veh_to_zon[veh_id])
    }

    /// The cost of the current assignment.
    pub fn calculate_full_cost(&self) -> (sum: i32)
        requires
            self.problem().wf(),
            self.current().shaped(self.problem()),
            self.current().partitioned(self.problem()),
        ensures
            sum == self.current().cost(self.problem()),
    {
        self.price(&self.veh_to_res, &self.veh_to_zon, &self.unassigned)
    }

    /// The cost of the assignment that the three vectors hold.
    pub fn price(
        &self,
        veh_to_res: &Vec<Vec<i32>>,
        veh_to_zon: &Vec<i32>,
        unassigned: &Vec<i32>,
    ) -> (sum: i32)
        requires
            self.problem().wf(),
            held(veh_to_res, veh_to_zon, unassigned).shaped(self.problem()),
            held(veh_to_res, veh_to_zon, unassigned).partitioned(self.problem()),
        ensures
            sum == held(veh_to_res, veh_to_zon, unassigned).cost(self.problem()),
    {
        let ghost p = self.problem();
        let ghost a = held(veh_to_res, veh_to_zon, unassigned);
        let mut sum: i128 = 0;
        let mut veh: usize = 0;
        while veh < veh_to_res.len()
            invariant
                veh <= veh_to_res.len(),
                p == self.problem(),
                a == held(veh_to_res, veh_to_zon, unassigned),
                a.shaped(p),
                p.wf(),
                sum == a.fleet_cost(p, veh as int),
                -veh * 0x8000_0000_0000_0000_0000_0000 <= sum <= veh
                    * 0x8000_0000_0000_0000_0000_0000,
            decreases veh_to_res.len() - veh,
        {
            let list = &veh_to_res[veh];
            assert(a.served[veh as int] == list@);
            let mut part: i128 = 0;
            let mut i: usize = 0;
            while i < list.len()
                invariant
                    i <= list.len(),
                    veh < veh_to_res.len(),
                    p == self.problem(),
                    a == held(veh_to_res, veh_to_zon, unassigned),
                    a.shaped(p),
                    p.wf(),
                    a.served[veh as int] == list@,
                    part == a.load_cost(p, veh as int, i as int),
                    -i * 0x8000_0000 <= part <= i * 0x8000_0000,
                decreases list.len() - i,
            {
                assert(0 <= a.served[veh as int][i as int] < p.reservations.len());
                part = part + self.service_charge(list[i], veh_to_zon[veh]) as i128;
                i += 1;
            }
            sum = sum + part;
            veh += 1;
        }
        let mut rest: i128 = 0;
        let mut i: usize = 0;
        while i < unassigned.len()
            invariant
                i <= unassigned.len(),
                p == self.problem(),
                a == held(veh_to_res, veh_to_zon, unassigned),
                a.shaped(p),
                rest == a.waiting_cost(p, i as int),
                -i * 0x8000_0000 <= rest <= i * 0x8000_0000,
            decreases unassigned.len() - i,
        {
            assert(0 <= a.unassigned[i as int] < p.reservations.len());
            rest = rest + self.reservations[unassigned[i] as usize].p1 as i128;
            i += 1;
        }
        proof {
            lemma_cost_bound(p, a);
        }
        (sum + rest) as i32
    }
}

/// The assignment that the three vectors hold.
pub open spec fn held(
    veh_to_res: &Vec<Vec<i32>>,
    veh_to_zon: &Vec<i32>,
    unassigned: &Vec<i32>,
) -> Assignment {
    Assignment { zone_of: veh_to_zon@, served: loads(veh_to_res@), unassigned: unassigned@ }
}

} // verus!
