//! Checks on the input before a search is made from it.

use vstd::prelude::*;
use crate::data_structs::{Reservation, Vehicle, Zone};
use crate::ls::problem_of;
use crate::model::{by_id, id_position, lemma_ordered, penalty_cap, penalty_total};
use crate::data_structs::ReservationView;

verus! {

/// The penalty total never shrinks as reservations are added.
pub proof fn lemma_penalty_total_grows(rs: Seq<ReservationView>, k: int)
    requires
        0 <= k <= rs.len(),
    ensures
        0 <= penalty_total(rs.take(k)) <= penalty_total(rs),
    decreases rs.len() - k,
{
    if k == 0 {
        assert(rs.take(0).len() == 0);
        lemma_penalty_total_nonneg(rs);
    } else if k < rs.len() {
        lemma_penalty_total_grows(rs, k + 1);
        assert(rs.take(k + 1).drop_last() =~= rs.take(k));
        lemma_penalty_total_nonneg(rs.take(k));
    } else {
        assert(rs.take(k) =~= rs);
        lemma_penalty_total_nonneg(rs);
    }
}

/// No penalty total is negative.
proof fn lemma_penalty_total_nonneg(rs: Seq<ReservationView>)
    ensures
        0 <= penalty_total(rs),
    decreases rs.len(),
{
    if rs.len() > 0 {
        lemma_penalty_total_nonneg(rs.drop_last());
    }
}

/// The larger of the two penalties, in absolute value.
fn cap(r: &Reservation) -> (c: i64)
    ensures
        c == penalty_cap(r@),
        0 <= c <= 0x8000_0000,
{
    let a: i64 = if r.p1 < 0 { -(r.p1 as i64) } else { r.p1 as i64 };
    let b: i64 = if r.p2 < 0 { -(r.p2 as i64) } else { r.p2 as i64 };
    if a < b { b } else { a }
}

/// Tells whether a search can be made from the input: the ids of the
/// reservations are the positions in some order, every vehicle and zone has
/// its position as its id, every vehicle that a reservation names exists,
/// and all penalties together fit in an `i32`.
pub fn well_formed_input(res: &Vec<Reservation>, zon: &Vec<Zone>, veh: &Vec<Vehicle>) -> (ok: bool)
    ensures
        ok == problem_of(res@, zon@, veh@).admissible(),
{
    let ghost p = problem_of(res@, zon@, veh@);
    let ghost rs = p.reservations;
    let n = res.len();
    if n > i32::MAX as usize || veh.len() > i32::MAX as usize || zon.len() > i32::MAX as usize {
        return false;
    }
    let mut v: usize = 0;
    while v < veh.len()
        invariant
            v <= veh.len() <= i32::MAX,
            p == problem_of(res@, zon@, veh@),
            forall|k: int| 0 <= k < v ==> (#[trigger] p.vehicles[k]).id == k,
        decreases veh.len() - v,
    {
        if veh[v].id != v as i32 {
            assert(p.vehicles[v as int].id != v);
            return false;
        }
        v += 1;
    }
    let mut z: usize = 0;
    while z < zon.len()
        invariant
            z <= zon.len() <= i32::MAX,
            p == problem_of(res@, zon@, veh@),
            forall|k: int| 0 <= k < z ==> (#[trigger] p.zones[k]).id == k,
        decreases zon.len() - z,
    {
        if zon[z].id != z as i32 {
            assert(p.zones[z as int].id != z);
            return false;
        }
        z += 1;
    }
    let mut r: usize = 0;
    while r < n
        invariant
            r <= n == res.len() <= i32::MAX,
            veh.len() <= i32::MAX,
            p == problem_of(res@, zon@, veh@),
            rs == p.reservations,
            forall|k: int| 0 <= k < r ==> 0 <= (#[trigger] rs[k]).id < n,
            forall|i: int, j: int| 0 <= i < j < r ==> (#[trigger] rs[i]).id != (#[trigger] rs[j]).id,
            forall|k: int, i: int|
                0 <= k < r && 0 <= i < p.reservations[k].eligible.len() ==> 0
                    <= #[trigger] p.reservations[k].eligible[i] < p.vehicles.len(),
        decreases n - r,
    {
        if res[r].id < 0 || res[r].id as usize >= n {
            assert(!(0 <= rs[r as int].id < n));
            return false;
        }
        let mut i: usize = 0;
        while i < r
            invariant
                i <= r < n == res.len(),
                p == problem_of(res@, zon@, veh@),
                rs == p.reservations,
                forall|k: int| 0 <= k < i ==> (#[trigger] rs[k]).id != rs[r as int].id,
            decreases r - i,
        {
            if res[i].id == res[r].id {
                assert(rs[i as int].id == rs[r as int].id);
                return false;
            }
            i += 1;
        }
        let list = &res[r].possible_vehicles;
        let mut i: usize = 0;
        while i < list.len()
            invariant
                i <= list.len(),
                r < res.len(),
                veh.len() <= i32::MAX,
                p == problem_of(res@, zon@, veh@),
                list@ == p.reservations[r as int].eligible,
                forall|k: int| 0 <= k < i ==> 0 <= #[trigger] list[k] < veh.len(),
            decreases list.len() - i,
        {
            if list[i] < 0 || list[i] as usize >= veh.len() {
                assert(!(0 <= p.reservations[r as int].eligible[i as int] < p.vehicles.len()));
                return false;
            }
            i += 1;
        }
        r += 1;
    }
    let ghost sorted = by_id(rs);
    let mut total: i64 = 0;
    let mut id: usize = 0;
    while id < n
        invariant
            id <= n == res.len() <= i32::MAX,
            p == problem_of(res@, zon@, veh@),
            rs == p.reservations,
            sorted == by_id(rs),
            forall|k: int| 0 <= k < id ==> #[trigger] id_position(rs, k, 0) < n,
            total == penalty_total(sorted.take(id as int)),
            0 <= total <= i32::MAX,
        decreases n - id,
    {
        let mut at: usize = 0;
        while at < n && res[at].id != id as i32
            invariant
                at <= n == res.len(),
                id < n <= i32::MAX,
                p == problem_of(res@, zon@, veh@),
                rs == p.reservations,
                id_position(rs, id as int, 0) == id_position(rs, id as int, at as int),
            decreases n - at,
        {
            assert(rs[at as int].id == res[at as int].id);
            at += 1;
        }
        if at >= n {
            assert(id_position(rs, id as int, 0) >= n);
            return false;
        }
        assert(rs[at as int].id == res[at as int].id);
        assert(sorted[id as int] == res[at as int]@);
        total = total + cap(&res[at]);
        proof {
            assert(sorted.take(id + 1).drop_last() =~= sorted.take(id as int));
            lemma_penalty_total_grows(sorted, id + 1);
        }
        if total > i32::MAX as i64 {
            assert(p.ordered().reservations == sorted);
            return false;
        }
        id += 1;
    }
    proof {
        assert(sorted.take(n as int) =~= sorted);
        assert(p.orderable());
        lemma_ordered(p);
    }
    true
}

} // verus!
