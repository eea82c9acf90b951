//! What holds of every assignment that the search can reach, and of the
//! operations among each other.

use vstd::prelude::*;
use crate::validity::lemma_wf_passes_check;
use crate::construct::{
    choices, constructed, entry_point, lemma_constructed, lemma_entry_point,
    lemma_scarcest_first_ids, scarcest_first,
};
use crate::cost::lemma_cost_bound;
use crate::counting::{lemma_partition_names_each_once, names_each_once};
use crate::data_structs::ReservationView;
use crate::invariants::{lemma_rehome_keeps, lemma_relocate_keeps};
use crate::ls::SearchView;
use crate::model::{interferes, lemma_ordered, penalty_total, window_end, Assignment, Problem};
use crate::output::{decimal, digits};
use crate::parser::{all_digits, digits_value, is_digit, number};

verus! {

/// A move of the neighbourhood.
pub enum Move {
    /// The vehicle changes to the zone.
    Relocate { vehicle: int, zone: i32 },
    /// The reservation looks for a vehicle in its own zone.
    Rehome { reservation: i32 },
}

impl Move {
    /// The move names a vehicle, or a reservation, of the problem.
    pub open spec fn fits(self, p: Problem) -> bool {
        match self {
            Move::Relocate { vehicle, zone } => 0 <= vehicle < p.vehicles.len(),
            Move::Rehome { reservation } => 0 <= reservation < p.reservations.len(),
        }
    }

    /// The assignment after the move.
    pub open spec fn apply(self, p: Problem, a: Assignment) -> Assignment {
        match self {
            Move::Relocate { vehicle, zone } => a.relocate(p, vehicle, zone),
            Move::Rehome { reservation } => a.rehome(p, reservation),
        }
    }
}

/// The assignment that the moves lead to, one after the other, from the
/// first assignment, on the problem in the order of its ids.
pub open spec fn reached(p: Problem, moves: Seq<Move>) -> Assignment
    decreases moves.len(),
{
    if moves.len() == 0 {
        constructed(p)
    } else {
        moves.last().apply(p.ordered(), reached(p, moves.drop_last()))
    }
}

/// Every assignment that the moves reach from the first assignment is
/// well formed: it is a partition of the reservations, no vehicle in it
/// serves two reservations that interfere, and every vehicle may serve what
/// it serves.
pub proof fn law_reached_is_well_formed(p: Problem, moves: Seq<Move>)
    requires
        p.orderable(),
        forall|k: int| 0 <= k < moves.len() ==> (#[trigger] moves[k]).fits(p),
    ensures
        reached(p, moves).wf(p.ordered()),
    decreases moves.len(),
{
    lemma_ordered(p);
    if moves.len() == 0 {
        lemma_constructed(p);
    } else {
        let before = moves.drop_last();
        assert forall|k: int| 0 <= k < before.len() implies (#[trigger] before[k]).fits(p) by {
            assert(before[k] == moves[k]);
        }
        law_reached_is_well_formed(p, before);
        let a = reached(p, before);
        match moves.last() {
            Move::Relocate { vehicle, zone } => {
                lemma_relocate_keeps(p.ordered(), a, vehicle, zone);
            },
            Move::Rehome { reservation } => {
                lemma_rehome_keeps(p.ordered(), a, reservation);
            },
        }
    }
}

/// Putting the reservations in the order of their ids loses none: every
/// record then stands at the position that is its id.
pub proof fn law_ordering_keeps_the_records(p: Problem)
    requires
        p.orderable(),
    ensures
        p.ordered().indexed(),
        p.ordered().reservations.len() == p.reservations.len(),
        forall|j: int|
            0 <= j < p.reservations.len() ==> p.ordered().reservations[(
            #[trigger] p.reservations[j]).id as int] == p.reservations[j],
{
    lemma_ordered(p);
}

/// In a partition every reservation is named once: by one vehicle, or
/// among the unassigned.
pub proof fn law_partition_names_each_once(p: Problem, a: Assignment)
    requires
        a.shaped(p),
        a.partitioned(p),
    ensures
        names_each_once(a.all_ids(), p.reservations.len() as int),
{
    lemma_partition_names_each_once(p, a);
}

/// In every assignment that the moves reach from the first assignment,
/// every vehicle may serve what it serves.
pub proof fn law_reached_keeps_eligibility(p: Problem, moves: Seq<Move>)
    requires
        p.orderable(),
        forall|k: int| 0 <= k < moves.len() ==> (#[trigger] moves[k]).fits(p),
    ensures
        reached(p, moves).eligibility_kept(p.ordered()),
{
    law_reached_is_well_formed(p, moves);
}

/// An assignment that is a partition and passes the validity check has no
/// vehicle that serves two reservations that interfere; and a well-formed
/// assignment passes the validity check.
pub proof fn law_valid_means_interference_free(p: Problem, a: Assignment)
    requires
        p.reservations.len() <= i32::MAX,
        a.shaped(p),
        a.partitioned(p),
    ensures
        a.passes_check(p) <==> a.interference_free(p),
{
    if a.interference_free(p) {
        lemma_wf_passes_check(p, a);
    }
    if a.passes_check(p) {
        assert forall|v: int, i: int, j: int|
            0 <= v < a.served.len() && 0 <= i < a.served[v].len() && 0 <= j < a.served[v].len()
                && i != j implies !interferes(
            p.res(#[trigger] a.served[v][i] as int),
            p.res(#[trigger] a.served[v][j] as int),
        ) by {
            assert(a.served[v][i] != a.served[v][j]);
        }
    }
}

/// Whether the instant lies in the window of the reservation.
pub open spec fn within(r: ReservationView, t: int) -> bool {
    r.start <= t <= window_end(r)
}

/// Two reservations interfere exactly when they fall on the same day and
/// some instant lies in both windows.
pub proof fn law_interference_is_a_common_instant(a: ReservationView, b: ReservationView)
    ensures
        interferes(a, b) <==> a.day == b.day && exists|t: int| within(a, t) && within(b, t),
{
    if interferes(a, b) {
        let t: int = if a.start < b.start { b.start as int } else { a.start as int };
        assert(within(a, t) && within(b, t));
    }
}

/// Interference does not depend on the order of the two reservations.
pub proof fn law_interference_is_symmetric(a: ReservationView, b: ReservationView)
    ensures
        interferes(a, b) == interferes(b, a),
{
}

/// The cost is a function of the problem and the assignment: searches that
/// agree on both cost the same.
pub proof fn law_cost_depends_on_the_state_alone(s: SearchView, t: SearchView)
    requires
        s.problem == t.problem,
        s.current == t.current,
    ensures
        s.current.cost(s.problem) == t.current.cost(t.problem),
{
}

/// No well-formed assignment costs more than all penalty caps together.
pub proof fn law_cost_is_bounded(p: Problem, a: Assignment)
    requires
        p.wf(),
        a.wf(p),
    ensures
        -penalty_total(p.reservations) <= a.cost(p) <= penalty_total(p.reservations),
        i32::MIN < a.cost(p) <= i32::MAX,
{
    lemma_cost_bound(p, a);
}

/// After a commit, whatever the current assignment is turned into, a
/// restore brings back the assignment that was committed.
pub proof fn law_commit_restore_round_trip(s: SearchView, mutated: Assignment)
    ensures
        (SearchView { current: mutated, ..s.commit() }).restore().current == s.current,
        (SearchView { current: mutated, ..s.commit() }).restore().problem == s.problem,
        (SearchView { current: mutated, ..s.commit() }).restore().best == s.best,
{
}

/// Moving a vehicle to the zone where it stands changes nothing.
pub proof fn law_relocation_to_own_zone(p: Problem, a: Assignment, v: int)
    ensures
        a.relocate(p, v, a.zone_of[v]) == a,
{
}

/// The first assignment depends on the problem alone: searches on the same
/// problem start from the same assignment, whatever they held before.
pub proof fn law_construction_depends_on_the_problem_alone(s: SearchView, t: SearchView)
    requires
        s.problem == t.problem,
    ensures
        constructed(s.problem) == constructed(t.problem),
{
}

/// Whether `r` comes before `s` when the scarcest come first: it has fewer
/// choices, or as many and the smaller id.
pub open spec fn scarcer(p: Problem, r: i32, s: i32) -> bool {
    choices(p, r) < choices(p, s) || (choices(p, r) == choices(p, s) && r < s)
}

/// Before the entry point nothing has more choices than `r`; at the entry
/// point stands what has more.
proof fn lemma_entry_point_splits(p: Problem, order: Seq<i32>, r: i32, from: int)
    requires
        0 <= from <= order.len(),
    ensures
        forall|i: int|
            from <= i < entry_point(p, order, r, from) ==> choices(p, #[trigger] order[i])
                <= choices(p, r),
        entry_point(p, order, r, from) < order.len() ==> choices(
            p,
            order[entry_point(p, order, r, from)],
        ) > choices(p, r),
    decreases order.len() - from,
{
    lemma_entry_point(p, order, r, from);
    if from < order.len() && choices(p, order[from]) <= choices(p, r) {
        lemma_entry_point_splits(p, order, r, from + 1);
        lemma_entry_point(p, order, r, from + 1);
    }
}

/// The order in which the reservations claim their vehicles names each of
/// them once, and whoever comes earlier in it is scarcer.
pub proof fn law_scarcest_come_first(p: Problem, k: int)
    requires
        0 <= k <= i32::MAX,
    ensures
        names_each_once(scarcest_first(p, k), k),
        forall|i: int, j: int|
            0 <= i < j < k ==> scarcer(
                p,
                #[trigger] scarcest_first(p, k)[i],
                #[trigger] scarcest_first(p, k)[j],
            ),
    decreases k,
{
    lemma_scarcest_first_ids(p, k);
    if k > 0 {
        law_scarcest_come_first(p, k - 1);
        lemma_scarcest_first_ids(p, k - 1);
        let o = scarcest_first(p, k - 1);
        let top = (k - 1) as i32;
        let at = entry_point(p, o, top, 0);
        lemma_entry_point(p, o, top, 0);
        lemma_entry_point_splits(p, o, top, 0);
        let s = scarcest_first(p, k);
        assert forall|i: int| 0 <= i < k implies #[trigger] s[i] == (if i < at {
            o[i]
        } else if i == at {
            top
        } else {
            o[i - 1]
        }) by {}
        assert forall|i: int, j: int| 0 <= i < j < k implies scarcer(
            p,
            #[trigger] s[i],
            #[trigger] s[j],
        ) by {
            if j < at {
                assert(scarcer(p, o[i], o[j]));
            } else if j == at {
                assert(choices(p, o[i]) <= choices(p, top));
                assert(0 <= o[i] < k - 1);
            } else if i < at {
                assert(scarcer(p, o[i], o[j - 1]));
            } else if i == at {
                if at < j - 1 {
                    assert(scarcer(p, o[at], o[j - 1]));
                }
            } else {
                assert(scarcer(p, o[i - 1], o[j - 1]));
            }
        }
        assert forall|r: i32| 0 <= r < k implies #[trigger] s.contains(r) by {
            if r == top {
                assert(s[at] == r);
            } else {
                assert(o.contains(r));
                let x = choose|x: int| 0 <= x < o.len() && o[x] == r;
                let x1 = if x < at { x } else { x + 1 };
                assert(s[x1] == r);
            }
        }
    }
}

/// The digits of a number write that number.
proof fn lemma_digits_write_their_number(n: int)
    requires
        0 <= n,
    ensures
        digits(n).len() > 0,
        all_digits(digits(n)),
        digits_value(digits(n)) == n,
    decreases n,
{
    if n < 10 {
        assert(digits(n).drop_last() =~= Seq::<u8>::empty());
        assert(digits_value(digits(n).drop_last()) == 0);
        assert(digits(n).last() == (48 + n) as u8);
    } else {
        lemma_digits_write_their_number(n / 10);
        assert(digits(n).drop_last() =~= digits(n / 10));
        assert(digits(n).last() == (48 + n % 10) as u8);
        assert(digits_value(digits(n)) == digits_value(digits(n / 10)) * 10 + (digits(n).last()
            - 48));
        assert forall|i: int| 0 <= i < digits(n).len() implies is_digit(#[trigger] digits(n)[i]) by {
            if i < digits(n / 10).len() {
                assert(digits(n)[i] == digits(n / 10)[i]);
            }
        }
    }
}

/// A number that was written in decimal is read back as itself.
pub proof fn law_written_numbers_are_read_back(n: i32)
    ensures
        number(decimal(n as int)) == Some(n),
{
    if n < 0 {
        lemma_digits_write_their_number(-n);
        assert(decimal(n as int).skip(1) =~= digits(-n));
    } else {
        lemma_digits_write_their_number(n as int);
        assert(is_digit(digits(n as int)[0]));
    }
}

} // verus!
