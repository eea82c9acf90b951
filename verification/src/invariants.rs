//! The moves keep what makes an assignment acceptable.

use vstd::prelude::*;
use crate::model::{first_index, Assignment, Problem};
use crate::moves::{names_reservations, without_repeats};

verus! {

/// Where `x` occurs in `s`, `first_index` is the place of its first
/// occurrence.
pub proof fn lemma_first_index_found(s: Seq<i32>, x: i32)
    requires
        s.contains(x),
    ensures
        0 <= first_index(s, x) < s.len(),
        s[first_index(s, x)] == x,
        forall|k: int| 0 <= k < first_index(s, x) ==> s[k] != x,
    decreases s.len(),
{
    if s[0] != x {
        let t = s.drop_first();
        let i = choose|i: int| 0 <= i < s.len() && s[i] == x;
        assert(t[i - 1] == x);
        lemma_first_index_found(t, x);
        assert forall|k: int| 0 <= k < first_index(s, x) implies s[k] != x by {
            if k > 0 {
                assert(t[k - 1] == s[k]);
            }
        }
    }
}

/// Placing a reservation keeps the shape of the assignment.
pub proof fn lemma_place_shaped(p: Problem, a: Assignment, r: i32, v: int)
    requires
        a.shaped(p),
        0 <= v < a.served.len(),
        0 <= r < p.reservations.len(),
        a.unassigned.contains(r),
    ensures
        a.place(r, v).shaped(p),
{
    lemma_first_index_found(a.unassigned, r);
    let b = a.place(r, v);
    let at = first_index(a.unassigned, r);
    assert forall|w: int, i: int| 0 <= w < b.served.len() && 0 <= i < b.served[w].len() implies 0
        <= #[trigger] b.served[w][i] < p.reservations.len() by {
        if w == v && i < a.served[v].len() {
            assert(b.served[w][i] == a.served[v][i]);
        } else if w != v {
            assert(b.served[w][i] == a.served[w][i]);
        }
    }
    assert forall|i: int| 0 <= i < b.unassigned.len() implies 0 <= #[trigger] b.unassigned[i]
        < p.reservations.len() by {
        if i < at {
            assert(b.unassigned[i] == a.unassigned[i]);
        } else {
            assert(b.unassigned[i] == a.unassigned[i + 1]);
        }
    }
}

/// Placing a waiting reservation on a vehicle that may serve it and has
/// room for it keeps the assignment well formed.
pub proof fn lemma_place_wf(p: Problem, a: Assignment, r: i32, v: int)
    requires
        a.wf(p),
        0 <= v < a.served.len(),
        0 <= r < p.reservations.len(),
        a.has_room(p, r, v),
        p.may_serve(v, r as int),
    ensures
        a.place(r, v).wf(p),
{
    lemma_place_shaped(p, a, r, v);
    lemma_place_eligible(p, a, r, v);
    lemma_first_index_found(a.unassigned, r);
    let b = a.place(r, v);
    let at = first_index(a.unassigned, r);
    let old_len = a.served[v].len() as int;
    assert(b.served[v][old_len] == r);
    assert(a.unassigned[at] == r);
    assert forall|i: int| 0 <= i < b.unassigned.len() implies #[trigger] b.unassigned[i] == (if i
        < at {
        a.unassigned[i]
    } else {
        a.unassigned[i + 1]
    }) by {}
    assert forall|w: int, i: int|
        0 <= w < b.served.len() && 0 <= i < b.served[w].len() && !(w == v && i
            == old_len) implies #[trigger] b.served[w][i] == a.served[w][i] by {}
    // nothing twice among the unassigned
    assert forall|i: int, j: int| 0 <= i < j < b.unassigned.len() implies #[trigger] b.unassigned[i]
        != #[trigger] b.unassigned[j] by {
        let i0 = if i < at { i } else { i + 1 };
        let j0 = if j < at { j } else { j + 1 };
        assert(a.unassigned[i0] != a.unassigned[j0]);
    }
    // nothing twice on vehicles
    assert forall|w: int, i: int, x: int, j: int|
        0 <= w < b.served.len() && 0 <= i < b.served[w].len() && 0 <= x < b.served.len() && 0 <= j
            < b.served[x].len() && (w != x || i != j) implies #[trigger] b.served[w][i]
        != #[trigger] b.served[x][j] by {
        if w == v && i == old_len {
            assert(a.served[x][j] != a.unassigned[at]);
        } else if x == v && j == old_len {
            assert(a.served[w][i] != a.unassigned[at]);
        } else {
            assert(a.served[w][i] != a.served[x][j]);
        }
    }
    // nothing both served and unassigned
    assert forall|w: int, i: int, u: int|
        0 <= w < b.served.len() && 0 <= i < b.served[w].len() && 0 <= u
            < b.unassigned.len() implies #[trigger] b.served[w][i] != #[trigger] b.unassigned[u] by {
        let u0 = if u < at { u } else { u + 1 };
        if w == v && i == old_len {
            if at < u0 {
                assert(a.unassigned[at] != a.unassigned[u0]);
            } else {
                assert(a.unassigned[u0] != a.unassigned[at]);
            }
        } else {
            assert(a.served[w][i] != a.unassigned[u0]);
        }
    }
    // nothing lost
    assert forall|q: i32| 0 <= q < p.reservations.len() implies #[trigger] b.unassigned.contains(q)
        || b.is_served(q) by {
        if q == r {
            assert(b.served[v].contains(q));
        } else if a.unassigned.contains(q) {
            let u = choose|u: int| 0 <= u < a.unassigned.len() && a.unassigned[u] == q;
            let u1 = if u < at { u } else { u - 1 };
            assert(b.unassigned[u1] == q);
        } else {
            assert(a.is_served(q));
            let w = choose|w: int| 0 <= w < a.served.len() && (#[trigger] a.served[w]).contains(q);
            let i = choose|i: int| 0 <= i < a.served[w].len() && a.served[w][i] == q;
            assert(b.served[w][i] == q);
            assert(b.served[w].contains(q));
        }
    }
    // nobody serves two reservations that interfere
    assert forall|w: int, i: int, j: int|
        0 <= w < b.served.len() && 0 <= i < b.served[w].len() && 0 <= j < b.served[w].len() && i
            != j implies !crate::model::interferes(
        p.res(#[trigger] b.served[w][i] as int),
        p.res(#[trigger] b.served[w][j] as int),
    ) by {
        if w == v && i == old_len {
            assert(b.served[w][j] == a.served[v][j]);
        } else if w == v && j == old_len {
            assert(b.served[w][i] == a.served[v][i]);
        } else {
            assert(b.served[w][i] == a.served[w][i]);
            assert(b.served[w][j] == a.served[w][j]);
        }
    }
}

/// Placing a reservation on a vehicle that may serve it keeps eligibility.
pub proof fn lemma_place_eligible(p: Problem, a: Assignment, r: i32, v: int)
    requires
        a.eligibility_kept(p),
        0 <= v < a.served.len(),
        p.may_serve(v, r as int),
    ensures
        a.place(r, v).eligibility_kept(p),
{
    let b = a.place(r, v);
    assert forall|w: int, i: int|
        0 <= w < b.served.len() && 0 <= i < b.served[w].len() implies p.may_serve(
        w,
        #[trigger] b.served[w][i] as int,
    ) by {
        if w == v && i == a.served[v].len() {
        } else {
            assert(b.served[w][i] == a.served[w][i]);
        }
    }
}

/// What a move keeps: the shape, well-formedness, and eligibility.
pub open spec fn keeps(p: Problem, a: Assignment, b: Assignment) -> bool {
    &&& b.shaped(p)
    &&& a.wf(p) ==> b.wf(p)
    &&& a.eligibility_kept(p) ==> b.eligibility_kept(p)
}

/// A placement that looks for room first keeps everything, provided the
/// vehicle may serve the reservation.
pub proof fn lemma_try_place_keeps(p: Problem, a: Assignment, r: i32, v: int)
    requires
        a.shaped(p),
        0 <= v < a.served.len(),
        0 <= r < p.reservations.len(),
        p.may_serve(v, r as int),
    ensures
        keeps(p, a, a.try_place(p, r, v)),
{
    if a.has_room(p, r, v) {
        lemma_place_shaped(p, a, r, v);
        if a.wf(p) {
            lemma_place_wf(p, a, r, v);
        }
        if a.eligibility_kept(p) {
            lemma_place_eligible(p, a, r, v);
        }
    }
}

/// The sweep over the vehicle's own zone keeps everything.
pub proof fn lemma_sweep_own_keeps(p: Problem, a: Assignment, v: int, cands: Seq<i32>, k: int)
    requires
        a.shaped(p),
        0 <= v < a.served.len(),
        names_reservations(p, cands),
        0 <= k <= cands.len(),
    ensures
        keeps(p, a, a.sweep_own(p, v, cands, k)),
    decreases k,
{
    if k > 0 {
        lemma_sweep_own_keeps(p, a, v, cands, k - 1);
        let b = a.sweep_own(p, v, cands, k - 1);
        if b.fits_own(p, v, cands[k - 1]) {
            lemma_try_place_keeps(p, b, cands[k - 1], v);
        }
    }
}

/// The sweep over the neighbouring zones keeps everything.
pub proof fn lemma_sweep_neighbour_keeps(
    p: Problem,
    a: Assignment,
    v: int,
    cands: Seq<i32>,
    k: int,
)
    requires
        a.shaped(p),
        0 <= v < a.served.len(),
        names_reservations(p, cands),
        0 <= k <= cands.len(),
    ensures
        keeps(p, a, a.sweep_neighbour(p, v, cands, k)),
    decreases k,
{
    if k > 0 {
        lemma_sweep_neighbour_keeps(p, a, v, cands, k - 1);
        let b = a.sweep_neighbour(p, v, cands, k - 1);
        if b.fits_neighbour(p, v, cands[k - 1]) {
            lemma_try_place_keeps(p, b, cands[k - 1], v);
        }
    }
}

/// Offering a reservation to the fleet keeps everything.
pub proof fn lemma_offer_keeps(p: Problem, a: Assignment, r: i32, k: int)
    requires
        a.shaped(p),
        0 <= r < p.reservations.len(),
        0 <= k <= a.served.len(),
    ensures
        keeps(p, a, a.offer(p, r, k)),
    decreases k,
{
    if k > 0 {
        lemma_offer_keeps(p, a, r, k - 1);
        let b = a.offer(p, r, k - 1);
        if b.fits_own(p, k - 1, r) {
            lemma_try_place_keeps(p, b, r, k - 1);
        }
    }
}

/// The sweep in which every candidate is offered to the fleet keeps
/// everything.
pub proof fn lemma_sweep_any_keeps(p: Problem, a: Assignment, cands: Seq<i32>, k: int)
    requires
        a.shaped(p),
        names_reservations(p, cands),
        0 <= k <= cands.len(),
    ensures
        keeps(p, a, a.sweep_any(p, cands, k)),
    decreases k,
{
    if k > 0 {
        lemma_sweep_any_keeps(p, a, cands, k - 1);
        let b = a.sweep_any(p, cands, k - 1);
        lemma_offer_keeps(p, b, cands[k - 1], b.served.len() as int);
    }
}

/// Whatever is left without repeats stood in the sequence, and a sequence
/// in which nothing repeats the entry before it is left as it is.
pub proof fn lemma_without_repeats(s: Seq<i32>)
    ensures
        forall|i: int|
            0 <= i < without_repeats(s).len() ==> s.contains(#[trigger] without_repeats(s)[i]),
        (forall|i: int| 0 < i < s.len() ==> s[i - 1] != #[trigger] s[i]) ==> without_repeats(s)
            == s,
    decreases s.len(),
{
    if s.len() > 1 {
        let t = s.drop_last();
        lemma_without_repeats(t);
        let d = without_repeats(t);
        assert forall|i: int| 0 <= i < without_repeats(s).len() implies s.contains(
            #[trigger] without_repeats(s)[i],
        ) by {
            if i < d.len() {
                assert(t.contains(d[i]));
                let j = choose|j: int| 0 <= j < t.len() && t[j] == d[i];
                assert(s[j] == d[i]);
            } else {
                assert(s[s.len() - 1] == without_repeats(s)[i]);
            }
        }
        if forall|i: int| 0 < i < s.len() ==> s[i - 1] != #[trigger] s[i] {
            assert forall|i: int| 0 < i < t.len() implies t[i - 1] != #[trigger] t[i] by {
                assert(s[i - 1] != s[i]);
            }
            assert(s[s.len() - 2] != s[s.len() - 1]);
            assert(d.push(s.last()) =~= s);
        }
    } else {
        assert forall|i: int| 0 <= i < without_repeats(s).len() implies s.contains(
            #[trigger] without_repeats(s)[i],
        ) by {
            assert(s[i] == without_repeats(s)[i]);
        }
    }
}

/// Handing back what a vehicle serves keeps everything.
pub proof fn lemma_unload_keeps(p: Problem, a: Assignment, v: int, zone: i32)
    requires
        a.shaped(p),
        0 <= v < a.served.len(),
    ensures
        keeps(p, a, a.unload(v, zone)),
{
    let b = a.unload(v, zone);
    let n = a.unassigned.len() as int;
    let joined = a.unassigned + a.served[v];
    lemma_without_repeats(joined);
    assert forall|i: int| 0 <= i < joined.len() implies #[trigger] joined[i] == (if i < n {
        a.unassigned[i]
    } else {
        a.served[v][i - n]
    }) by {}
    assert forall|i: int| 0 <= i < b.unassigned.len() implies 0 <= #[trigger] b.unassigned[i]
        < p.reservations.len() by {
        assert(joined.contains(b.unassigned[i]));
        let j = choose|j: int| 0 <= j < joined.len() && joined[j] == b.unassigned[i];
        if j < n {
            assert(0 <= a.unassigned[j] < p.reservations.len());
        } else {
            assert(0 <= a.served[v][j - n] < p.reservations.len());
        }
    }
    assert forall|w: int, i: int|
        0 <= w < b.served.len() && 0 <= i < b.served[w].len() implies w != v
        && #[trigger] b.served[w][i] == a.served[w][i] by {}
    if a.wf(p) {
        assert forall|i: int, j: int| 0 <= i < j < joined.len() implies #[trigger] joined[i]
            != #[trigger] joined[j] by {
            if j < n {
                assert(a.unassigned[i] != a.unassigned[j]);
            } else if i < n {
                assert(a.served[v][j - n] != a.unassigned[i]);
            } else {
                assert(a.served[v][i - n] != a.served[v][j - n]);
            }
        }
        assert forall|i: int| 0 < i < joined.len() implies joined[i - 1] != #[trigger] joined[i] by {
            assert(joined[i - 1] != joined[i]);
        }
        assert(b.unassigned == joined);
        assert forall|w: int, i: int, u: int|
            0 <= w < b.served.len() && 0 <= i < b.served[w].len() && 0 <= u
                < b.unassigned.len() implies #[trigger] b.served[w][i]
            != #[trigger] b.unassigned[u] by {
            if u < n {
                assert(a.served[w][i] != a.unassigned[u]);
            } else {
                assert(a.served[w][i] != a.served[v][u - n]);
            }
        }
        assert forall|q: i32|
            0 <= q < p.reservations.len() implies #[trigger] b.unassigned.contains(q)
            || b.is_served(q) by {
            if a.unassigned.contains(q) {
                let u = choose|u: int| 0 <= u < a.unassigned.len() && a.unassigned[u] == q;
                assert(b.unassigned[u] == q);
            } else {
                let w = choose|w: int|
                    0 <= w < a.served.len() && (#[trigger] a.served[w]).contains(q);
                let i = choose|i: int| 0 <= i < a.served[w].len() && a.served[w][i] == q;
                if w == v {
                    assert(b.unassigned[n + i] == q);
                } else {
                    assert(b.served[w][i] == q);
                    assert(b.served[w].contains(q));
                }
            }
        }
    }
}

/// Tidying the lists keeps everything, and changes nothing in a
/// well-formed assignment.
pub proof fn lemma_tidied_keeps(p: Problem, a: Assignment)
    requires
        a.shaped(p),
    ensures
        keeps(p, a, a.tidied()),
        a.wf(p) ==> a.tidied() == a,
{
    let b = a.tidied();
    assert forall|v: int, i: int| 0 <= v < b.served.len() && 0 <= i < b.served[v].len() implies (
    exists|j: int|
        0 <= j < a.served[v].len() && a.served[v][j] == #[trigger] b.served[v][i]) by {
        lemma_without_repeats(a.served[v]);
        assert(a.served[v].contains(b.served[v][i]));
    }
    assert forall|v: int, i: int| 0 <= v < b.served.len() && 0 <= i < b.served[v].len() implies 0
        <= #[trigger] b.served[v][i] < p.reservations.len() by {
        let j = choose|j: int| 0 <= j < a.served[v].len() && a.served[v][j] == b.served[v][i];
        assert(0 <= a.served[v][j] < p.reservations.len());
    }
    if a.eligibility_kept(p) {
        assert forall|v: int, i: int|
            0 <= v < b.served.len() && 0 <= i < b.served[v].len() implies p.may_serve(
            v,
            #[trigger] b.served[v][i] as int,
        ) by {
            let j = choose|j: int| 0 <= j < a.served[v].len() && a.served[v][j] == b.served[v][i];
            assert(p.may_serve(v, a.served[v][j] as int));
        }
    }
    if a.wf(p) {
        assert forall|v: int| 0 <= v < a.served.len() implies #[trigger] b.served[v]
            == a.served[v] by {
            lemma_without_repeats(a.served[v]);
            assert forall|i: int| 0 < i < a.served[v].len() implies a.served[v][i - 1]
                != #[trigger] a.served[v][i] by {
                assert(a.served[v][i - 1] != a.served[v][i]);
            }
        }
        assert(b.served =~= a.served);
    }
}

/// Moving a vehicle to a zone keeps everything.
pub proof fn lemma_relocate_keeps(p: Problem, a: Assignment, v: int, zone: i32)
    requires
        a.shaped(p),
        0 <= v < a.served.len(),
    ensures
        keeps(p, a, a.relocate(p, v, zone)),
{
    if a.zone_of[v] != zone {
        let a1 = a.unload(v, zone);
        lemma_unload_keeps(p, a, v, zone);
        let a2 = a1.sweep_own(p, v, a1.unassigned, a1.unassigned.len() as int);
        lemma_sweep_own_keeps(p, a1, v, a1.unassigned, a1.unassigned.len() as int);
        let a3 = a2.sweep_neighbour(p, v, a2.unassigned, a2.unassigned.len() as int);
        lemma_sweep_neighbour_keeps(p, a2, v, a2.unassigned, a2.unassigned.len() as int);
        let a4 = a3.sweep_any(p, a3.unassigned, a3.unassigned.len() as int);
        lemma_sweep_any_keeps(p, a3, a3.unassigned, a3.unassigned.len() as int);
        lemma_tidied_keeps(p, a4);
    }
}

/// A vehicle that `room_from` finds is one of the fleet, may serve the
/// reservation and has room for it.
pub proof fn lemma_room_from(p: Problem, a: Assignment, r: i32, from: int)
    requires
        0 <= from,
    ensures
        match a.room_from(p, r, from) {
            Some(v) => from <= v < a.served.len() && a.has_room(p, r, v) && a.fits_own(p, v, r),
            None => true,
        },
    decreases a.served.len() - from,
{
    if from < a.served.len() && !(a.fits_own(p, from, r) && a.has_room(p, r, from)) {
        lemma_room_from(p, a, r, from + 1);
    }
}

/// The move of a single reservation keeps everything.
pub proof fn lemma_rehome_keeps(p: Problem, a: Assignment, r: i32)
    requires
        a.shaped(p),
        0 <= r < p.reservations.len(),
    ensures
        keeps(p, a, a.rehome(p, r)),
{
    match a.rehome_target(p, r) {
        Some(v) => {
            lemma_room_from(p, a, r, 0);
            lemma_try_place_keeps(p, a, r, v);
        },
        None => {},
    }
}

} // verus!
