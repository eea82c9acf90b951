//! The mathematical model that the contracts speak of: the problem, an
//! assignment of reservations to vehicles, what makes an assignment
//! acceptable, and what it costs.

use vstd::prelude::*;
use crate::data_structs::{ReservationView, VehicleView, ZoneView};

verus! {

/// Zone of a vehicle that has not been stationed yet.
pub const NO_ZONE: i32 = -1;

/// Cost recorded for a checkpoint before any assignment was priced.
pub const UNPRICED: i32 = 1000000;

/// The input of the search. Reservations, vehicles and zones are found by
/// their ids, which are their positions.
pub struct Problem {
    pub reservations: Seq<ReservationView>,
    pub zones: Seq<ZoneView>,
    pub vehicles: Seq<VehicleView>,
}

/// Where every vehicle stands, which reservations it serves (in the order in
/// which it took them), and which reservations nobody serves.
pub struct Assignment {
    pub zone_of: Seq<i32>,
    pub served: Seq<Seq<i32>>,
    pub unassigned: Seq<i32>,
}

/// Last instant of a reservation's window.
pub open spec fn window_end(r: ReservationView) -> int {
    r.start + r.duration
}

/// Two reservations interfere when they fall on the same day and their
/// closed windows share an instant; windows that merely touch do interfere.
pub open spec fn interferes(a: ReservationView, b: ReservationView) -> bool {
    &&& a.day == b.day
    &&& a.start <= window_end(a)
    &&& b.start <= window_end(b)
    &&& a.start <= window_end(b)
    &&& b.start <= window_end(a)
}

/// The larger of the two penalties of a reservation, in absolute value: no
/// assignment charges more for it.
pub open spec fn penalty_cap(r: ReservationView) -> int {
    let a: int = if r.p1 < 0 { -r.p1 } else { r.p1 as int };
    let b: int = if r.p2 < 0 { -r.p2 } else { r.p2 as int };
    if a < b { b } else { a }
}

/// Sum of the penalty caps of the given reservations.
pub open spec fn penalty_total(rs: Seq<ReservationView>) -> int
    decreases rs.len(),
{
    if rs.len() == 0 {
        0
    } else {
        penalty_total(rs.drop_last()) + penalty_cap(rs.last())
    }
}

/// Position of the first reservation from `from` on that has the id; the
/// length where none has it.
pub open spec fn id_position(rs: Seq<ReservationView>, id: int, from: int) -> int
    decreases rs.len() - from,
{
    if from >= rs.len() {
        rs.len() as int
    } else if rs[from].id == id {
        from
    } else {
        id_position(rs, id, from + 1)
    }
}

/// The reservations in the order of their ids: at every position stands
/// the first reservation that has the position as its id.
pub open spec fn by_id(rs: Seq<ReservationView>) -> Seq<ReservationView> {
    Seq::new(rs.len(), |id: int| rs[id_position(rs, id, 0)])
}

impl Problem {
    /// The problem with its reservations in the order of their ids.
    pub open spec fn ordered(self) -> Problem {
        Problem { reservations: by_id(self.reservations), ..self }
    }

    /// The ids of the reservations are the positions in some order, the ids
    /// of vehicles and zones are their positions, and the vehicles that a
    /// reservation names exist.
    pub open spec fn orderable(self) -> bool {
        &&& self.sized()
        &&& forall|j: int|
            0 <= j < self.reservations.len() ==> 0 <= (#[trigger] self.reservations[j]).id
                < self.reservations.len()
        &&& forall|i: int, j: int|
            0 <= i < j < self.reservations.len() ==> (#[trigger] self.reservations[i]).id != (
            #[trigger] self.reservations[j]).id
        &&& forall|id: int|
            0 <= id < self.reservations.len() ==> #[trigger] id_position(self.reservations, id, 0)
                < self.reservations.len()
        &&& forall|v: int| 0 <= v < self.vehicles.len() ==> (#[trigger] self.vehicles[v]).id == v
        &&& forall|z: int| 0 <= z < self.zones.len() ==> (#[trigger] self.zones[z]).id == z
        &&& forall|r: int, k: int|
            0 <= r < self.reservations.len() && 0 <= k < self.reservations[r].eligible.len() ==> 0
                <= #[trigger] self.reservations[r].eligible[k] < self.vehicles.len()
    }

    /// A search can be made from the problem: it can be put in the order of
    /// its ids, and is then well formed.
    pub open spec fn admissible(self) -> bool {
        &&& self.orderable()
        &&& self.ordered().wf()
    }

    /// Every id fits in an `i32`.
    pub open spec fn sized(self) -> bool {
        &&& self.reservations.len() <= i32::MAX
        &&& self.vehicles.len() <= i32::MAX
        &&& self.zones.len() <= i32::MAX
    }

    /// Ids are positions, and the vehicles that a reservation names exist.
    pub open spec fn indexed(self) -> bool {
        &&& self.sized()
        &&& forall|r: int|
            0 <= r < self.reservations.len() ==> (#[trigger] self.reservations[r]).id == r
        &&& forall|v: int| 0 <= v < self.vehicles.len() ==> (#[trigger] self.vehicles[v]).id == v
        &&& forall|z: int| 0 <= z < self.zones.len() ==> (#[trigger] self.zones[z]).id == z
        &&& forall|r: int, k: int|
            0 <= r < self.reservations.len() && 0 <= k < self.reservations[r].eligible.len() ==> 0
                <= #[trigger] self.reservations[r].eligible[k] < self.vehicles.len()
    }

    /// Ids are positions, eligible vehicles exist, and no assignment can cost
    /// more than an `i32` holds.
    pub open spec fn wf(self) -> bool {
        &&& self.indexed()
        &&& penalty_total(self.reservations) <= i32::MAX
    }

    /// The reservation with the given id.
    pub open spec fn res(self, r: int) -> ReservationView {
        self.reservations[r]
    }

    /// Whether `r` has a window in common with a reservation of `list`.
    pub open spec fn interferes_with_any(self, r: int, list: Seq<i32>) -> bool {
        exists|i: int|
            0 <= i < list.len() && interferes(self.res(r), self.res(#[trigger] list[i] as int))
    }

    /// Whether vehicle `v` is among the vehicles that may serve `r`.
    pub open spec fn may_serve(self, v: int, r: int) -> bool {
        self.res(r).eligible.contains(v as i32)
    }

    /// Whether `zone` lies next to the zone with id `of`. A vehicle that
    /// stands nowhere has no neighbouring zone.
    pub open spec fn is_neighbour(self, of: i32, zone: i32) -> bool {
        0 <= of < self.zones.len() && self.zones[of as int].neighbours.contains(zone)
    }
}

/// Position of the first `x` in `s`; the length of `s` where there is none.
pub open spec fn first_index(s: Seq<i32>, x: i32) -> int
    decreases s.len(),
{
    if s.len() == 0 {
        0
    } else if s[0] == x {
        0
    } else {
        1 + first_index(s.drop_first(), x)
    }
}

impl Assignment {
    /// The assignment in which nobody is stationed and nothing is served.
    pub open spec fn empty(vehicles: nat, reservations: nat) -> Assignment {
        Assignment {
            zone_of: Seq::new(vehicles, |v: int| NO_ZONE),
            served: Seq::new(vehicles, |v: int| Seq::<i32>::empty()),
            unassigned: Seq::new(reservations, |r: int| r as i32),
        }
    }

    /// One entry per vehicle, and every entry names a reservation.
    pub open spec fn shaped(self, p: Problem) -> bool {
        &&& self.zone_of.len() == p.vehicles.len()
        &&& self.served.len() == p.vehicles.len()
        &&& forall|v: int, i: int|
            0 <= v < self.served.len() && 0 <= i < self.served[v].len() ==> 0
                <= #[trigger] self.served[v][i] < p.reservations.len()
        &&& forall|i: int|
            0 <= i < self.unassigned.len() ==> 0 <= #[trigger] self.unassigned[i]
                < p.reservations.len()
    }

    /// Whether some vehicle serves `r`.
    pub open spec fn is_served(self, r: i32) -> bool {
        exists|v: int| 0 <= v < self.served.len() && (#[trigger] self.served[v]).contains(r)
    }

    /// Every reservation stands in exactly one place: once in the list of one
    /// vehicle, or once among the unassigned.
    pub open spec fn partitioned(self, p: Problem) -> bool {
        &&& forall|i: int, j: int|
            0 <= i < j < self.unassigned.len() ==> #[trigger] self.unassigned[i]
                != #[trigger] self.unassigned[j]
        &&& forall|v: int, i: int, w: int, j: int|
            0 <= v < self.served.len() && 0 <= i < self.served[v].len() && 0 <= w
                < self.served.len() && 0 <= j < self.served[w].len() && (v != w || i != j)
                ==> #[trigger] self.served[v][i] != #[trigger] self.served[w][j]
        &&& forall|v: int, i: int, u: int|
            0 <= v < self.served.len() && 0 <= i < self.served[v].len() && 0 <= u
                < self.unassigned.len() ==> #[trigger] self.served[v][i]
                != #[trigger] self.unassigned[u]
        &&& forall|r: i32|
            0 <= r < p.reservations.len() ==> #[trigger] self.unassigned.contains(r)
                || self.is_served(r)
    }

    /// No vehicle serves two reservations that interfere.
    pub open spec fn interference_free(self, p: Problem) -> bool {
        forall|v: int, i: int, j: int|
            0 <= v < self.served.len() && 0 <= i < self.served[v].len() && 0 <= j
                < self.served[v].len() && i != j ==> !interferes(
                p.res(#[trigger] self.served[v][i] as int),
                p.res(#[trigger] self.served[v][j] as int),
            )
    }

    /// Every reservation that is served is served by a vehicle that may
    /// serve it.
    pub open spec fn eligibility_kept(self, p: Problem) -> bool {
        forall|v: int, i: int|
            0 <= v < self.served.len() && 0 <= i < self.served[v].len() ==> p.may_serve(
                v,
                #[trigger] self.served[v][i] as int,
            )
    }

    /// What every assignment that the search reaches satisfies: it is a
    /// partition of the reservations, no vehicle serves two reservations
    /// that interfere, and every vehicle may serve what it serves.
    pub open spec fn wf(self, p: Problem) -> bool {
        &&& self.shaped(p)
        &&& self.partitioned(p)
        &&& self.interference_free(p)
        &&& self.eligibility_kept(p)
    }
}

/// What `id_position` gives lies behind `from`; the id stands there and
/// nowhere between.
pub proof fn lemma_id_position(rs: Seq<ReservationView>, id: int, from: int)
    requires
        0 <= from <= rs.len(),
    ensures
        from <= id_position(rs, id, from) <= rs.len(),
        id_position(rs, id, from) < rs.len() ==> rs[id_position(rs, id, from)].id == id,
        forall|j: int| from <= j < id_position(rs, id, from) ==> (#[trigger] rs[j]).id != id,
    decreases rs.len() - from,
{
    if from < rs.len() && rs[from].id != id {
        lemma_id_position(rs, id, from + 1);
    }
}

/// Putting an orderable problem in the order of its ids keeps every
/// record, each at the position that is its id, and makes ids positions.
pub proof fn lemma_ordered(p: Problem)
    requires
        p.orderable(),
    ensures
        p.ordered().indexed(),
        p.ordered().reservations.len() == p.reservations.len(),
        forall|j: int|
            0 <= j < p.reservations.len() ==> p.ordered().reservations[(
            #[trigger] p.reservations[j]).id as int] == p.reservations[j],
{
    let rs = p.reservations;
    let q = p.ordered();
    assert forall|id: int| 0 <= id < rs.len() implies (#[trigger] q.reservations[id]).id == id by {
        lemma_id_position(rs, id, 0);
        assert(id_position(rs, id, 0) < rs.len());
    }
    assert forall|r: int, k: int|
        0 <= r < q.reservations.len() && 0 <= k < q.reservations[r].eligible.len() implies 0
        <= #[trigger] q.reservations[r].eligible[k] < q.vehicles.len() by {
        lemma_id_position(rs, r, 0);
        let at = id_position(rs, r, 0);
        assert(at < rs.len());
        assert(0 <= rs[at].eligible[k] < p.vehicles.len());
    }
    assert forall|j: int| 0 <= j < rs.len() implies q.reservations[(#[trigger] rs[j]).id as int]
        == rs[j] by {
        let id = rs[j].id as int;
        lemma_id_position(rs, id, 0);
        let at = id_position(rs, id, 0);
        assert(at <= j);
        if at < j {
            assert(rs[at].id != rs[j].id);
        }
    }
}

/// A problem whose ids are positions is in the order of its ids already.
pub proof fn lemma_indexed_is_ordered(p: Problem)
    requires
        p.indexed(),
    ensures
        p.orderable(),
        p.ordered() == p,
{
    let rs = p.reservations;
    assert forall|id: int| 0 <= id < rs.len() implies #[trigger] id_position(rs, id, 0)
        == id by {
        lemma_id_position(rs, id, 0);
        let at = id_position(rs, id, 0);
        assert(rs[id].id == id);
        if at < id {
            assert(rs[at].id == at);
        }
    }
    assert forall|i: int, j: int| 0 <= i < j < rs.len() implies (#[trigger] rs[i]).id != (
    #[trigger] rs[j]).id by {
        assert(rs[i].id == i && rs[j].id == j);
    }
    assert(by_id(rs) =~= rs);
}

} // verus!
