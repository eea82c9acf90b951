//! The moves of the search, as functions from assignment to assignment.

use vstd::prelude::*;
use crate::model::{first_index, Assignment, Problem};

verus! {

impl Assignment {
    /// Takes `r` from the unassigned and appends it to the list of `v`.
    pub open spec fn place(self, r: i32, v: int) -> Assignment {
        Assignment {
            zone_of: self.zone_of,
            served: self.served.update(v, self.served[v].push(r)),
            unassigned: self.unassigned.remove(first_index(self.unassigned, r)),
        }
    }

    /// Whether `r` waits for a vehicle and `v` has room for it in time.
    pub open spec fn has_room(self, p: Problem, r: i32, v: int) -> bool {
        !p.interferes_with_any(r as int, self.served[v]) && self.unassigned.contains(r)
    }

    /// Places `r` on `v` where `v` has room for it; else changes nothing.
    pub open spec fn try_place(self, p: Problem, r: i32, v: int) -> Assignment {
        if self.has_room(p, r, v) {
            self.place(r, v)
        } else {
            self
        }
    }

    /// Whether `r` waits in the zone where `v` stands and `v` may serve it.
    pub open spec fn fits_own(self, p: Problem, v: int, r: i32) -> bool {
        &&& p.res(r as int).zone == self.zone_of[v]
        &&& self.unassigned.contains(r)
        &&& p.may_serve(v, r as int)
    }

    /// Whether `r` waits in a zone next to the one where `v` stands and `v`
    /// may serve it.
    pub open spec fn fits_neighbour(self, p: Problem, v: int, r: i32) -> bool {
        &&& p.is_neighbour(self.zone_of[v], p.res(r as int).zone)
        &&& self.unassigned.contains(r)
        &&& p.may_serve(v, r as int)
    }

    /// Stations `v` in `zone`.
    pub open spec fn station(self, v: int, zone: i32) -> Assignment {
        Assignment { zone_of: self.zone_of.update(v, zone), ..self }
    }

    /// Goes through the first `k` candidates in order and gives `v` each one
    /// that waits in its zone, that it may serve and has room for.
    pub open spec fn sweep_own(self, p: Problem, v: int, cands: Seq<i32>, k: int) -> Assignment
        decreases k,
    {
        if k <= 0 {
            self
        } else {
            let a = self.sweep_own(p, v, cands, k - 1);
            let r = cands[k - 1];
            if a.fits_own(p, v, r) {
                a.try_place(p, r, v)
            } else {
                a
            }
        }
    }

    /// Goes through the first `k` candidates in order and gives `v` each one
    /// that waits in a neighbouring zone, that it may serve and has room for.
    pub open spec fn sweep_neighbour(
        self,
        p: Problem,
        v: int,
        cands: Seq<i32>,
        k: int,
    ) -> Assignment
        decreases k,
    {
        if k <= 0 {
            self
        } else {
            let a = self.sweep_neighbour(p, v, cands, k - 1);
            let r = cands[k - 1];
            if a.fits_neighbour(p, v, r) {
                a.try_place(p, r, v)
            } else {
                a
            }
        }
    }

    /// Offers `r` to the first `k` vehicles in order: the first one that
    /// stands in its zone, may serve it and has room for it gets it.
    pub open spec fn offer(self, p: Problem, r: i32, k: int) -> Assignment
        decreases k,
    {
        if k <= 0 {
            self
        } else {
            let a = self.offer(p, r, k - 1);
            if a.fits_own(p, k - 1, r) {
                a.try_place(p, r, k - 1)
            } else {
                a
            }
        }
    }

    /// Offers each of the first `k` candidates, in order, to the whole fleet.
    pub open spec fn sweep_any(self, p: Problem, cands: Seq<i32>, k: int) -> Assignment
        decreases k,
    {
        if k <= 0 {
            self
        } else {
            let a = self.sweep_any(p, cands, k - 1);
            a.offer(p, cands[k - 1], a.served.len() as int)
        }
    }

    /// Stations `v` in `zone` and hands what it served back to the
    /// unassigned, behind those that wait already; what then stands twice
    /// in a row stays once.
    pub open spec fn unload(self, v: int, zone: i32) -> Assignment {
        Assignment {
            zone_of: self.zone_of.update(v, zone),
            served: self.served.update(v, Seq::empty()),
            unassigned: without_repeats(self.unassigned + self.served[v]),
        }
    }

    /// In every list of a vehicle, what stands twice in a row stays once.
    pub open spec fn tidied(self) -> Assignment {
        Assignment {
            served: Seq::new(self.served.len(), |v: int| without_repeats(self.served[v])),
            ..self
        }
    }

    /// Moves `v` to `zone`. Nothing changes where it stands there already.
    /// Else it hands back what it served; then, going each time through
    /// those that wait at that moment, it takes what fits from its new zone,
    /// then what fits from the neighbouring zones, and last every waiting
    /// reservation is offered to the whole fleet. In the end the lists are
    /// tidied.
    pub open spec fn relocate(self, p: Problem, v: int, zone: i32) -> Assignment {
        if self.zone_of[v] == zone {
            self
        } else {
            let a1 = self.unload(v, zone);
            let a2 = a1.sweep_own(p, v, a1.unassigned, a1.unassigned.len() as int);
            let a3 = a2.sweep_neighbour(p, v, a2.unassigned, a2.unassigned.len() as int);
            a3.sweep_any(p, a3.unassigned, a3.unassigned.len() as int).tidied()
        }
    }
}

/// The sequence in which, of entries that repeat the one before them, only
/// the first is left.
pub open spec fn without_repeats(s: Seq<i32>) -> Seq<i32>
    decreases s.len(),
{
    if s.len() <= 1 {
        s
    } else if s[s.len() - 2] == s.last() {
        without_repeats(s.drop_last())
    } else {
        without_repeats(s.drop_last()).push(s.last())
    }
}

impl Assignment {
    /// The first vehicle from `from` on that serves `r`.
    pub open spec fn holder_from(self, r: i32, from: int) -> Option<int>
        decreases self.served.len() - from,
    {
        if from >= self.served.len() {
            None
        } else if self.served[from].contains(r) {
            Some(from)
        } else {
            self.holder_from(r, from + 1)
        }
    }

    /// The first vehicle from `from` on that stands in the zone of `r`, may
    /// serve it and has room for it, `r` waiting.
    pub open spec fn room_from(self, p: Problem, r: i32, from: int) -> Option<int>
        decreases self.served.len() - from,
    {
        if from >= self.served.len() {
            None
        } else if self.fits_own(p, from, r) && self.has_room(p, r, from) {
            Some(from)
        } else {
            self.room_from(p, r, from + 1)
        }
    }

    /// The vehicle that takes `r` when `r` looks for a vehicle in its own
    /// zone. There is none where the vehicle that serves `r` stands in the
    /// zone of `r` already. Else it is the first vehicle in that zone that
    /// may serve `r` and has room for it, provided `r` waits.
    pub open spec fn rehome_target(self, p: Problem, r: i32) -> Option<int> {
        match self.holder_from(r, 0) {
            Some(holder) => if self.zone_of[holder] == p.res(r as int).zone {
                None
            } else {
                self.room_from(p, r, 0)
            },
            None => self.room_from(p, r, 0),
        }
    }

    /// The move of a single reservation to a vehicle in its own zone.
    pub open spec fn rehome(self, p: Problem, r: i32) -> Assignment {
        match self.rehome_target(p, r) {
            Some(v) => self.place(r, v),
            None => self,
        }
    }
}

/// Whether every entry of `ids` names a reservation.
pub open spec fn names_reservations(p: Problem, ids: Seq<i32>) -> bool {
    forall|i: int| 0 <= i < ids.len() ==> 0 <= #[trigger] ids[i] < p.reservations.len()
}

} // verus!
