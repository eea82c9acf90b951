//! The two moves of the neighbourhood: a vehicle changes its zone, and a
//! single reservation looks for a vehicle in its own zone.

use vstd::prelude::*;
use crate::invariants::{
    keeps, lemma_offer_keeps, lemma_rehome_keeps, lemma_relocate_keeps, lemma_sweep_any_keeps,
    lemma_sweep_neighbour_keeps, lemma_sweep_own_keeps, lemma_unload_keeps,
};
use crate::ls::{loads, position, LocalSearch, SearchView};
use crate::moves::{names_reservations, without_repeats};

verus! {

/// A copy of the list.
pub fn copy_ids(ids: &Vec<i32>) -> (copy: Vec<i32>)
    ensures
        copy@ == ids@,
{
    let mut copy: Vec<i32> = Vec::new();
    let mut i: usize = 0;
    while i < ids.len()
        invariant
            i <= ids.len(),
            copy@ == ids@.take(i as int),
        decreases ids.len() - i,
    {
        copy.push(ids[i]);
        assert(ids@.take(i as int).push(ids[i as int]) =~= ids@.take(i + 1));
        i += 1;
    }
    assert(ids@.take(ids.len() as int) =~= ids@);
    copy
}

/// A copy of the lists.
pub fn copy_loads(lists: &Vec<Vec<i32>>) -> (copy: Vec<Vec<i32>>)
    ensures
        loads(copy@) == loads(lists@),
{
    let mut copy: Vec<Vec<i32>> = Vec::new();
    let mut i: usize = 0;
    while i < lists.len()
        invariant
            i <= lists.len(),
            copy.len() == i,
            forall|k: int| 0 <= k < i ==> (#[trigger] copy[k])@ == lists[k]@,
        decreases lists.len() - i,
    {
        copy.push(copy_ids(&lists[i]));
        i += 1;
    }
    assert(loads(copy@) =~= loads(lists@));
    copy
}

/// Leaves, of entries that repeat the one before them, only the first.
pub fn dedup(list: &Vec<i32>) -> (kept: Vec<i32>)
    ensures
        kept@ == without_repeats(list@),
{
    let mut kept: Vec<i32> = Vec::new();
    let mut i: usize = 0;
    while i < list.len()
        invariant
            i <= list.len(),
            kept@ == without_repeats(list@.take(i as int)),
        decreases list.len() - i,
    {
        let ghost head = list@.take(i + 1);
        assert(head.drop_last() =~= list@.take(i as int));
        if i == 0 || list[i] != list[i - 1] {
            kept.push(list[i]);
            assert(kept@ =~= without_repeats(head)) by {
                if i == 0 {
                    assert(head =~= seq![list[0]]);
                    assert(list@.take(0) =~= Seq::<i32>::empty());
                }
            }
        } else {
            assert(head[head.len() - 2] == head.last());
        }
        i += 1;
    }
    assert(list@.take(list.len() as int) =~= list@);
    kept
}

impl LocalSearch {
    /// In every list of a vehicle, leaves what stands twice in a row once.
    pub fn tidy(&mut self)
        ensures
            final(self)@ == (SearchView { current: old(self).current().tidied(), ..old(self)@ }),
    {
        let ghost before = self@;
        let mut veh: usize = 0;
        while veh < self.veh_to_res.len()
            invariant
                veh <= self.veh_to_res.len() == before.current.served.len(),
                self@ == (SearchView { current: self.current(), ..before }),
                self.current().zone_of == before.current.zone_of,
                self.current().unassigned == before.current.unassigned,
                forall|w: int|
                    0 <= w < veh ==> (#[trigger] self.current().served[w]) == without_repeats(
                        before.current.served[w],
                    ),
                forall|w: int|
                    veh <= w < self.veh_to_res.len() ==> (#[trigger] self.current().served[w])
                        == before.current.served[w],
            decreases self.veh_to_res.len() - veh,
        {
            assert(self.current().served[veh as int] == self.veh_to_res[veh as int]@);
            let kept = dedup(&self.veh_to_res[veh]);
            let ghost lists = self.current().served;
            self.veh_to_res[veh] = kept;
            assert(self.current().served =~= lists.update(veh as int, kept@));
            veh += 1;
        }
        assert(self.current().served =~= before.current.tidied().served);
    }

    /// Gives the vehicle, from the candidates in order, what waits in its
    /// zone and fits.
    pub fn sweep_own(&mut self, veh: usize, cands: &Vec<i32>)
        requires
            old(self).ready(),
            veh < old(self).vehicle.len(),
            names_reservations(old(self).problem(), cands@),
        ensures
            final(self)@ == (SearchView {
                current: old(self).current().sweep_own(
                    old(self).problem(),
                    veh as int,
                    cands@,
                    cands.len() as int,
                ),
                ..old(self)@
            }),
            final(self).ready(),
    {
        let ghost before = self@;
        let mut k: usize = 0;
        while k < cands.len()
            invariant
                k <= cands.len(),
                before.current.shaped(before.problem),
                veh < before.problem.vehicles.len(),
                names_reservations(before.problem, cands@),
                self.ready(),
                self@ == (SearchView {
                    current: before.current.sweep_own(before.problem, veh as int, cands@, k as int),
                    ..before
                }),
            decreases cands.len() - k,
        {
            let res = cands[k];
            if self.vehicle_possible_own(veh, res as usize) {
                self.set_vehicle_if_not_interfere(res as usize, veh);
            }
            k += 1;
            proof {
                lemma_sweep_own_keeps(before.problem, before.current, veh as int, cands@, k as int);
            }
        }
    }

    /// Gives the vehicle, from the candidates in order, what waits in a
    /// neighbouring zone and fits.
    pub fn sweep_neighbour(&mut self, veh: usize, cands: &Vec<i32>)
        requires
            old(self).ready(),
            veh < old(self).vehicle.len(),
            names_reservations(old(self).problem(), cands@),
        ensures
            final(self)@ == (SearchView {
                current: old(self).current().sweep_neighbour(
                    old(self).problem(),
                    veh as int,
                    cands@,
                    cands.len() as int,
                ),
                ..old(self)@
            }),
            final(self).ready(),
    {
        let ghost before = self@;
        let mut k: usize = 0;
        while k < cands.len()
            invariant
                k <= cands.len(),
                before.current.shaped(before.problem),
                veh < before.problem.vehicles.len(),
                names_reservations(before.problem, cands@),
                self.ready(),
                self@ == (SearchView {
                    current: before.current.sweep_neighbour(
                        before.problem,
                        veh as int,
                        cands@,
                        k as int,
                    ),
                    ..before
                }),
            decreases cands.len() - k,
        {
            let res = cands[k];
            if self.vehicle_possible_neighbour(veh, res as usize) {
                self.set_vehicle_if_not_interfere(res as usize, veh);
            }
            k += 1;
            proof {
                lemma_sweep_neighbour_keeps(
                    before.problem,
                    before.current,
                    veh as int,
                    cands@,
                    k as int,
                );
            }
        }
    }

    /// Offers the reservation to every vehicle in turn.
    pub fn offer(&mut self, res: usize)
        requires
            old(self).ready(),
            res < old(self).reservations.len(),
        ensures
            final(self)@ == (SearchView {
                current: old(self).current().offer(
                    old(self).problem(),
                    res as i32,
                    old(self).vehicle.len() as int,
                ),
                ..old(self)@
            }),
            final(self).ready(),
    {
        let ghost before = self@;
        let mut veh: usize = 0;
        while veh < self.vehicle.len()
            invariant
                veh <= self.vehicle.len(),
                before.current.shaped(before.problem),
                res < before.problem.reservations.len(),
                self.ready(),
                self@ == (SearchView {
                    current: before.current.offer(before.problem, res as i32, veh as int),
                    ..before
                }),
            decreases self.vehicle.len() - veh,
        {
            if self.vehicle_possible_own(veh, res) {
                self.set_vehicle_if_not_interfere(res, veh);
            }
            veh += 1;
            proof {
                lemma_offer_keeps(before.problem, before.current, res as i32, veh as int);
            }
        }
    }

    /// Offers each candidate, in order, to the whole fleet.
    pub fn sweep_any(&mut self, cands: &Vec<i32>)
        requires
            old(self).ready(),
            names_reservations(old(self).problem(), cands@),
        ensures
            final(self)@ == (SearchView {
                current: old(self).current().sweep_any(
                    old(self).problem(),
                    cands@,
                    cands.len() as int,
                ),
                ..old(self)@
            }),
            final(self).ready(),
    {
        let ghost before = self@;
        let mut k: usize = 0;
        while k < cands.len()
            invariant
                k <= cands.len(),
                before.current.shaped(before.problem),
                names_reservations(before.problem, cands@),
                self.ready(),
                self@ == (SearchView {
                    current: before.current.sweep_any(before.problem, cands@, k as int),
                    ..before
                }),
            decreases cands.len() - k,
        {
            self.offer(cands[k] as usize);
            k += 1;
            proof {
                lemma_sweep_any_keeps(before.problem, before.current, cands@, k as int);
            }
        }
    }

    /// Moves the vehicle to the zone and hands out anew what it served.
    ///
    /// Nothing happens where the vehicle stands in the zone already. Else
    /// what it served goes back behind the unassigned, and three sweeps
    /// follow, each over those that wait when it starts: the vehicle takes
    /// what fits from its new zone, then what fits from neighbouring zones,
    /// and last every waiting reservation is offered to each vehicle that
    /// stands in its zone. Repeats are removed from the unassigned before
    /// the sweeps and from every list after them; a well-formed assignment
    /// holds none.
    pub fn car_to_zone(&mut self, veh_id: i32, zon_id: i32)
        requires
            old(self).ready(),
            0 <= veh_id < old(self).vehicle.len(),
        ensures
            final(self)@ == (SearchView {
                current: old(self).current().relocate(
                    old(self).problem(),
                    veh_id as int,
                    zon_id,
                ),
                ..old(self)@
            }),
            keeps(old(self).problem(), old(self).current(), final(self).current()),
    {
        let veh = veh_id as usize;
        proof {
            lemma_relocate_keeps(self.problem(), self.current(), veh as int, zon_id);
        }
        if zon_id == self.veh_to_zon[veh] {
            return ;
        }
        let ghost before = self@;
        self.unassigned.append(&mut self.veh_to_res[veh]);
        self.unassigned = dedup(&self.unassigned);
        self.veh_to_zon[veh] = zon_id;
        proof {
            assert(self.current().served =~= before.current.unload(veh as int, zon_id).served);
            lemma_unload_keeps(before.problem, before.current, veh as int, zon_id);
        }
        let cands = copy_ids(&self.unassigned);
        self.sweep_own(veh, &cands);
        let cands = copy_ids(&self.unassigned);
        self.sweep_neighbour(veh, &cands);
        let cands = copy_ids(&self.unassigned);
        self.sweep_any(&cands);
        self.tidy();
    }

    /// Lets the reservation look for a vehicle in its own zone.
    ///
    /// Nothing happens where the vehicle that serves it stands in its zone
    /// already. Else the vehicles that stand in its zone are tried in
    /// order; the first that may serve it and has room for it takes it,
    /// provided it waits. Vehicles of other zones are never tried.
    pub fn small_operator(&mut self, res_id: i32)
        requires
            old(self).ready(),
            0 <= res_id < old(self).reservations.len(),
        ensures
            final(self)@ == (SearchView {
                current: old(self).current().rehome(old(self).problem(), res_id),
                ..old(self)@
            }),
            keeps(old(self).problem(), old(self).current(), final(self).current()),
    {
        let ghost p = self.problem();
        let ghost a = self.current();
        proof {
            lemma_rehome_keeps(p, a, res_id);
        }
        let fleet = self.veh_to_res.len();
        let zon_res: i32 = self.reservations[res_id as usize].zone;
        let mut holder: Option<usize> = None;
        let mut veh: usize = 0;
        while veh < fleet
            invariant_except_break
                veh <= fleet,
                holder is None,
                a.holder_from(res_id, 0) == a.holder_from(res_id, veh as int),
            invariant
                fleet == self.veh_to_res.len(),
                a == self.current(),
            ensures
                match holder {
                    Some(h) => h < fleet && a.holder_from(res_id, 0) == Some(h as int),
                    None => a.holder_from(res_id, 0) is None,
                },
            decreases fleet - veh,
        {
            assert(a.served[veh as int] == self.veh_to_res[veh as int]@);
            if position(&self.veh_to_res[veh], res_id).is_some() {
                holder = Some(veh);
                break ;
            }
            veh += 1;
        }
        match holder {
            Some(veh_id) => {
                if self.veh_to_zon[veh_id] == zon_res {
                    return ;
                }
            },
            None => {},
        }
        let ghost before = self@;
        let mut veh: usize = 0;
        while veh < fleet
            invariant_except_break
                veh <= fleet,
                a == self.current(),
                self.ready(),
                self@ == before,
                a.rehome_target(p, res_id) == a.room_from(p, res_id, veh as int),
            invariant
                fleet == self.vehicle.len(),
                p == self.problem(),
                a == before.current,
                0 <= res_id < self.reservations.len(),
                keeps(p, a, a.rehome(p, res_id)),
            ensures
                self@ == (SearchView { current: a.rehome(p, res_id), ..before }),
            decreases fleet - veh,
        {
            if self.vehicle_possible_own(veh, res_id as usize) {
                if self.set_vehicle_if_not_interfere(res_id as usize, veh) {
                    break ;
                }
            }
            veh += 1;
        }
    }
}

} // verus!
