//! The input of the search: zones, vehicles and reservations.

use vstd::prelude::*;

verus! {

/// A region with its adjacent regions.
#[derive(Debug)]
pub struct Zone {
    pub id: i32,
    pub neighbours: Vec<i32>,
}

/// A vehicle of the fleet. Where it stands is part of the assignment, not of
/// the vehicle.
#[derive(Debug)]
pub struct Vehicle {
    pub id: i32,
    pub zone: Option<i32>,
}

/// A request for a vehicle during one time window.
///
/// `start` already carries the day offset, so two windows are compared only
/// once the days are known to be equal.
#[derive(Debug)]
pub struct Reservation {
    pub id: i32,
    pub zone: i32,
    pub day: i32,
    pub start: i32,
    pub restime: i32,
    pub possible_vehicles: Vec<i32>,
    pub p1: i32,
    pub p2: i32,
    pub vehicle: Option<i32>,
}

/// A [`Zone`] with its list as a sequence.
pub struct ZoneView {
    pub id: i32,
    pub neighbours: Seq<i32>,
}

/// A [`Vehicle`] as a plain value.
pub struct VehicleView {
    pub id: i32,
    pub zone: Option<i32>,
}

/// A [`Reservation`] with its list as a sequence. Its window is the closed
/// interval from `start` to `start + duration`.
pub struct ReservationView {
    pub id: i32,
    pub zone: i32,
    pub day: i32,
    pub start: i32,
    pub duration: i32,
    pub eligible: Seq<i32>,
    pub p1: i32,
    pub p2: i32,
    pub vehicle: Option<i32>,
}

impl View for Zone {
    type V = ZoneView;

    open spec fn view(&self) -> ZoneView {
        ZoneView { id: self.id, neighbours: self.neighbours@ }
    }
}

impl View for Vehicle {
    type V = VehicleView;

    open spec fn view(&self) -> VehicleView {
        VehicleView { id: self.id, zone: self.zone }
    }
}

impl View for Reservation {
    type V = ReservationView;

    open spec fn view(&self) -> ReservationView {
        ReservationView {
            id: self.id,
            zone: self.zone,
            day: self.day,
            start: self.start,
            duration: self.restime,
            eligible: self.possible_vehicles@,
            p1: self.p1,
            p2: self.p2,
            vehicle: self.vehicle,
        }
    }
}

} // verus!
