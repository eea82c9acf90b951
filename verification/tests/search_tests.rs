use carshare::data_structs::{Reservation, Vehicle, Zone};
use carshare::input::well_formed_input;
use carshare::ls::LocalSearch;

fn reservation(
    id: i32,
    zone: i32,
    day: i32,
    start: i32,
    restime: i32,
    possible_vehicles: Vec<i32>,
    p1: i32,
    p2: i32,
) -> Reservation {
    Reservation { id, zone, day, start, restime, possible_vehicles, p1, p2, vehicle: None }
}

fn zone(id: i32, neighbours: Vec<i32>) -> Zone {
    Zone { id, neighbours }
}

fn vehicle(id: i32) -> Vehicle {
    Vehicle { id, zone: None }
}

/// Two zones next to each other, two vehicles, three reservations: the
/// first and the third want the same window in zone 0, the second wants
/// another window in zone 1.
fn small_search() -> LocalSearch {
    let res = vec![
        reservation(0, 0, 0, 0, 60, vec![0, 1], 100, 10),
        reservation(1, 1, 0, 100, 60, vec![0], 100, 10),
        reservation(2, 0, 0, 0, 60, vec![1], 100, 10),
    ];
    let zon = vec![zone(0, vec![1]), zone(1, vec![0])];
    let veh = vec![vehicle(0), vehicle(1)];
    assert!(well_formed_input(&res, &zon, &veh));
    LocalSearch::new(res, zon, veh)
}

/// Every reservation stands once on one vehicle or once among the
/// unassigned.
fn is_partition(ls: &LocalSearch) -> bool {
    let mut seen = vec![0usize; ls.reservations.len()];
    for list in &ls.veh_to_res {
        for r in list {
            if *r < 0 || *r as usize >= seen.len() {
                return false;
            }
            seen[*r as usize] += 1;
        }
    }
    for r in &ls.unassigned {
        if *r < 0 || *r as usize >= seen.len() {
            return false;
        }
        seen[*r as usize] += 1;
    }
    seen.iter().all(|count| *count == 1)
}

fn no_interference(ls: &LocalSearch) -> bool {
    for list in &ls.veh_to_res {
        for (i, a) in list.iter().enumerate() {
            for (j, b) in list.iter().enumerate() {
                if i != j && ls.does_interfere(*a as usize, *b as usize) {
                    return false;
                }
            }
        }
    }
    true
}

fn eligibility_kept(ls: &LocalSearch) -> bool {
    for (v, list) in ls.veh_to_res.iter().enumerate() {
        for r in list {
            if !ls.reservations[*r as usize].possible_vehicles.contains(&(v as i32)) {
                return false;
            }
        }
    }
    true
}

#[test]
fn new_search_has_everything_unassigned() {
    let ls = small_search();
    assert_eq!(ls.unassigned, vec![0, 1, 2]);
    assert_eq!(ls.veh_to_res, vec![Vec::<i32>::new(), Vec::<i32>::new()]);
    assert_eq!(ls.veh_to_zon, vec![-1, -1]);
    assert_eq!(ls.best_cost, 1000000);
    assert_eq!(ls.local_cost, 1000000);
    assert_eq!(ls.local_unassigned, vec![0, 1, 2]);
    assert_eq!(ls.best_unassigned, vec![0, 1, 2]);
    assert_eq!(ls.calculate_full_cost(), 300);
    assert!(ls.check_all());
}

#[test]
fn touching_windows_interfere() {
    let res = vec![
        reservation(0, 0, 0, 0, 10, vec![0], 1, 1),
        reservation(1, 0, 0, 10, 5, vec![0], 1, 1),
        reservation(2, 0, 0, 11, 5, vec![0], 1, 1),
        reservation(3, 0, 1, 0, 10, vec![0], 1, 1),
    ];
    let ls = LocalSearch::new(res, vec![zone(0, vec![])], vec![vehicle(0)]);
    assert!(ls.does_interfere(0, 1));
    assert!(ls.does_interfere(1, 0));
    assert!(!ls.does_interfere(0, 2));
    assert!(!ls.does_interfere(2, 0));
    assert!(ls.does_interfere(1, 2));
    assert!(ls.does_interfere(0, 0));
}

#[test]
fn other_day_never_interferes() {
    let res = vec![
        reservation(0, 0, 0, 0, 10, vec![0], 1, 1),
        reservation(1, 0, 1, 0, 10, vec![0], 1, 1),
    ];
    let ls = LocalSearch::new(res, vec![zone(0, vec![])], vec![vehicle(0)]);
    assert!(!ls.does_interfere(0, 1));
    assert!(!ls.does_interfere(1, 0));
}

#[test]
fn empty_window_interferes_with_nothing() {
    let res = vec![
        reservation(0, 0, 0, 5, -1, vec![0], 1, 1),
        reservation(1, 0, 0, 0, 10, vec![0], 1, 1),
    ];
    let ls = LocalSearch::new(res, vec![zone(0, vec![])], vec![vehicle(0)]);
    assert!(!ls.does_interfere(0, 1));
    assert!(!ls.does_interfere(1, 0));
    assert!(!ls.does_interfere(0, 0));
}

#[test]
fn window_arithmetic_does_not_overflow() {
    let res = vec![
        reservation(0, 0, 0, i32::MAX, i32::MAX, vec![0], 1, 1),
        reservation(1, 0, 0, i32::MAX, 1, vec![0], 1, 1),
    ];
    let ls = LocalSearch::new(res, vec![zone(0, vec![])], vec![vehicle(0)]);
    assert!(ls.does_interfere(0, 1));
}

#[test]
fn list_interference_looks_at_every_member() {
    let res = vec![
        reservation(0, 0, 0, 0, 10, vec![0], 1, 1),
        reservation(1, 0, 0, 20, 5, vec![0], 1, 1),
        reservation(2, 0, 0, 8, 5, vec![0], 1, 1),
    ];
    let ls = LocalSearch::new(res, vec![zone(0, vec![])], vec![vehicle(0)]);
    assert!(!ls.does_list_interfere(0, &vec![]));
    assert!(!ls.does_list_interfere(0, &vec![1]));
    assert!(ls.does_list_interfere(0, &vec![1, 2]));
    assert!(!ls.does_list_interfere(1, &vec![0, 2]));
}

#[test]
fn cost_of_one_reservation_in_three_places() {
    let res = vec![reservation(0, 0, 0, 0, 10, vec![0], 50, 20)];
    let mut ls = LocalSearch::new(res, vec![zone(0, vec![1]), zone(1, vec![0])], vec![vehicle(0)]);
    assert_eq!(ls.calculate_full_cost(), 50);
    ls.assign_zon_to_veh(0, 0);
    ls.assign_veh_to_res(0, 0);
    assert_eq!(ls.calculate_cost(0, 0), 0);
    assert_eq!(ls.calculate_full_cost(), 0);
    ls.assign_zon_to_veh(0, 1);
    assert_eq!(ls.calculate_cost(0, 0), 20);
    assert_eq!(ls.calculate_full_cost(), 20);
}

#[test]
fn neighbouring_zone_costs_the_full_second_penalty() {
    let res = vec![
        reservation(0, 0, 0, 0, 10, vec![0], 50, 20),
        reservation(1, 2, 0, 20, 10, vec![0], 50, 30),
    ];
    let zon = vec![zone(0, vec![1]), zone(1, vec![0]), zone(2, vec![])];
    let mut ls = LocalSearch::new(res, zon, vec![vehicle(0)]);
    ls.assign_zon_to_veh(0, 1);
    ls.assign_veh_to_res(0, 0);
    ls.assign_veh_to_res(0, 1);
    assert_eq!(ls.calculate_full_cost(), 50);
}

#[test]
fn cost_is_the_same_when_asked_twice() {
    let mut ls = small_search();
    ls.initialise();
    let first = ls.calculate_full_cost();
    let second = ls.calculate_full_cost();
    assert_eq!(first, second);
}

#[test]
fn construction_of_the_small_search() {
    let mut ls = small_search();
    ls.initialise();
    assert_eq!(ls.veh_to_zon, vec![1, 0]);
    assert_eq!(ls.veh_to_res, vec![vec![1, 0], vec![2]]);
    assert_eq!(ls.unassigned, Vec::<i32>::new());
    assert_eq!(ls.calculate_full_cost(), 10);
    assert!(ls.check_all());
    assert!(is_partition(&ls));
    assert!(no_interference(&ls));
    assert!(eligibility_kept(&ls));
}

#[test]
fn construction_gives_the_same_assignment_every_time() {
    let mut first = small_search();
    first.initialise();
    let mut second = small_search();
    second.initialise();
    assert_eq!(first.veh_to_res, second.veh_to_res);
    assert_eq!(first.veh_to_zon, second.veh_to_zon);
    assert_eq!(first.unassigned, second.unassigned);
    first.initialise();
    assert_eq!(first.veh_to_res, second.veh_to_res);
    assert_eq!(first.veh_to_zon, second.veh_to_zon);
    assert_eq!(first.unassigned, second.unassigned);
}

#[test]
fn scarcest_reservations_come_first() {
    let res = vec![
        reservation(0, 0, 0, 0, 10, vec![0, 1, 2], 1, 1),
        reservation(1, 0, 0, 0, 10, vec![0], 1, 1),
        reservation(2, 0, 0, 0, 10, vec![0, 1], 1, 1),
        reservation(3, 0, 0, 0, 10, vec![2], 1, 1),
        reservation(4, 0, 0, 0, 10, vec![], 1, 1),
    ];
    let ls = LocalSearch::new(res, vec![zone(0, vec![])], vec![vehicle(0), vehicle(1), vehicle(2)]);
    assert_eq!(ls.scarcest_first(), vec![4, 1, 3, 2, 0]);
}

#[test]
fn construction_leaves_a_spare_vehicle_without_zone() {
    let res = vec![reservation(0, 0, 0, 0, 10, vec![0], 5, 1)];
    let zon = vec![zone(0, vec![])];
    let veh = vec![vehicle(0), vehicle(1)];
    assert!(well_formed_input(&res, &zon, &veh));
    let mut ls = LocalSearch::new(res, zon, veh);
    ls.initialise();
    assert_eq!(ls.veh_to_zon, vec![0, -1]);
    assert_eq!(ls.veh_to_res, vec![vec![0], vec![]]);
    assert!(!ls.vehicle_possible_neighbour(1, 0));
}

#[test]
fn commit_then_restore_undoes_a_move() {
    let mut ls = small_search();
    ls.initialise();
    ls.commit();
    let lists = ls.veh_to_res.clone();
    let zones = ls.veh_to_zon.clone();
    let waiting = ls.unassigned.clone();
    assert_eq!(ls.local_cost, 10);
    ls.car_to_zone(1, 1);
    assert_ne!(ls.veh_to_zon, zones);
    ls.restore();
    assert_eq!(ls.veh_to_res, lists);
    assert_eq!(ls.veh_to_zon, zones);
    assert_eq!(ls.unassigned, waiting);
}

#[test]
fn moving_a_vehicle_to_its_own_zone_changes_nothing() {
    let mut ls = small_search();
    ls.initialise();
    let lists = ls.veh_to_res.clone();
    let zones = ls.veh_to_zon.clone();
    let waiting = ls.unassigned.clone();
    ls.car_to_zone(0, 1);
    ls.car_to_zone(1, 0);
    assert_eq!(ls.veh_to_res, lists);
    assert_eq!(ls.veh_to_zon, zones);
    assert_eq!(ls.unassigned, waiting);
}

#[test]
fn moving_a_vehicle_hands_out_its_load_anew() {
    let mut ls = small_search();
    ls.initialise();
    ls.car_to_zone(0, 0);
    assert_eq!(ls.veh_to_zon, vec![0, 0]);
    assert_eq!(ls.veh_to_res, vec![vec![0, 1], vec![2]]);
    assert_eq!(ls.unassigned, Vec::<i32>::new());
    assert_eq!(ls.calculate_full_cost(), 10);
    assert!(is_partition(&ls));
    assert!(no_interference(&ls));
    assert!(eligibility_kept(&ls));
    ls.car_to_zone(1, 1);
    assert_eq!(ls.veh_to_zon, vec![0, 1]);
    assert_eq!(ls.veh_to_res, vec![vec![0, 1], vec![2]]);
    assert_eq!(ls.unassigned, Vec::<i32>::new());
    assert_eq!(ls.calculate_full_cost(), 20);
    assert!(ls.check_all());
    assert!(is_partition(&ls));
}

#[test]
fn moving_a_vehicle_away_leaves_what_nobody_can_take() {
    let res = vec![
        reservation(0, 0, 0, 0, 10, vec![0], 100, 10),
        reservation(1, 0, 0, 5, 10, vec![0], 40, 10),
    ];
    let zon = vec![zone(0, vec![]), zone(1, vec![])];
    let mut ls = LocalSearch::new(res, zon, vec![vehicle(0)]);
    ls.initialise();
    assert_eq!(ls.veh_to_res, vec![vec![0]]);
    assert_eq!(ls.unassigned, vec![1]);
    assert_eq!(ls.calculate_full_cost(), 40);
    ls.car_to_zone(0, 1);
    assert_eq!(ls.veh_to_zon, vec![1]);
    assert_eq!(ls.veh_to_res, vec![Vec::<i32>::new()]);
    assert_eq!(ls.unassigned, vec![1, 0]);
    assert_eq!(ls.calculate_full_cost(), 140);
    assert!(ls.check_all());
    assert!(is_partition(&ls));
}

#[test]
fn last_sweep_reaches_other_vehicles() {
    let res = vec![
        reservation(0, 0, 0, 0, 10, vec![1], 100, 10),
        reservation(1, 1, 0, 0, 10, vec![0], 100, 10),
    ];
    let zon = vec![zone(0, vec![]), zone(1, vec![])];
    let veh = vec![vehicle(0), vehicle(1)];
    let mut ls = LocalSearch::new(res, zon, veh);
    ls.assign_zon_to_veh(1, 0);
    ls.car_to_zone(0, 1);
    assert_eq!(ls.veh_to_zon, vec![1, 0]);
    assert_eq!(ls.veh_to_res, vec![vec![1], vec![0]]);
    assert_eq!(ls.unassigned, Vec::<i32>::new());
}

#[test]
fn validity_check_finds_interference_and_loss() {
    let mut ls = small_search();
    ls.initialise();
    assert!(ls.check_all());
    ls.veh_to_res[1].push(0);
    assert!(!ls.check_all());
    ls.veh_to_res[1].pop();
    assert!(ls.check_all());
    ls.veh_to_res[1].pop();
    assert!(!ls.check_all());
    ls.unassigned.push(2);
    assert!(ls.check_all());
}

#[test]
fn single_reservation_moves_to_a_vehicle_in_its_zone() {
    let res = vec![
        reservation(0, 0, 0, 0, 10, vec![0], 100, 10),
        reservation(1, 1, 0, 0, 10, vec![1], 100, 10),
    ];
    let zon = vec![zone(0, vec![]), zone(1, vec![])];
    let veh = vec![vehicle(0), vehicle(1)];
    let mut ls = LocalSearch::new(res, zon, veh);
    ls.assign_zon_to_veh(0, 0);
    ls.assign_zon_to_veh(1, 1);
    ls.small_operator(0);
    assert_eq!(ls.veh_to_res, vec![vec![0], vec![]]);
    assert_eq!(ls.unassigned, vec![1]);
    ls.small_operator(1);
    assert_eq!(ls.veh_to_res, vec![vec![0], vec![1]]);
    assert_eq!(ls.unassigned, Vec::<i32>::new());
    ls.small_operator(1);
    assert_eq!(ls.veh_to_res, vec![vec![0], vec![1]]);
}

#[test]
fn single_reservation_stays_off_a_vehicle_that_may_not_serve_it() {
    let res = vec![reservation(0, 0, 0, 0, 10, vec![0], 100, 10)];
    let zon = vec![zone(0, vec![]), zone(1, vec![])];
    let veh = vec![vehicle(0), vehicle(1)];
    let mut ls = LocalSearch::new(res, zon, veh);
    ls.assign_zon_to_veh(0, 1);
    ls.assign_zon_to_veh(1, 0);
    ls.small_operator(0);
    assert_eq!(ls.veh_to_res, vec![Vec::<i32>::new(), Vec::<i32>::new()]);
    assert_eq!(ls.unassigned, vec![0]);
    ls.commit();
    ls.record_best();
    assert!(!ls.optimise());
    assert_eq!(ls.veh_to_res, vec![Vec::<i32>::new(), Vec::<i32>::new()]);
    assert_eq!(ls.unassigned, vec![0]);
    assert!(eligibility_kept(&ls));
}

#[test]
fn single_reservation_needs_room() {
    let res = vec![
        reservation(0, 0, 0, 0, 10, vec![0, 1], 100, 10),
        reservation(1, 0, 0, 5, 10, vec![0, 1], 100, 10),
    ];
    let zon = vec![zone(0, vec![])];
    let veh = vec![vehicle(0), vehicle(1)];
    let mut ls = LocalSearch::new(res, zon, veh);
    ls.assign_zon_to_veh(0, 0);
    ls.assign_zon_to_veh(1, 0);
    ls.assign_veh_to_res(0, 0);
    ls.small_operator(1);
    assert_eq!(ls.veh_to_res, vec![vec![0], vec![1]]);
}

#[test]
fn single_reservation_that_is_served_stays() {
    let mut ls = small_search();
    ls.initialise();
    let lists = ls.veh_to_res.clone();
    ls.small_operator(0);
    assert_eq!(ls.veh_to_res, lists);
}

#[test]
fn placement_needs_room_and_a_waiting_reservation() {
    let mut ls = small_search();
    assert!(ls.set_vehicle_if_not_interfere(0, 1));
    assert!(!ls.set_vehicle_if_not_interfere(0, 0));
    assert!(!ls.set_vehicle_if_not_interfere(2, 1));
    assert!(ls.set_vehicle_if_not_interfere(1, 1));
    assert_eq!(ls.veh_to_res, vec![vec![], vec![0, 1]]);
    assert_eq!(ls.unassigned, vec![2]);
}

#[test]
fn own_zone_and_neighbour_zone_candidates() {
    let mut ls = small_search();
    ls.assign_zon_to_veh(0, 1);
    assert!(ls.vehicle_possible_own(0, 1));
    assert!(!ls.vehicle_possible_own(0, 0));
    assert!(ls.vehicle_possible_neighbour(0, 0));
    assert!(!ls.vehicle_possible_neighbour(0, 1));
    assert!(!ls.vehicle_possible_neighbour(0, 2));
    assert!(!ls.vehicle_possible_neighbour(1, 0));
}

#[test]
fn polishing_keeps_what_is_cheaper_than_the_best() {
    let res = vec![reservation(0, 1, 0, 0, 10, vec![1], 100, 10)];
    let zon = vec![zone(0, vec![]), zone(1, vec![])];
    let veh = vec![vehicle(0), vehicle(1)];
    let mut ls = LocalSearch::new(res, zon, veh);
    ls.assign_zon_to_veh(0, 0);
    ls.assign_zon_to_veh(1, 1);
    ls.commit();
    assert_eq!(ls.local_cost, 100);
    assert!(ls.optimise());
    assert_eq!(ls.local_cost, 0);
    assert_eq!(ls.local_veh_to_res, vec![vec![], vec![0]]);
    assert_eq!(ls.best_cost, 1000000);
    ls.record_best();
    assert_eq!(ls.best_cost, 0);
    assert_eq!(ls.best_veh_to_res, vec![vec![], vec![0]]);
    assert!(!ls.optimise());
}

#[test]
fn recording_keeps_the_cheaper_checkpoint() {
    let mut ls = small_search();
    ls.initialise();
    ls.commit();
    ls.record_best();
    assert_eq!(ls.best_cost, 10);
    ls.car_to_zone(1, 1);
    ls.commit();
    assert_eq!(ls.local_cost, 20);
    ls.record_best();
    assert_eq!(ls.best_cost, 10);
    assert_eq!(ls.best_veh_to_res, vec![vec![1, 0], vec![2]]);
}

#[test]
fn one_iteration_on_the_small_search() {
    let mut ls = small_search();
    ls.initialise();
    ls.commit();
    ls.record_best();
    let age = ls.step(1, 1);
    assert_eq!(age, 2);
    assert_eq!(ls.best_cost, 10);
    assert_eq!(ls.veh_to_res, ls.local_veh_to_res);
    assert_eq!(ls.veh_to_zon, ls.local_veh_to_zon);
    assert!(is_partition(&ls));
    assert!(no_interference(&ls));
}

#[test]
fn an_iteration_that_improves_resets_the_age() {
    let res = vec![reservation(0, 1, 0, 0, 10, vec![0], 100, 10)];
    let zon = vec![zone(0, vec![]), zone(1, vec![])];
    let veh = vec![vehicle(0)];
    let mut ls = LocalSearch::new(res, zon, veh);
    ls.assign_zon_to_veh(0, 0);
    ls.commit();
    ls.record_best();
    assert_eq!(ls.best_cost, 100);
    let age = ls.step(0, 7);
    assert_eq!(age, 1);
    assert_eq!(ls.best_cost, 0);
    assert_eq!(ls.veh_to_zon, vec![1]);
    assert_eq!(ls.veh_to_res, vec![vec![0]]);
}

#[test]
fn margin_grows_with_age() {
    assert_eq!(carshare::driver::margin(1), 0);
    assert_eq!(carshare::driver::margin(100), 0);
    assert_eq!(carshare::driver::margin(101), 70);
}

#[test]
fn a_search_without_time_reports_the_first_assignment() {
    let mut ls = small_search();
    ls.run(0, 1);
    assert_eq!(ls.best_cost, 10);
    assert_eq!(ls.veh_to_zon, vec![1, 0]);
    assert_eq!(ls.veh_to_res, vec![vec![1, 0], vec![2]]);
    assert_eq!(ls.unassigned, Vec::<i32>::new());
    assert_eq!(ls.calculate_full_cost(), ls.best_cost);
}

#[test]
fn a_search_without_vehicles_leaves_everything_unassigned() {
    let res = vec![reservation(0, 0, 0, 0, 10, vec![], 7, 1)];
    let mut ls = LocalSearch::new(res, vec![zone(0, vec![])], vec![]);
    ls.run(1, 3);
    assert_eq!(ls.best_cost, 7);
    assert_eq!(ls.unassigned, vec![0]);
}

#[test]
fn end_to_end_on_the_small_search() {
    let mut ls = small_search();
    ls.run(1, 42);
    assert!(ls.best_cost <= 200);
    assert_eq!(ls.best_cost, 10);
    assert_eq!(ls.calculate_full_cost(), ls.best_cost);
    assert!(ls.check_all());
    assert!(is_partition(&ls));
    assert!(no_interference(&ls));
    assert!(ls.veh_to_res.iter().any(|list| list.contains(&0)));
    assert!(ls.veh_to_res.iter().any(|list| list.contains(&1)));
}

#[test]
fn input_check_refuses_ids_that_are_not_positions() {
    let zon = vec![zone(0, vec![])];
    assert!(!well_formed_input(
        &vec![reservation(1, 0, 0, 0, 10, vec![0], 1, 1)],
        &zon,
        &vec![vehicle(0)]
    ));
    assert!(!well_formed_input(
        &vec![reservation(0, 0, 0, 0, 10, vec![0], 1, 1)],
        &zon,
        &vec![vehicle(3)]
    ));
    assert!(!well_formed_input(
        &vec![reservation(0, 0, 0, 0, 10, vec![0], 1, 1)],
        &vec![zone(2, vec![])],
        &vec![vehicle(0)]
    ));
    assert!(well_formed_input(
        &vec![reservation(0, 0, 0, 0, 10, vec![0], 1, 1)],
        &zon,
        &vec![vehicle(0)]
    ));
}

#[test]
fn input_check_refuses_unknown_vehicles_and_too_large_penalties() {
    let zon = vec![zone(0, vec![])];
    let veh = vec![vehicle(0)];
    assert!(!well_formed_input(&vec![reservation(0, 0, 0, 0, 10, vec![1], 1, 1)], &zon, &veh));
    assert!(!well_formed_input(&vec![reservation(0, 0, 0, 0, 10, vec![-1], 1, 1)], &zon, &veh));
    assert!(well_formed_input(
        &vec![reservation(0, 0, 0, 0, 10, vec![0], i32::MAX, -5)],
        &zon,
        &veh
    ));
    assert!(!well_formed_input(
        &vec![
            reservation(0, 0, 0, 0, 10, vec![0], i32::MAX, 0),
            reservation(1, 0, 0, 0, 10, vec![0], 0, -1)
        ],
        &zon,
        &veh
    ));
    assert!(!well_formed_input(&vec![reservation(0, 0, 0, 0, 10, vec![0], i32::MIN, 0)], &zon, &veh));
}

/// Vehicle 0 stands in zone 0 and serves reservation 0 there; reservation 1
/// waits in zone 1, where vehicle 1 stands idle. No zone has a neighbour.
fn stalled_search() -> LocalSearch {
    let res = vec![
        reservation(0, 0, 0, 0, 10, vec![0], 1000, 10),
        reservation(1, 1, 0, 0, 10, vec![1], 100, 10),
    ];
    let zon = vec![zone(0, vec![]), zone(1, vec![])];
    let veh = vec![vehicle(0), vehicle(1)];
    assert!(well_formed_input(&res, &zon, &veh));
    let mut ls = LocalSearch::new(res, zon, veh);
    ls.assign_zon_to_veh(0, 0);
    ls.assign_zon_to_veh(1, 1);
    ls.assign_veh_to_res(0, 0);
    ls.commit();
    ls.record_best();
    ls
}

#[test]
fn a_young_search_is_not_polished() {
    let mut ls = stalled_search();
    assert_eq!(ls.step(0, 29), 30);
    assert_eq!(ls.best_cost, 100);
    assert_eq!(ls.veh_to_res, vec![vec![0], vec![]]);
    assert_eq!(ls.unassigned, vec![1]);
}

#[test]
fn a_stalled_search_is_polished() {
    let mut ls = stalled_search();
    assert_eq!(ls.step(0, 30), 1);
    assert_eq!(ls.best_cost, 0);
    assert_eq!(ls.local_cost, 0);
    assert_eq!(ls.veh_to_res, vec![vec![0], vec![1]]);
    assert_eq!(ls.unassigned, Vec::<i32>::new());
}

#[test]
fn an_old_search_lets_costlier_assignments_through() {
    let mut ls = small_search();
    ls.initialise();
    ls.commit();
    ls.record_best();
    assert_eq!(ls.step(1, 100), 101);
    assert_eq!(ls.local_cost, 10);
    assert_eq!(ls.veh_to_zon, vec![1, 0]);
    assert_eq!(ls.step(1, 101), 1);
    assert_eq!(ls.local_cost, 20);
    assert_eq!(ls.best_cost, 10);
    assert_eq!(ls.veh_to_zon, vec![1, 1]);
    assert_eq!(ls.best_veh_to_zon, vec![1, 0]);
}

#[test]
fn repeats_in_a_row_are_removed() {
    assert_eq!(carshare::operators::dedup(&vec![1, 1, 2, 2, 2, 3, 1, 1]), vec![1, 2, 3, 1]);
    assert_eq!(carshare::operators::dedup(&vec![]), Vec::<i32>::new());
    assert_eq!(carshare::operators::dedup(&vec![5]), vec![5]);
}

#[test]
fn closing_reports_the_best_checkpoint() {
    let mut ls = small_search();
    ls.initialise();
    ls.commit();
    ls.record_best();
    ls.car_to_zone(1, 1);
    ls.commit();
    ls.close();
    assert_eq!(ls.veh_to_zon, vec![1, 0]);
    assert_eq!(ls.veh_to_res, vec![vec![1, 0], vec![2]]);
    assert_eq!(ls.best_cost, 10);
    assert_eq!(ls.calculate_full_cost(), 10);
}

#[test]
fn reservations_in_any_order_are_put_in_the_order_of_their_ids() {
    let res = vec![
        reservation(2, 0, 0, 0, 60, vec![1], 100, 10),
        reservation(0, 0, 0, 0, 60, vec![0, 1], 100, 10),
        reservation(1, 1, 0, 100, 60, vec![0], 100, 10),
    ];
    let zon = vec![zone(0, vec![1]), zone(1, vec![0])];
    let veh = vec![vehicle(0), vehicle(1)];
    assert!(well_formed_input(&res, &zon, &veh));
    let mut ls = LocalSearch::new(res, zon, veh);
    assert_eq!(ls.claim_order(), vec![2, 1, 0]);
    ls.initialise();
    assert_eq!(ls.reservations.iter().map(|r| r.id).collect::<Vec<i32>>(), vec![0, 1, 2]);
    assert_eq!(ls.reservations[0].possible_vehicles, vec![0, 1]);
    assert_eq!(ls.reservations[1].zone, 1);
    assert_eq!(ls.reservations[2].possible_vehicles, vec![1]);
    assert_eq!(ls.veh_to_zon, vec![1, 0]);
    assert_eq!(ls.veh_to_res, vec![vec![1, 0], vec![2]]);
    assert_eq!(ls.unassigned, Vec::<i32>::new());
    assert_eq!(ls.calculate_full_cost(), 10);
}

#[test]
fn equally_scarce_reservations_claim_in_the_order_of_the_input() {
    let res = vec![
        reservation(1, 1, 0, 0, 60, vec![0], 100, 10),
        reservation(0, 0, 0, 0, 60, vec![0], 100, 10),
    ];
    let zon = vec![zone(0, vec![]), zone(1, vec![])];
    let veh = vec![vehicle(0)];
    assert!(well_formed_input(&res, &zon, &veh));
    let mut ls = LocalSearch::new(res, zon, veh);
    ls.run(0, 1);
    assert_eq!(ls.reservations.iter().map(|r| r.id).collect::<Vec<i32>>(), vec![0, 1]);
    assert_eq!(ls.veh_to_zon, vec![1]);
    assert_eq!(ls.veh_to_res, vec![vec![1]]);
    assert_eq!(ls.unassigned, vec![0]);
    assert_eq!(ls.best_cost, 100);
}

#[test]
fn input_check_refuses_ids_that_occur_twice_or_not_at_all() {
    let zon = vec![zone(0, vec![])];
    let veh = vec![vehicle(0)];
    assert!(!well_formed_input(
        &vec![reservation(0, 0, 0, 0, 10, vec![0], 1, 1), reservation(0, 0, 0, 0, 10, vec![0], 1, 1)],
        &zon,
        &veh
    ));
    assert!(!well_formed_input(
        &vec![reservation(0, 0, 0, 0, 10, vec![0], 1, 1), reservation(2, 0, 0, 0, 10, vec![0], 1, 1)],
        &zon,
        &veh
    ));
    assert!(well_formed_input(
        &vec![reservation(1, 0, 0, 0, 10, vec![0], 1, 1), reservation(0, 0, 0, 0, 10, vec![0], 1, 1)],
        &zon,
        &veh
    ));
}

#[test]
fn the_first_assignment_is_recorded_whatever_it_costs() {
    let res = vec![
        reservation(0, 0, 0, 0, 10, vec![0], 10, 0),
        reservation(1, 0, 0, 0, 10, vec![], 1000000, 0),
    ];
    let zon = vec![zone(0, vec![])];
    let veh = vec![vehicle(0)];
    assert!(well_formed_input(&res, &zon, &veh));
    let mut ls = LocalSearch::new(res, zon, veh);
    ls.run(0, 1);
    assert_eq!(ls.best_cost, 1000000);
    assert_eq!(ls.veh_to_res, vec![vec![0]]);
    assert_eq!(ls.unassigned, vec![1]);
    assert_eq!(ls.calculate_full_cost(), 1000000);
}

#[test]
fn settling_replaces_a_checkpoint_that_was_never_priced() {
    let res = vec![reservation(0, 0, 0, 0, 10, vec![], 2000000, 0)];
    let mut ls = LocalSearch::new(res, vec![zone(0, vec![])], vec![vehicle(0)]);
    ls.assign_zon_to_veh(0, 0);
    ls.commit();
    assert_eq!(ls.local_cost, 2000000);
    ls.record_best();
    assert_eq!(ls.best_cost, 1000000);
    assert_eq!(ls.best_veh_to_zon, vec![-1]);
    ls.settle_best();
    assert_eq!(ls.best_cost, 2000000);
    assert_eq!(ls.best_veh_to_zon, vec![0]);
    ls.assign_zon_to_veh(0, -1);
    ls.commit();
    ls.settle_best();
    assert_eq!(ls.best_veh_to_zon, vec![0]);
}

#[test]
fn the_report_keeps_every_reservation_with_a_vehicle_that_may_serve_it() {
    let res = vec![
        reservation(0, 1, 0, 0, 10, vec![0], 100, 10),
        reservation(1, 0, 0, 0, 10, vec![1], 100, 10),
        reservation(2, 0, 0, 100, 10, vec![0], 100, 10),
    ];
    let zon = vec![zone(0, vec![]), zone(1, vec![])];
    let veh = vec![vehicle(0), vehicle(1)];
    assert!(well_formed_input(&res, &zon, &veh));
    let mut ls = LocalSearch::new(res, zon, veh);
    ls.run(0, 9);
    assert_eq!(ls.veh_to_res, vec![vec![0], vec![1]]);
    assert_eq!(ls.unassigned, vec![2]);
    assert_eq!(ls.best_cost, 100);
    assert!(eligibility_kept(&ls));
    let mut ls = small_search();
    ls.run(1, 7);
    assert!(eligibility_kept(&ls));
}
