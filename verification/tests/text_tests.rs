use carshare::input::well_formed_input;
use carshare::ls::LocalSearch;
use carshare::output::{push_decimal, push_position, push_text};
use carshare::parser::{
    parse_count, parse_ids, parse_input, parse_number, parse_reservation, parse_tagged,
    parse_vehicle, parse_zone, split_bytes, strip_trailing_newline, InputError,
};

const SMALL: &str = "+Requests: 3\n\
req0;z0;0;0;60;v0,v1;100;10\n\
req1;z1;0;100;60;v0;100;10\n\
req2;z0;0;0;60;v1;100;10\n\
+Zones: 2\n\
z0;z1\n\
z1;z0\n\
+Vehicles: 2\n\
veh0\n\
veh1\n";

#[test]
fn numbers_are_read_with_and_without_sign() {
    assert_eq!(parse_number(b"0"), Some(0));
    assert_eq!(parse_number(b"42"), Some(42));
    assert_eq!(parse_number(b"-42"), Some(-42));
    assert_eq!(parse_number(b"+42"), Some(42));
    assert_eq!(parse_number(b"007"), Some(7));
    assert_eq!(parse_number(b"2147483647"), Some(i32::MAX));
    assert_eq!(parse_number(b"-2147483648"), Some(i32::MIN));
}

#[test]
fn what_is_no_number_is_refused() {
    assert_eq!(parse_number(b""), None);
    assert_eq!(parse_number(b"-"), None);
    assert_eq!(parse_number(b"+"), None);
    assert_eq!(parse_number(b"12a"), None);
    assert_eq!(parse_number(b" 12"), None);
    assert_eq!(parse_number(b"12\r"), None);
    assert_eq!(parse_number(b"2147483648"), None);
    assert_eq!(parse_number(b"-2147483649"), None);
    assert_eq!(parse_number(b"99999999999999999999999999"), None);
}

#[test]
fn end_of_line_is_stripped_once() {
    assert_eq!(strip_trailing_newline(b"abc\r"), b"abc");
    assert_eq!(strip_trailing_newline(b"abc\n"), b"abc");
    assert_eq!(strip_trailing_newline(b"abc"), b"abc");
    assert_eq!(strip_trailing_newline(b"abc\r\n"), b"abc\r");
    assert_eq!(strip_trailing_newline(b""), b"");
}

#[test]
fn splitting_keeps_empty_pieces() {
    assert_eq!(split_bytes(b"a;b;c", b';'), vec![b"a".to_vec(), b"b".to_vec(), b"c".to_vec()]);
    assert_eq!(split_bytes(b"", b';'), vec![Vec::<u8>::new()]);
    assert_eq!(split_bytes(b";a;", b';'), vec![b"".to_vec(), b"a".to_vec(), b"".to_vec()]);
    assert_eq!(split_bytes(b"abc", b';'), vec![b"abc".to_vec()]);
}

#[test]
fn tagged_numbers_need_their_tag() {
    assert_eq!(parse_tagged(b"req12", "req", false), Some(12));
    assert_eq!(parse_tagged(b"z3", "z", false), Some(3));
    assert_eq!(parse_tagged(b"veh4\r", "veh", true), Some(4));
    assert_eq!(parse_tagged(b"veh4\r", "veh", false), None);
    assert_eq!(parse_tagged(b"car4", "veh", true), None);
    assert_eq!(parse_tagged(b"re", "req", false), None);
    assert_eq!(parse_tagged(b"req", "req", false), None);
}

#[test]
fn lists_of_ids_are_read_in_order() {
    assert_eq!(parse_ids(b"v0,v3,v12", "v", false), Some(vec![0, 3, 12]));
    assert_eq!(parse_ids(b"z1\r", "z", true), Some(vec![1]));
    assert_eq!(parse_ids(b"", "v", false), None);
    assert_eq!(parse_ids(b"v0,,v1", "v", false), None);
    assert_eq!(parse_ids(b"v0,x1", "v", false), None);
}

#[test]
fn headings_give_a_count() {
    assert_eq!(parse_count(b"+Requests: 100"), Some(100));
    assert_eq!(parse_count(b"+Requests: 100\r"), Some(100));
    assert_eq!(parse_count(b"+Zones: 0"), Some(0));
    assert_eq!(parse_count(b"a: 5: 7"), Some(5));
    assert_eq!(parse_count(b"+Requests:100"), None);
    assert_eq!(parse_count(b"+Requests: -1"), None);
    assert_eq!(parse_count(b"+Requests: many"), None);
    assert_eq!(parse_count(b"+Requests"), None);
}

#[test]
fn a_reservation_line_gives_its_fields() {
    let r = parse_reservation(b"req7;z3;2;600;120;v0,v4;100;20\r").unwrap();
    assert_eq!(r.id, 7);
    assert_eq!(r.zone, 3);
    assert_eq!(r.day, 2);
    assert_eq!(r.start, 600 + 2 * 1440);
    assert_eq!(r.restime, 120);
    assert_eq!(r.possible_vehicles, vec![0, 4]);
    assert_eq!(r.p1, 100);
    assert_eq!(r.p2, 20);
    assert_eq!(r.vehicle, None);
}

#[test]
fn a_reservation_line_with_a_flaw_is_refused() {
    assert!(parse_reservation(b"req7;z3;2;600;120;v0,v4;100").is_none());
    assert!(parse_reservation(b"7;z3;2;600;120;v0,v4;100;20").is_none());
    assert!(parse_reservation(b"req7;3;2;600;120;v0,v4;100;20").is_none());
    assert!(parse_reservation(b"req7;z3;2;600;120;;100;20").is_none());
    assert!(parse_reservation(b"req7;z3;x;600;120;v0;100;20").is_none());
    assert!(parse_reservation(b"req7;z3;1491309;600;120;v0;100;20").is_none());
    assert!(parse_reservation(b"").is_none());
}

#[test]
fn zone_and_vehicle_lines() {
    let z = parse_zone(b"z2;z0,z1\r").unwrap();
    assert_eq!(z.id, 2);
    assert_eq!(z.neighbours, vec![0, 1]);
    assert!(parse_zone(b"z2").is_none());
    assert!(parse_zone(b"z2;").is_none());
    let v = parse_vehicle(b"veh5").unwrap();
    assert_eq!(v.id, 5);
    assert_eq!(v.zone, None);
    assert!(parse_vehicle(b"5").is_none());
}

#[test]
fn a_whole_text_is_read() {
    let (res, zon, veh) = parse_input(SMALL.as_bytes()).unwrap();
    assert_eq!(res.len(), 3);
    assert_eq!(zon.len(), 2);
    assert_eq!(veh.len(), 2);
    assert_eq!(res[1].id, 1);
    assert_eq!(res[1].zone, 1);
    assert_eq!(res[1].start, 100);
    assert_eq!(res[2].possible_vehicles, vec![1]);
    assert_eq!(zon[0].neighbours, vec![1]);
    assert_eq!(veh[1].id, 1);
    assert!(well_formed_input(&res, &zon, &veh));
}

#[test]
fn carriage_returns_at_line_ends_are_accepted() {
    let text = SMALL.replace("\n", "\r\n");
    let (res, zon, veh) = parse_input(text.as_bytes()).unwrap();
    assert_eq!(res.len(), 3);
    assert_eq!(res[0].p2, 10);
    assert_eq!(zon[1].neighbours, vec![0]);
    assert_eq!(veh[0].id, 0);
}

#[test]
fn the_first_bad_line_is_named() {
    let text = SMALL.replace("req1;z1", "req1;y1");
    assert_eq!(parse_input(text.as_bytes()).err(), Some(InputError::Malformed { line: 2 }));
    let text = SMALL.replace("+Zones: 2", "+Zones 2");
    assert_eq!(parse_input(text.as_bytes()).err(), Some(InputError::Malformed { line: 4 }));
    let text = SMALL.replace("veh1", "car1");
    assert_eq!(parse_input(text.as_bytes()).err(), Some(InputError::Malformed { line: 9 }));
    assert_eq!(parse_input(b"").err(), Some(InputError::Malformed { line: 0 }));
}

#[test]
fn a_text_that_ends_too_early_is_refused() {
    assert_eq!(
        parse_input(b"+Requests: 2\nreq0;z0;0;0;60;v0;1;1").err(),
        Some(InputError::Missing { line: 2 })
    );
    assert_eq!(parse_input(b"+Requests: 0").err(), Some(InputError::Missing { line: 1 }));
    assert_eq!(
        parse_input(b"+Requests: 0\n+Zones: 0\n+Vehicles: 1").err(),
        Some(InputError::Missing { line: 3 })
    );
}

#[test]
fn an_empty_problem_is_read() {
    let (res, zon, veh) = parse_input(b"+Requests: 0\n+Zones: 0\n+Vehicles: 0\n").unwrap();
    assert!(res.is_empty());
    assert!(zon.is_empty());
    assert!(veh.is_empty());
}

#[test]
fn numbers_are_written_in_decimal() {
    let mut out = Vec::new();
    push_decimal(&mut out, 0);
    push_text(&mut out, " ");
    push_decimal(&mut out, 1234);
    push_text(&mut out, " ");
    push_decimal(&mut out, -56);
    push_text(&mut out, " ");
    push_decimal(&mut out, i32::MIN as i64);
    push_text(&mut out, " ");
    push_position(&mut out, 907);
    assert_eq!(out, b"0 1234 -56 -2147483648 907".to_vec());
}

#[test]
fn the_report_lists_cost_vehicles_and_reservations() {
    let (res, zon, veh) = parse_input(SMALL.as_bytes()).unwrap();
    let mut ls = LocalSearch::new(res, zon, veh);
    ls.run(0, 5);
    let expected = "10\n\
+Vehicle assignments\n\
car0;z1\n\
car1;z0\n\
+Assigned requests\n\
req1;car0\n\
req0;car0\n\
req2;car1\n\
+Unassigned requests\n";
    assert_eq!(ls.output_text(), expected.as_bytes().to_vec());
}

#[test]
fn the_report_of_a_fresh_search() {
    let (res, zon, veh) = parse_input(SMALL.as_bytes()).unwrap();
    let ls = LocalSearch::new(res, zon, veh);
    let expected = "1000000\n\
+Vehicle assignments\n\
car0;z-1\n\
car1;z-1\n\
+Assigned requests\n\
+Unassigned requests\n\
req0\n\
req1\n\
req2\n";
    assert_eq!(ls.output_text(), expected.as_bytes().to_vec());
}

#[test]
fn written_numbers_are_read_back() {
    for n in [0, 7, -7, 10, 1440, -1000000, i32::MAX, i32::MIN] {
        let mut out = Vec::new();
        push_decimal(&mut out, n as i64);
        assert_eq!(parse_number(&out), Some(n));
    }
}
