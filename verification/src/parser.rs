//! The input text: three sections of lines, each under a line that says
//! how many lines follow.
//!
//! ```text
//! +Requests: 2
//! req0;z0;0;600;120;v0,v1;100;20
//! req1;z1;1;30;45;v1;100;20
//! +Zones: 2
//! z0;z1
//! z1;z0
//! +Vehicles: 2
//! veh0
//! veh1
//! ```

use vstd::prelude::*;
use vstd::slice::{slice_subrange, slice_to_vec};
use vstd::string::StringSliceAdditionalSpecFns;
use crate::data_structs::{Reservation, ReservationView, Vehicle, VehicleView, Zone, ZoneView};
use crate::ls::problem_of;
use crate::model::Problem;

verus! {

/// Why a text is no input.
#[derive(Debug, Clone, Copy, PartialEq, Eq)]
pub enum InputError {
    /// The text ends before this line, which a section still needs.
    Missing { line: usize },
    /// This line is not what its place in the text asks for.
    Malformed { line: usize },
}

/// Minutes of a day: the start of a reservation is counted from day 0.
pub const DAY: i32 = 1440;

/// Whether the byte is a decimal digit.
pub open spec fn is_digit(b: u8) -> bool {
    48 <= b <= 57
}

/// Whether the bytes are decimal digits throughout.
pub open spec fn all_digits(s: Seq<u8>) -> bool {
    forall|i: int| 0 <= i < s.len() ==> is_digit(#[trigger] s[i])
}

/// The number that the digits write.
pub open spec fn digits_value(s: Seq<u8>) -> int
    decreases s.len(),
{
    if s.len() == 0 {
        0
    } else {
        digits_value(s.drop_last()) * 10 + (s.last() - 48)
    }
}

/// The number that the bytes write: a sign or none, then one digit or
/// more, the whole within the range of an `i32`.
pub open spec fn number(s: Seq<u8>) -> Option<i32> {
    let signed = s.len() > 0 && (s[0] == 45 || s[0] == 43);
    let body = if signed { s.skip(1) } else { s };
    let value = if s.len() > 0 && s[0] == 45 { -digits_value(body) } else { digits_value(body) };
    if body.len() > 0 && all_digits(body) && i32::MIN <= value <= i32::MAX {
        Some(value as i32)
    } else {
        None
    }
}

/// The bytes without the carriage return at their end or, where there is
/// none, without the line feed at their end.
pub open spec fn chomp(s: Seq<u8>) -> Seq<u8> {
    if s.len() > 0 && (s.last() == 13 || s.last() == 10) {
        s.drop_last()
    } else {
        s
    }
}

/// The first place from `from` on where `sep` stands; the length where it
/// stands nowhere.
pub open spec fn next_sep(s: Seq<u8>, sep: u8, from: int) -> int
    decreases s.len() - from,
{
    if from >= s.len() {
        s.len() as int
    } else if s[from] == sep {
        from
    } else {
        next_sep(s, sep, from + 1)
    }
}

/// The pieces of `s` from `from` on that `sep` separates.
pub open spec fn pieces_from(s: Seq<u8>, sep: u8, from: int) -> Seq<Seq<u8>>
    decreases s.len() - from,
{
    let at = next_sep(s, sep, from);
    if at >= s.len() || at < from {
        seq![s.subrange(from, s.len() as int)]
    } else {
        seq![s.subrange(from, at)] + pieces_from(s, sep, at + 1)
    }
}

/// The pieces that `sep` separates: one more than `sep` occurs.
pub open spec fn split(s: Seq<u8>, sep: u8) -> Seq<Seq<u8>> {
    pieces_from(s, sep, 0)
}

/// The vectors as sequences.
pub open spec fn texts(pieces: Seq<Vec<u8>>) -> Seq<Seq<u8>> {
    Seq::new(pieces.len(), |i: int| pieces[i]@)
}

/// What `next_sep` gives lies behind `from`, and the separator stands
/// there and nowhere before.
pub proof fn lemma_next_sep(s: Seq<u8>, sep: u8, from: int)
    requires
        0 <= from <= s.len(),
    ensures
        from <= next_sep(s, sep, from) <= s.len(),
        next_sep(s, sep, from) < s.len() ==> s[next_sep(s, sep, from)] == sep,
        forall|i: int| from <= i < next_sep(s, sep, from) ==> s[i] != sep,
    decreases s.len() - from,
{
    if from < s.len() && s[from] != sep {
        lemma_next_sep(s, sep, from + 1);
    }
}

/// The number that the digits write grows with every digit.
pub proof fn lemma_digits_value_grows(s: Seq<u8>, k: int)
    requires
        all_digits(s),
        0 <= k <= s.len(),
    ensures
        0 <= digits_value(s.take(k)) <= digits_value(s),
    decreases s.len() - k,
{
    if k == s.len() {
        assert(s.take(k) =~= s);
        lemma_digits_value_nonneg(s);
    } else {
        lemma_digits_value_grows(s, k + 1);
        assert(s.take(k + 1).drop_last() =~= s.take(k));
        lemma_digits_value_nonneg(s.take(k));
        assert(is_digit(s[k]));
    }
}

/// Digits write no negative number.
proof fn lemma_digits_value_nonneg(s: Seq<u8>)
    requires
        all_digits(s),
    ensures
        0 <= digits_value(s),
    decreases s.len(),
{
    if s.len() > 0 {
        lemma_digits_value_nonneg(s.drop_last());
        assert(is_digit(s.last()));
    }
}

/// The bytes without the carriage return or line feed at their end.
pub fn strip_trailing_newline(input: &[u8]) -> (out: &[u8])
    ensures
        out@ == chomp(input@),
{
    let n = input.len();
    if n > 0 && (input[n - 1] == 13 || input[n - 1] == 10) {
        let out = slice_subrange(input, 0, n - 1);
        assert(out@ =~= input@.drop_last());
        out
    } else {
        input
    }
}

/// Reads a number.
pub fn parse_number(s: &[u8]) -> (n: Option<i32>)
    ensures
        n == number(s@),
{
    let len = s.len();
    let negative = len > 0 && s[0] == 45;
    let signed = len > 0 && (s[0] == 45 || s[0] == 43);
    let first: usize = if signed { 1 } else { 0 };
    if first >= len {
        return None;
    }
    let ghost body = if signed { s@.skip(1) } else { s@ };
    let mut acc: i64 = 0;
    let mut i: usize = first;
    while i < len
        invariant
            first <= i <= len,
            len == s.len(),
            first == if signed { 1usize } else { 0usize },
            signed == (s@.len() > 0 && (s@[0] == 45 || s@[0] == 43)),
            negative == (s@.len() > 0 && s@[0] == 45),
            body == if signed { s@.skip(1) } else { s@ },
            all_digits(body.take(i - first)),
            acc == digits_value(body.take(i - first)),
            0 <= acc <= 0x8000_0000,
        decreases len - i,
    {
        let b = s[i];
        assert(body[i - first] == b);
        if b < 48 || b > 57 {
            assert(!is_digit(body[i - first]));
            return None;
        }
        acc = acc * 10 + (b - 48) as i64;
        assert(body.take(i - first + 1).drop_last() =~= body.take(i - first));
        assert forall|k: int| 0 <= k < i - first + 1 implies is_digit(
            #[trigger] body.take(i - first + 1)[k],
        ) by {
            if k < i - first {
                assert(body.take(i - first)[k] == body[k]);
            }
        }
        if acc > 0x8000_0000 {
            proof {
                if all_digits(body) {
                    lemma_digits_value_grows(body, i - first + 1);
                }
            }
            return None;
        }
        i += 1;
    }
    assert(body.take(len - first) =~= body);
    if negative {
        Some((-acc) as i32)
    } else if acc > i32::MAX as i64 {
        None
    } else {
        Some(acc as i32)
    }
}

/// The pieces that the separator separates.
pub fn split_bytes(s: &[u8], sep: u8) -> (pieces: Vec<Vec<u8>>)
    ensures
        texts(pieces@) == split(s@, sep),
        pieces.len() > 0,
{
    let len = s.len();
    let mut pieces: Vec<Vec<u8>> = Vec::new();
    let mut start: usize = 0;
    loop
        invariant_except_break
            split(s@, sep) == texts(pieces@) + pieces_from(s@, sep, start as int),
        invariant
            start <= len == s.len(),
        ensures
            texts(pieces@) == split(s@, sep),
            pieces.len() > 0,
        decreases len - start,
    {
        let mut end: usize = start;
        while end < len && s[end] != sep
            invariant
                start <= end <= len == s.len(),
                next_sep(s@, sep, start as int) == next_sep(s@, sep, end as int),
            decreases len - end,
        {
            end += 1;
        }
        proof {
            lemma_next_sep(s@, sep, start as int);
        }
        let ghost done = texts(pieces@);
        pieces.push(slice_to_vec(slice_subrange(s, start, end)));
        assert(texts(pieces@) =~= done + seq![s@.subrange(start as int, end as int)]);
        if end >= len {
            break ;
        }
        start = end + 1;
    }
    pieces
}

/// The number behind the tag, with or without what ends a line behind
/// it.
pub open spec fn tagged_number(s: Seq<u8>, tag: Seq<u8>, trim: bool) -> Option<i32> {
    if tag.is_prefix_of(s) {
        let rest = s.skip(tag.len() as int);
        number(if trim { chomp(rest) } else { rest })
    } else {
        None
    }
}

/// The numbers of the first `k` items, each behind the tag.
pub open spec fn id_list(items: Seq<Seq<u8>>, tag: Seq<u8>, trim: bool, k: int) -> Option<Seq<i32>>
    decreases k,
{
    if k <= 0 {
        Some(Seq::empty())
    } else {
        let before = id_list(items, tag, trim, k - 1);
        let id = tagged_number(items[k - 1], tag, trim);
        if before is Some && id is Some {
            Some(before.unwrap().push(id.unwrap()))
        } else {
            None
        }
    }
}

/// The numbers of a list whose items a comma separates.
pub open spec fn id_field(field: Seq<u8>, tag: Seq<u8>, trim: bool) -> Option<Seq<i32>> {
    id_list(split(field, 44), tag, trim, split(field, 44).len() as int)
}

/// The first place from `from` on where a colon stands before a blank; the
/// length where there is none.
pub open spec fn colon_at(s: Seq<u8>, from: int) -> int
    decreases s.len() - from,
{
    if from >= s.len() {
        s.len() as int
    } else if s[from] == 58 && from + 1 < s.len() && s[from + 1] == 32 {
        from
    } else {
        colon_at(s, from + 1)
    }
}

/// The count that a heading gives: the number between the first colon
/// with a blank and the next one, or the end of the line.
pub open spec fn count_line(line: Seq<u8>) -> Option<i32> {
    let head = split(line, 59)[0];
    let at = colon_at(head, 0);
    if at >= head.len() {
        None
    } else {
        let rest = head.skip(at + 2);
        let count = number(chomp(rest.take(colon_at(rest, 0))));
        if count is Some && count.unwrap() >= 0 {
            count
        } else {
            None
        }
    }
}

/// The reservation that a line describes: its id, its zone, its day, the
/// minute of the day at which it starts, its duration, the vehicles that
/// may serve it, and its two penalties. The start is counted from day 0.
pub open spec fn reservation_line(line: Seq<u8>) -> Option<ReservationView> {
    let f = split(line, 59);
    if f.len() < 8 {
        None
    } else {
        let id = tagged_number(f[0], "req".spec_bytes(), false);
        let zone = tagged_number(f[1], "z".spec_bytes(), false);
        let day = number(f[2]);
        let minute = number(f[3]);
        let duration = number(f[4]);
        let eligible = id_field(f[5], "v".spec_bytes(), false);
        let p1 = number(f[6]);
        let p2 = number(chomp(f[7]));
        if id is Some && zone is Some && day is Some && minute is Some && duration is Some
            && eligible is Some && p1 is Some && p2 is Some && i32::MIN <= minute.unwrap() + DAY
            * day.unwrap() <= i32::MAX {
            Some(
                ReservationView {
                    id: id.unwrap(),
                    zone: zone.unwrap(),
                    day: day.unwrap(),
                    start: (minute.unwrap() + DAY * day.unwrap()) as i32,
                    duration: duration.unwrap(),
                    eligible: eligible.unwrap(),
                    p1: p1.unwrap(),
                    p2: p2.unwrap(),
                    vehicle: None,
                },
            )
        } else {
            None
        }
    }
}

/// The zone that a line describes: its id and its neighbours.
pub open spec fn zone_line(line: Seq<u8>) -> Option<ZoneView> {
    let f = split(line, 59);
    if f.len() < 2 {
        None
    } else {
        let id = tagged_number(f[0], "z".spec_bytes(), false);
        let neighbours = id_field(f[1], "z".spec_bytes(), true);
        if id is Some && neighbours is Some {
            Some(ZoneView { id: id.unwrap(), neighbours: neighbours.unwrap() })
        } else {
            None
        }
    }
}

/// The vehicle that a line describes.
pub open spec fn vehicle_line(line: Seq<u8>) -> Option<VehicleView> {
    let id = tagged_number(split(line, 59)[0], "veh".spec_bytes(), true);
    if id is Some {
        Some(VehicleView { id: id.unwrap(), zone: None })
    } else {
        None
    }
}

/// Tells whether the bytes begin with the tag.
fn starts_with(s: &[u8], tag: &[u8]) -> (yes: bool)
    ensures
        yes == tag@.is_prefix_of(s@),
{
    if tag.len() > s.len() {
        return false;
    }
    let mut i: usize = 0;
    while i < tag.len()
        invariant
            i <= tag.len() <= s.len(),
            forall|k: int| 0 <= k < i ==> tag[k] == s[k],
        decreases tag.len() - i,
    {
        if tag[i] != s[i] {
            assert(s@.subrange(0, tag@.len() as int)[i as int] != tag@[i as int]);
            return false;
        }
        i += 1;
    }
    assert(tag@ =~= s@.subrange(0, tag@.len() as int));
    true
}

/// Reads the number behind the tag.
pub fn parse_tagged(s: &[u8], tag: &str, trim: bool) -> (n: Option<i32>)
    ensures
        n == tagged_number(s@, tag.spec_bytes(), trim),
{
    let tag = tag.as_bytes();
    if !starts_with(s, tag) {
        return None;
    }
    let rest = slice_subrange(s, tag.len(), s.len());
    assert(rest@ =~= s@.skip(tag@.len() as int));
    if trim {
        parse_number(strip_trailing_newline(rest))
    } else {
        parse_number(rest)
    }
}

/// Reads a list of numbers, each behind the tag, with commas between them.
pub fn parse_ids(field: &[u8], tag: &str, trim: bool) -> (ids: Option<Vec<i32>>)
    ensures
        match ids {
            Some(list) => id_field(field@, tag.spec_bytes(), trim) == Some(list@),
            None => id_field(field@, tag.spec_bytes(), trim) is None,
        },
{
    let items = split_bytes(field, 44);
    let ghost pieces = split(field@, 44);
    let mut ids: Vec<i32> = Vec::new();
    let mut k: usize = 0;
    while k < items.len()
        invariant
            k <= items.len(),
            pieces == texts(items@),
            pieces == split(field@, 44),
            id_list(pieces, tag.spec_bytes(), trim, k as int) == Some(ids@),
        decreases items.len() - k,
    {
        assert(pieces[k as int] == items[k as int]@);
        match parse_tagged(items[k].as_slice(), tag, trim) {
            Some(id) => {
                ids.push(id);
            },
            None => {
                proof {
                    assert(id_list(pieces, tag.spec_bytes(), trim, k + 1) is None);
                    lemma_id_list_fails(pieces, tag.spec_bytes(), trim, k + 1, pieces.len() as int);
                }
                return None;
            },
        }
        k += 1;
    }
    Some(ids)
}

/// A list that fails on its first items fails altogether.
pub proof fn lemma_id_list_fails(items: Seq<Seq<u8>>, tag: Seq<u8>, trim: bool, k: int, n: int)
    requires
        0 <= k <= n,
        id_list(items, tag, trim, k) is None,
    ensures
        id_list(items, tag, trim, n) is None,
    decreases n - k,
{
    if k < n {
        lemma_id_list_fails(items, tag, trim, k, n - 1);
    }
}

/// Reads the count that a heading gives.
pub fn parse_count(line: &[u8]) -> (count: Option<usize>)
    ensures
        match count {
            Some(n) => n <= i32::MAX && count_line(line@) == Some(n as i32),
            None => count_line(line@) is None,
        },
{
    let fields = split_bytes(line, 59);
    let head = fields[0].as_slice();
    assert(head@ == split(line@, 59)[0]) by {
        assert(texts(fields@)[0] == fields[0]@);
    }
    let at = find_colon(head, 0);
    if at >= head.len() {
        return None;
    }
    let rest = slice_subrange(head, at + 2, head.len());
    assert(rest@ =~= head@.skip(at + 2));
    let end = find_colon(rest, 0);
    let piece = slice_subrange(rest, 0, end);
    assert(piece@ =~= rest@.take(end as int));
    match parse_number(strip_trailing_newline(piece)) {
        Some(n) => if n >= 0 {
            Some(n as usize)
        } else {
            None
        },
        None => None,
    }
}

/// The first place from `from` on where a colon stands before a blank.
fn find_colon(s: &[u8], from: usize) -> (at: usize)
    requires
        from <= s.len(),
    ensures
        at == colon_at(s@, from as int),
        from <= at <= s.len(),
        at < s.len() ==> at + 2 <= s.len(),
{
    let mut at: usize = from;
    while at < s.len()
        invariant
            from <= at <= s.len(),
            colon_at(s@, from as int) == colon_at(s@, at as int),
        decreases s.len() - at,
    {
        if s[at] == 58 && at + 1 < s.len() && s[at + 1] == 32 {
            return at;
        }
        at += 1;
    }
    at
}

/// Reads the reservation that a line describes.
pub fn parse_reservation(line: &[u8]) -> (r: Option<Reservation>)
    ensures
        match r {
            Some(res) => reservation_line(line@) == Some(res@),
            None => reservation_line(line@) is None,
        },
{
    let f = split_bytes(line, 59);
    if f.len() < 8 {
        return None;
    }
    proof {
        let pieces = split(line@, 59);
        assert(pieces[0] == f[0]@ && pieces[1] == f[1]@ && pieces[2] == f[2]@ && pieces[3] == f[3]@
            && pieces[4] == f[4]@ && pieces[5] == f[5]@ && pieces[6] == f[6]@ && pieces[7]
            == f[7]@) by {
            assert(texts(f@)[0] == f[0]@);
            assert(texts(f@)[1] == f[1]@);
            assert(texts(f@)[2] == f[2]@);
            assert(texts(f@)[3] == f[3]@);
            assert(texts(f@)[4] == f[4]@);
            assert(texts(f@)[5] == f[5]@);
            assert(texts(f@)[6] == f[6]@);
            assert(texts(f@)[7] == f[7]@);
        }
    }
    let id = parse_tagged(f[0].as_slice(), "req", false);
    let zone = parse_tagged(f[1].as_slice(), "z", false);
    let day = parse_number(f[2].as_slice());
    let minute = parse_number(f[3].as_slice());
    let duration = parse_number(f[4].as_slice());
    let eligible = parse_ids(f[5].as_slice(), "v", false);
    let p1 = parse_number(f[6].as_slice());
    let p2 = parse_number(strip_trailing_newline(f[7].as_slice()));
    match (id, zone, day, minute, duration, eligible, p1, p2) {
        (
            Some(id),
            Some(zone),
            Some(day),
            Some(minute),
            Some(duration),
            Some(possible_vehicles),
            Some(p1),
            Some(p2),
        ) => {
            let start: i64 = minute as i64 + DAY as i64 * day as i64;
            if start < i32::MIN as i64 || start > i32::MAX as i64 {
                return None;
            }
            Some(
                Reservation {
                    id,
                    zone,
                    day,
                    start: start as i32,
                    restime: duration,
                    possible_vehicles,
                    p1,
                    p2,
                    vehicle: None,
                },
            )
        },
        _ => None,
    }
}

/// Reads the zone that a line describes.
pub fn parse_zone(line: &[u8]) -> (z: Option<Zone>)
    ensures
        match z {
            Some(zone) => zone_line(line@) == Some(zone@),
            None => zone_line(line@) is None,
        },
{
    let f = split_bytes(line, 59);
    if f.len() < 2 {
        return None;
    }
    proof {
        assert(texts(f@)[0] == f[0]@);
        assert(texts(f@)[1] == f[1]@);
    }
    let id = parse_tagged(f[0].as_slice(), "z", false);
    let neighbours = parse_ids(f[1].as_slice(), "z", true);
    match (id, neighbours) {
        (Some(id), Some(neighbours)) => Some(Zone { id, neighbours }),
        _ => None,
    }
}

/// Reads the vehicle that a line describes.
pub fn parse_vehicle(line: &[u8]) -> (v: Option<Vehicle>)
    ensures
        match v {
            Some(vehicle) => vehicle_line(line@) == Some(vehicle@),
            None => vehicle_line(line@) is None,
        },
{
    let f = split_bytes(line, 59);
    proof {
        assert(texts(f@)[0] == f[0]@);
    }
    match parse_tagged(f[0].as_slice(), "veh", true) {
        Some(id) => Some(Vehicle { id, zone: None }),
        None => None,
    }
}

/// The first `count` records from line `from` on, each read by `read`; or
/// the first line among them that is missing or that `read` refuses.
pub open spec fn records<T>(
    lines: Seq<Seq<u8>>,
    from: int,
    count: int,
    read: spec_fn(Seq<u8>) -> Option<T>,
) -> Result<Seq<T>, InputError>
    decreases count,
{
    if count <= 0 {
        Ok(Seq::empty())
    } else {
        match records(lines, from, count - 1, read) {
            Err(e) => Err(e),
            Ok(before) => {
                let at = from + count - 1;
                if at >= lines.len() {
                    Err(InputError::Missing { line: lines.len() as usize })
                } else {
                    match read(lines[at]) {
                        Some(record) => Ok(before.push(record)),
                        None => Err(InputError::Malformed { line: at as usize }),
                    }
                }
            },
        }
    }
}

/// The count that the heading in line `at` gives.
pub open spec fn count_at(lines: Seq<Seq<u8>>, at: int) -> Result<int, InputError> {
    if at >= lines.len() {
        Err(InputError::Missing { line: lines.len() as usize })
    } else {
        match count_line(lines[at]) {
            Some(count) => Ok(count as int),
            None => Err(InputError::Malformed { line: at as usize }),
        }
    }
}

/// `reservation_line` as a value.
pub open spec fn read_reservation() -> spec_fn(Seq<u8>) -> Option<ReservationView> {
    |line: Seq<u8>| reservation_line(line)
}

/// `zone_line` as a value.
pub open spec fn read_zone() -> spec_fn(Seq<u8>) -> Option<ZoneView> {
    |line: Seq<u8>| zone_line(line)
}

/// `vehicle_line` as a value.
pub open spec fn read_vehicle() -> spec_fn(Seq<u8>) -> Option<VehicleView> {
    |line: Seq<u8>| vehicle_line(line)
}

/// The problem that a text describes, or the first line that is missing or
/// malformed.
///
/// Line feeds separate the lines. The first line gives the number of
/// reservations, which follow one per line; then come, in the same way,
/// the zones and the vehicles. What stands behind the last vehicle is not
/// read.
pub open spec fn parsed(text: Seq<u8>) -> Result<Problem, InputError> {
    let lines = split(text, 10);
    match count_at(lines, 0) {
        Err(e) => Err(e),
        Ok(n) => match records(lines, 1, n, read_reservation()) {
            Err(e) => Err(e),
            Ok(reservations) => match count_at(lines, n + 1) {
                Err(e) => Err(e),
                Ok(nz) => match records(lines, n + 2, nz, read_zone()) {
                    Err(e) => Err(e),
                    Ok(zones) => match count_at(lines, n + nz + 2) {
                        Err(e) => Err(e),
                        Ok(nv) => match records(lines, n + nz + 3, nv, read_vehicle()) {
                            Err(e) => Err(e),
                            Ok(vehicles) => Ok(Problem { reservations, zones, vehicles }),
                        },
                    },
                },
            },
        },
    }
}

/// The records as plain values.
pub open spec fn views<T: View>(list: Seq<T>) -> Seq<T::V> {
    Seq::new(list.len(), |i: int| list[i]@)
}

/// A section that fails on its first records fails altogether, and at the
/// same line.
pub proof fn lemma_records_fail<T>(
    lines: Seq<Seq<u8>>,
    from: int,
    k: int,
    n: int,
    read: spec_fn(Seq<u8>) -> Option<T>,
)
    requires
        0 <= k <= n,
        records(lines, from, k, read) is Err,
    ensures
        records(lines, from, n, read) == records(lines, from, k, read),
    decreases n - k,
{
    if k < n {
        lemma_records_fail(lines, from, k, n - 1, read);
    }
}

/// Reads the heading in line `at`.
fn read_count(lines: &Vec<Vec<u8>>, at: usize) -> (count: Result<usize, InputError>)
    ensures
        match count {
            Ok(n) => n <= i32::MAX && count_at(texts(lines@), at as int) == Ok::<int, InputError>(
                n as int,
            ),
            Err(e) => count_at(texts(lines@), at as int) == Err::<int, InputError>(e),
        },
{
    if at >= lines.len() {
        return Err(InputError::Missing { line: lines.len() });
    }
    assert(texts(lines@)[at as int] == lines[at as int]@);
    match parse_count(lines[at].as_slice()) {
        Some(n) => Ok(n),
        None => Err(InputError::Malformed { line: at }),
    }
}

/// Reads `count` reservations from line `from` on.
fn read_reservations(lines: &Vec<Vec<u8>>, from: usize, count: usize) -> (section: Result<
    Vec<Reservation>,
    InputError,
>)
    requires
        from <= lines.len(),
    ensures
        match section {
            Ok(list) => from + count <= lines.len() && records(
                texts(lines@),
                from as int,
                count as int,
                read_reservation(),
            ) == Ok::<Seq<ReservationView>, InputError>(views(list@)),
            Err(e) => records(texts(lines@), from as int, count as int, read_reservation())
                == Err::<Seq<ReservationView>, InputError>(e),
        },
{
    let ghost all = texts(lines@);
    let mut list: Vec<Reservation> = Vec::new();
    let mut k: usize = 0;
    assert(views(list@) =~= Seq::empty());
    while k < count
        invariant
            k <= count,
            from + k <= lines.len(),
            all == texts(lines@),
            list.len() == k,
            records(all, from as int, k as int, read_reservation()) == Ok::<
                Seq<ReservationView>,
                InputError,
            >(views(list@)),
        decreases count - k,
    {
        let at = from + k;
        if at >= lines.len() {
            proof {
                assert(records(all, from as int, k + 1, read_reservation()) is Err);
                lemma_records_fail(all, from as int, k + 1, count as int, read_reservation());
            }
            return Err(InputError::Missing { line: lines.len() });
        }
        assert(all[at as int] == lines[at as int]@);
        match parse_reservation(lines[at].as_slice()) {
            Some(record) => {
                let ghost before = views(list@);
                list.push(record);
                assert(views(list@) =~= before.push(record@));
            },
            None => {
                proof {
                    assert(records(all, from as int, k + 1, read_reservation()) is Err);
                    lemma_records_fail(all, from as int, k + 1, count as int, read_reservation());
                }
                return Err(InputError::Malformed { line: at });
            },
        }
        k += 1;
    }
    Ok(list)
}

/// Reads `count` zones from line `from` on.
fn read_zones(lines: &Vec<Vec<u8>>, from: usize, count: usize) -> (section: Result<
    Vec<Zone>,
    InputError,
>)
    requires
        from <= lines.len(),
    ensures
        match section {
            Ok(list) => from + count <= lines.len() && records(
                texts(lines@),
                from as int,
                count as int,
                read_zone(),
            ) == Ok::<Seq<ZoneView>, InputError>(views(list@)),
            Err(e) => records(texts(lines@), from as int, count as int, read_zone()) == Err::<
                Seq<ZoneView>,
                InputError,
            >(e),
        },
{
    let ghost all = texts(lines@);
    let mut list: Vec<Zone> = Vec::new();
    let mut k: usize = 0;
    assert(views(list@) =~= Seq::empty());
    while k < count
        invariant
            k <= count,
            from + k <= lines.len(),
            all == texts(lines@),
            list.len() == k,
            records(all, from as int, k as int, read_zone()) == Ok::<Seq<ZoneView>, InputError>(
                views(list@),
            ),
        decreases count - k,
    {
        let at = from + k;
        if at >= lines.len() {
            proof {
                assert(records(all, from as int, k + 1, read_zone()) is Err);
                lemma_records_fail(all, from as int, k + 1, count as int, read_zone());
            }
            return Err(InputError::Missing { line: lines.len() });
        }
        assert(all[at as int] == lines[at as int]@);
        match parse_zone(lines[at].as_slice()) {
            Some(record) => {
                let ghost before = views(list@);
                list.push(record);
                assert(views(list@) =~= before.push(record@));
            },
            None => {
                proof {
                    assert(records(all, from as int, k + 1, read_zone()) is Err);
                    lemma_records_fail(all, from as int, k + 1, count as int, read_zone());
                }
                return Err(InputError::Malformed { line: at });
            },
        }
        k += 1;
    }
    Ok(list)
}

/// Reads `count` vehicles from line `from` on.
fn read_vehicles(lines: &Vec<Vec<u8>>, from: usize, count: usize) -> (section: Result<
    Vec<Vehicle>,
    InputError,
>)
    requires
        from <= lines.len(),
    ensures
        match section {
            Ok(list) => from + count <= lines.len() && records(
                texts(lines@),
                from as int,
                count as int,
                read_vehicle(),
            ) == Ok::<Seq<VehicleView>, InputError>(views(list@)),
            Err(e) => records(texts(lines@), from as int, count as int, read_vehicle()) == Err::<
                Seq<VehicleView>,
                InputError,
            >(e),
        },
{
    let ghost all = texts(lines@);
    let mut list: Vec<Vehicle> = Vec::new();
    let mut k: usize = 0;
    assert(views(list@) =~= Seq::empty());
    while k < count
        invariant
            k <= count,
            from + k <= lines.len(),
            all == texts(lines@),
            list.len() == k,
            records(all, from as int, k as int, read_vehicle()) == Ok::<
                Seq<VehicleView>,
                InputError,
            >(views(list@)),
        decreases count - k,
    {
        let at = from + k;
        if at >= lines.len() {
            proof {
                assert(records(all, from as int, k + 1, read_vehicle()) is Err);
                lemma_records_fail(all, from as int, k + 1, count as int, read_vehicle());
            }
            return Err(InputError::Missing { line: lines.len() });
        }
        assert(all[at as int] == lines[at as int]@);
        match parse_vehicle(lines[at].as_slice()) {
            Some(record) => {
                let ghost before = views(list@);
                list.push(record);
                assert(views(list@) =~= before.push(record@));
            },
            None => {
                proof {
                    assert(records(all, from as int, k + 1, read_vehicle()) is Err);
                    lemma_records_fail(all, from as int, k + 1, count as int, read_vehicle());
                }
                return Err(InputError::Malformed { line: at });
            },
        }
        k += 1;
    }
    Ok(list)
}

/// Reads the problem that the text describes.
pub fn parse_input(text: &[u8]) -> (input: Result<
    (Vec<Reservation>, Vec<Zone>, Vec<Vehicle>),
    InputError,
>)
    ensures
        match input {
            Ok((res, zon, veh)) => parsed(text@) == Ok::<Problem, InputError>(
                problem_of(res@, zon@, veh@),
            ),
            Err(e) => parsed(text@) == Err::<Problem, InputError>(e),
        },
{
    let lines = split_bytes(text, 10);
    let n = match read_count(&lines, 0) {
        Ok(n) => n,
        Err(e) => {
            return Err(e);
        },
    };
    let res = match read_reservations(&lines, 1, n) {
        Ok(list) => list,
        Err(e) => {
            return Err(e);
        },
    };
    let nz = match read_count(&lines, n + 1) {
        Ok(n) => n,
        Err(e) => {
            return Err(e);
        },
    };
    let zon = match read_zones(&lines, n + 2, nz) {
        Ok(list) => list,
        Err(e) => {
            return Err(e);
        },
    };
    let nv = match read_count(&lines, n + nz + 2) {
        Ok(n) => n,
        Err(e) => {
            return Err(e);
        },
    };
    let veh = match read_vehicles(&lines, n + nz + 3, nv) {
        Ok(list) => list,
        Err(e) => {
            return Err(e);
        },
    };
    proof {
        let p = problem_of(res@, zon@, veh@);
        assert(p.reservations =~= views(res@));
        assert(p.zones =~= views(zon@));
        assert(p.vehicles =~= views(veh@));
    }
    Ok((res, zon, veh))
}

} // verus!
