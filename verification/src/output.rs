//! The report of a search as text: the best cost, where every vehicle
//! stands, who serves what, and what nobody serves.

use vstd::prelude::*;
use vstd::string::StringSliceAdditionalSpecFns;
use crate::ls::{LocalSearch, SearchView};

verus! {

/// The decimal digits of a number that is not negative.
pub open spec fn digits(n: int) -> Seq<u8>
    decreases n,
{
    if n < 10 {
        seq![(48 + n) as u8]
    } else {
        digits(n / 10).push((48 + n % 10) as u8)
    }
}

/// A number in decimal, with a minus sign where it is negative.
pub open spec fn decimal(n: int) -> Seq<u8> {
    if n < 0 {
        seq![45u8] + digits(-n)
    } else {
        digits(n)
    }
}

/// The line that says where vehicle `v` stands.
pub open spec fn vehicle_line(v: int, zone: i32) -> Seq<u8> {
    "car".spec_bytes() + decimal(v) + ";z".spec_bytes() + decimal(zone as int) + "\n".spec_bytes()
}

/// The line that says that vehicle `v` serves reservation `r`.
pub open spec fn served_line(r: i32, v: int) -> Seq<u8> {
    "req".spec_bytes() + decimal(r as int) + ";car".spec_bytes() + decimal(v) + "\n".spec_bytes()
}

/// The line that says that nobody serves reservation `r`.
pub open spec fn waiting_line(r: i32) -> Seq<u8> {
    "req".spec_bytes() + decimal(r as int) + "\n".spec_bytes()
}

/// The lines of the first `k` vehicles.
pub open spec fn vehicle_lines(zone_of: Seq<i32>, k: int) -> Seq<u8>
    decreases k,
{
    if k <= 0 {
        Seq::empty()
    } else {
        vehicle_lines(zone_of, k - 1) + vehicle_line(k - 1, zone_of[k - 1])
    }
}

/// The lines of the first `k` reservations that vehicle `v` serves.
pub open spec fn load_lines(list: Seq<i32>, v: int, k: int) -> Seq<u8>
    decreases k,
{
    if k <= 0 {
        Seq::empty()
    } else {
        load_lines(list, v, k - 1) + served_line(list[k - 1], v)
    }
}

/// The lines of all that the first `k` vehicles serve.
pub open spec fn served_lines(served: Seq<Seq<i32>>, k: int) -> Seq<u8>
    decreases k,
{
    if k <= 0 {
        Seq::empty()
    } else {
        served_lines(served, k - 1) + load_lines(served[k - 1], k - 1, served[k - 1].len() as int)
    }
}

/// The lines of the first `k` unassigned reservations.
pub open spec fn waiting_lines(unassigned: Seq<i32>, k: int) -> Seq<u8>
    decreases k,
{
    if k <= 0 {
        Seq::empty()
    } else {
        waiting_lines(unassigned, k - 1) + waiting_line(unassigned[k - 1])
    }
}

/// The report: the best cost on a line of its own, then three sections,
/// each under its heading, on the current assignment.
pub open spec fn report(s: SearchView) -> Seq<u8> {
    decimal(s.best_cost as int) + "\n".spec_bytes() + "+Vehicle assignments\n".spec_bytes()
        + vehicle_lines(s.current.zone_of, s.current.zone_of.len() as int)
        + "+Assigned requests\n".spec_bytes() + served_lines(
        s.current.served,
        s.current.served.len() as int,
    ) + "+Unassigned requests\n".spec_bytes() + waiting_lines(
        s.current.unassigned,
        s.current.unassigned.len() as int,
    )
}

/// Appends the text to the bytes.
pub fn push_text(out: &mut Vec<u8>, text: &str)
    ensures
        final(out)@ == old(out)@ + text.spec_bytes(),
{
    let bytes = text.as_bytes();
    let ghost start = out@;
    let mut i: usize = 0;
    while i < bytes.len()
        invariant
            i <= bytes.len(),
            bytes@ == text.spec_bytes(),
            out@ == start + bytes@.take(i as int),
        decreases bytes.len() - i,
    {
        out.push(bytes[i]);
        assert(bytes@.take(i as int).push(bytes[i as int]) =~= bytes@.take(i + 1));
        assert(out@ =~= start + bytes@.take(i + 1));
        i += 1;
    }
    assert(bytes@.take(bytes.len() as int) =~= bytes@);
}

/// Appends the digits of the number to the bytes.
fn push_digits(out: &mut Vec<u8>, n: u64)
    ensures
        final(out)@ == old(out)@ + digits(n as int),
    decreases n,
{
    if n >= 10 {
        push_digits(out, n / 10);
    }
    let ghost before = out@;
    out.push(48 + (n % 10) as u8);
    assert(out@ =~= old(out)@ + digits(n as int));
}

/// Appends the number in decimal to the bytes.
pub fn push_decimal(out: &mut Vec<u8>, n: i64)
    requires
        i64::MIN < n,
    ensures
        final(out)@ == old(out)@ + decimal(n as int),
{
    if n < 0 {
        out.push(45u8);
        push_digits(out, (-n) as u64);
        assert(out@ =~= old(out)@ + decimal(n as int));
    } else {
        push_digits(out, n as u64);
    }
}

/// Appends the position in decimal to the bytes.
pub fn push_position(out: &mut Vec<u8>, n: usize)
    ensures
        final(out)@ == old(out)@ + decimal(n as int),
{
    push_digits(out, n as u64);
}

impl LocalSearch {
    /// The report on the search as text.
    pub fn output_text(&self) -> (text: Vec<u8>)
        ensures
            text@ == report(self@),
    {
        let mut out: Vec<u8> = Vec::new();
        push_decimal(&mut out, self.best_cost as i64);
        push_text(&mut out, "\n");
        push_text(&mut out, "+Vehicle assignments\n");
        let ghost head = out@;
        let mut v: usize = 0;
        while v < self.veh_to_zon.len()
            invariant
                v <= self.veh_to_zon.len(),
                out@ == head + vehicle_lines(self.veh_to_zon@, v as int),
            decreases self.veh_to_zon.len() - v,
        {
            let ghost so_far = out@;
            push_text(&mut out, "car");
            push_position(&mut out, v);
            push_text(&mut out, ";z");
            push_decimal(&mut out, self.veh_to_zon[v] as i64);
            push_text(&mut out, "\n");
            assert(out@ =~= so_far + vehicle_line(v as int, self.veh_to_zon[v as int]));
            assert(out@ =~= head + vehicle_lines(self.veh_to_zon@, v + 1));
            v += 1;
        }
        push_text(&mut out, "+Assigned requests\n");
        let ghost head = out@;
        let ghost served = self.current().served;
        let mut v: usize = 0;
        while v < self.veh_to_res.len()
            invariant
                v <= self.veh_to_res.len(),
                served == self.current().served,
                out@ == head + served_lines(served, v as int),
            decreases self.veh_to_res.len() - v,
        {
            let list = &self.veh_to_res[v];
            assert(served[v as int] == list@);
            let ghost row = out@;
            let mut i: usize = 0;
            while i < list.len()
                invariant
                    i <= list.len(),
                    out@ == row + load_lines(list@, v as int, i as int),
                decreases list.len() - i,
            {
                let ghost so_far = out@;
                push_text(&mut out, "req");
                push_decimal(&mut out, list[i] as i64);
                push_text(&mut out, ";car");
                push_position(&mut out, v);
                push_text(&mut out, "\n");
                assert(out@ =~= so_far + served_line(list[i as int], v as int));
                assert(out@ =~= row + load_lines(list@, v as int, i + 1));
                i += 1;
            }
            assert(out@ =~= head + served_lines(served, v + 1));
            v += 1;
        }
        push_text(&mut out, "+Unassigned requests\n");
        let ghost head = out@;
        let mut i: usize = 0;
        while i < self.unassigned.len()
            invariant
                i <= self.unassigned.len(),
                out@ == head + waiting_lines(self.unassigned@, i as int),
            decreases self.unassigned.len() - i,
        {
            let ghost so_far = out@;
            push_text(&mut out, "req");
            push_decimal(&mut out, self.unassigned[i] as i64);
            push_text(&mut out, "\n");
            assert(out@ =~= so_far + waiting_line(self.unassigned[i as int]));
            assert(out@ =~= head + waiting_lines(self.unassigned@, i + 1));
            i += 1;
        }
        out
    }
}

} // verus!
