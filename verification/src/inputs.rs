//! The two input kinds: reservations (weighted, time-scoped requests) and
//! units (capacity-bounded resources), together with the explicit global
//! orders under which the engine sorts them once at construction.

use vstd::prelude::*;

verus! {

broadcast use vstd::seq_lib::group_to_multiset_ensures, vstd::multiset::group_multiset_axioms;

/// A capacity-bounded resource; it can hold one reservation at a time per
/// solution. Immutable after construction.
pub struct Unit {
    pub name: String,
    pub capacity: i32,
}

/// A weighted request scoped to the half-open time window `[min, max)`.
/// Immutable after construction.
pub struct Reservation {
    pub name: String,
    pub min: i32,
    pub max: i32,
    pub weight: i32,
}

impl Unit {
    /// Two units are interchangeable exactly when their capacities are equal.
    pub open spec fn spec_similar(self, another: Unit) -> bool {
        self.capacity == another.capacity
    }

    pub fn similar(&self, another: &Unit) -> (r: bool)
        ensures
            r == self.spec_similar(*another),
    {
        self.capacity == another.capacity
    }
}

impl Reservation {
    /// Two reservations are interchangeable exactly when weight and window
    /// coincide; the name plays no role.
    pub open spec fn spec_similar(self, another: Reservation) -> bool {
        self.min == another.min && self.max == another.max && self.weight == another.weight
    }

    pub fn similar(&self, another: &Reservation) -> (r: bool)
        ensures
            r == self.spec_similar(*another),
    {
        self.min == another.min && self.max == another.max && self.weight == another.weight
    }

    /// The standard interval test, inclusive of boundary touching: the
    /// windows are treated as overlapping unless one ends strictly before
    /// the other begins.
    pub open spec fn spec_overlaps(self, another: Reservation) -> bool {
        self.max >= another.min && another.max >= self.min
    }

    pub fn overlaps(&self, another: &Reservation) -> (r: bool)
        ensures
            r == self.spec_overlaps(*another),
    {
        self.max >= another.min && another.max >= self.min
    }

    /// A reservation fits a unit whose capacity covers its weight.
    pub open spec fn spec_fits_in(self, container: Unit) -> bool {
        self.weight <= container.capacity
    }

    pub fn fits_in(&self, container: &Unit) -> (r: bool)
        ensures
            r == self.spec_fits_in(*container),
    {
        self.weight <= container.capacity
    }
}

/// Global unit order: by capacity, ascending. Units of equal capacity are
/// interchangeable, so no further tie-break is imposed; the sort keeps every
/// run of equal capacities adjacent, which is what the shortcut table needs.
pub open spec fn unit_le(a: Unit, b: Unit) -> bool {
    a.capacity <= b.capacity
}

/// Global reservation order: by `min`, then `max`, then `weight`, ascending.
/// Reservations equal in all three attributes are interchangeable, so no
/// further tie-break is imposed.
pub open spec fn reservation_le(a: Reservation, b: Reservation) -> bool {
    a.min < b.min || (a.min == b.min && (a.max < b.max || (a.max == b.max && a.weight
        <= b.weight)))
}

pub open spec fn sorted_units(s: Seq<Unit>) -> bool {
    forall|i: int, j: int| 0 <= i < j < s.len() ==> unit_le(s[i], s[j])
}

pub open spec fn sorted_reservations(s: Seq<Reservation>) -> bool {
    forall|i: int, j: int| 0 <= i < j < s.len() ==> reservation_le(s[i], s[j])
}

/// Insertion sort under `unit_le`; returns a sorted rearrangement.
pub fn sort_units(units: Vec<Unit>) -> (out: Vec<Unit>)
    ensures
        sorted_units(out@),
        out@.to_multiset() == units@.to_multiset(),
{
    let mut input = units;
    let mut out: Vec<Unit> = Vec::new();
    while input.len() > 0
        invariant
            sorted_units(out@),
            out@.to_multiset().add(input@.to_multiset()) == units@.to_multiset(),
        decreases input@.len(),
    {
        let ghost pre_in = input@;
        let ghost pre_out = out@;
        let x = input.pop().unwrap();
        proof {
            assert(input@ =~= pre_in.remove(pre_in.len() - 1));
        }
        let mut j: usize = 0;
        while j < out.len() && out[j].capacity <= x.capacity
            invariant
                j <= out@.len(),
                out@ == pre_out,
                forall|t: int| 0 <= t < j ==> unit_le(out@[t], x),
            decreases out@.len() - j,
        {
            j += 1;
        }
        out.insert(j, x);
        proof {
            let s0 = pre_out.subrange(0, j as int);
            let s1 = pre_out.subrange(j as int, pre_out.len() as int);
            assert(out@ == pre_out.insert(j as int, x));
            assert(out@ =~= s0.push(x) + s1);
            assert(forall|t: int| 0 <= t < j ==> out@[t] == pre_out[t]);
            assert(out@[j as int] == x);
            assert(forall|t: int| j < t < out@.len() ==> out@[t] == pre_out[t - 1]);
            assert forall|a: int, b: int| 0 <= a < b < out@.len() implies unit_le(
                out@[a],
                out@[b],
            ) by {
                if a == j && b > j {
                    assert(unit_le(pre_out[j as int], pre_out[b - 1]) || b - 1 == j);
                }
            }
            assert(pre_in[pre_in.len() - 1] == x);
            assert(pre_in.contains(x));
            vstd::seq_lib::to_multiset_insert(pre_out, j as int, x);
            vstd::seq_lib::to_multiset_remove(pre_in, pre_in.len() - 1);
            assert(out@.to_multiset().add(input@.to_multiset()) =~= units@.to_multiset());
        }
    }
    out
}

/// Insertion sort under `reservation_le`; returns a sorted rearrangement.
pub fn sort_reservations(reservations: Vec<Reservation>) -> (out: Vec<Reservation>)
    ensures
        sorted_reservations(out@),
        out@.to_multiset() == reservations@.to_multiset(),
{
    let mut input = reservations;
    let mut out: Vec<Reservation> = Vec::new();
    while input.len() > 0
        invariant
            sorted_reservations(out@),
            out@.to_multiset().add(input@.to_multiset()) == reservations@.to_multiset(),
        decreases input@.len(),
    {
        let ghost pre_in = input@;
        let ghost pre_out = out@;
        let x = input.pop().unwrap();
        proof {
            assert(input@ =~= pre_in.remove(pre_in.len() - 1));
        }
        let mut j: usize = 0;
        while j < out.len() && reservation_le_exec(&out[j], &x)
            invariant
                j <= out@.len(),
                out@ == pre_out,
                forall|t: int| 0 <= t < j ==> reservation_le(out@[t], x),
            decreases out@.len() - j,
        {
            j += 1;
        }
        out.insert(j, x);
        proof {
            let s0 = pre_out.subrange(0, j as int);
            let s1 = pre_out.subrange(j as int, pre_out.len() as int);
            assert(out@ == pre_out.insert(j as int, x));
            assert(out@ =~= s0.push(x) + s1);
            assert(forall|t: int| 0 <= t < j ==> out@[t] == pre_out[t]);
            assert(out@[j as int] == x);
            assert(forall|t: int| j < t < out@.len() ==> out@[t] == pre_out[t - 1]);
            assert forall|a: int, b: int| 0 <= a < b < out@.len() implies reservation_le(
                out@[a],
                out@[b],
            ) by {
                if a == j && b > j {
                    assert(reservation_le(pre_out[j as int], pre_out[b - 1]) || b - 1 == j);
                }
            }
            assert(pre_in[pre_in.len() - 1] == x);
            assert(pre_in.contains(x));
            vstd::seq_lib::to_multiset_insert(pre_out, j as int, x);
            vstd::seq_lib::to_multiset_remove(pre_in, pre_in.len() - 1);
            assert(out@.to_multiset().add(input@.to_multiset()) =~= reservations@.to_multiset());
        }
    }
    out
}

/// Executable form of the global reservation order.
fn reservation_le_exec(a: &Reservation, b: &Reservation) -> (r: bool)
    ensures
        r == reservation_le(*a, *b),
{
    a.min < b.min || (a.min == b.min && (a.max < b.max || (a.max == b.max && a.weight
        <= b.weight)))
}

} // verus!
