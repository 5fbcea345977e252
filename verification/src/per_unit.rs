//! Cost per unit, compared exactly by cross-multiplying in 128 bits.
//!
//! Integer division would tie lots whose per-unit costs differ by less than a
//! minor unit. Equality agrees with the order: 100 over 10 equals 200 over 20.

use vstd::prelude::*;
use core::cmp::Ordering;
use vstd::std_specs::cmp::PartialEqSpecImpl;
use vstd::std_specs::cmp::PartialOrdSpecImpl;

verus! {

/// A cost spread over a number of units.
#[derive(Clone, Copy, Debug)]
pub struct PerUnit {
    cost: i64,
    units: i64,
}

/// `a.cost × b.units`, the left side of the cross-multiplied comparison.
pub closed spec fn cross_left(a: PerUnit, b: PerUnit) -> int {
    a.cost * b.units
}

/// `b.cost × a.units`, the right side of the cross-multiplied comparison.
pub closed spec fn cross_right(a: PerUnit, b: PerUnit) -> int {
    b.cost * a.units
}

impl PerUnit {
    /// The per-unit cost of `cost` over `units`.
    pub fn new(cost: i64, units: i64) -> (p: Self)
        ensures
            p.cost() == cost,
            p.units() == units,
    {
        PerUnit { cost, units }
    }

    /// The cost.
    pub closed spec fn cost(self) -> i64 {
        self.cost
    }

    /// The units.
    pub closed spec fn units(self) -> i64 {
        self.units
    }
}

/// Both sides of the comparison, each in 128 bits where it cannot wrap.
fn cross(a: &PerUnit, b: &PerUnit) -> (r: (i128, i128))
    ensures
        r.0 == cross_left(*a, *b),
        r.1 == cross_right(*a, *b),
{
    proof {
        crate::order::lemma_cross(a.cost as int, b.units as int);
        crate::order::lemma_cross(b.cost as int, a.units as int);
    }
    ((a.cost as i128) * (b.units as i128), (b.cost as i128) * (a.units as i128))
}

/// The order of two per-unit costs.
pub open spec fn per_unit_order(a: PerUnit, b: PerUnit) -> Ordering {
    if cross_left(a, b) < cross_right(a, b) {
        Ordering::Less
    } else if cross_left(a, b) == cross_right(a, b) {
        Ordering::Equal
    } else {
        Ordering::Greater
    }
}

impl PartialEq for PerUnit {
    fn eq(&self, other: &Self) -> (r: bool) {
        let (x, y) = cross(self, other);
        x == y
    }
}

impl PartialEqSpecImpl for PerUnit {
    open spec fn obeys_eq_spec() -> bool {
        true
    }

    open spec fn eq_spec(&self, other: &Self) -> bool {
        cross_left(*self, *other) == cross_right(*self, *other)
    }
}

impl Eq for PerUnit {}

impl PartialOrd for PerUnit {
    fn partial_cmp(&self, other: &Self) -> (r: Option<Ordering>) {
        let (x, y) = cross(self, other);
        if x < y {
            Some(Ordering::Less)
        } else if x == y {
            Some(Ordering::Equal)
        } else {
            Some(Ordering::Greater)
        }
    }
}

impl PartialOrdSpecImpl for PerUnit {
    open spec fn obeys_partial_cmp_spec() -> bool {
        true
    }

    open spec fn partial_cmp_spec(&self, other: &Self) -> Option<Ordering> {
        Some(per_unit_order(*self, *other))
    }
}

} // verus!
