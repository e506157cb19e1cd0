//! Chronological ordering of date values by their center points.
use crate::types::{date_center, date_value_years_supported, DateValue};
use core::cmp::Ordering;
use vstd::prelude::*;
use vstd::std_specs::cmp::PartialOrdSpecImpl;

verus! {

/// Ordering of two integers.
pub open spec fn order_of(a: int, b: int) -> Ordering {
    if a < b {
        Ordering::Less
    } else if a == b {
        Ordering::Equal
    } else {
        Ordering::Greater
    }
}

/// Chronological comparison of two date values: their center points compared,
/// and no order where either has none (a textual date). Years outside the
/// calendar range have no center point either.
pub open spec fn chronological_order(a: DateValue, b: DateValue) -> Option<Ordering> {
    if date_value_years_supported(a) && date_value_years_supported(b) {
        match (date_center(a), date_center(b)) {
            (Some(x), Some(y)) => Some(order_of(x, y)),
            _ => None,
        }
    } else {
        None
    }
}

impl PartialOrdSpecImpl for DateValue {
    open spec fn obeys_partial_cmp_spec() -> bool {
        true
    }

    open spec fn partial_cmp_spec(&self, other: &DateValue) -> Option<Ordering> {
        chronological_order(*self, *other)
    }
}

impl PartialOrd for DateValue {
    fn partial_cmp(&self, other: &DateValue) -> (r: Option<Ordering>) {
        if !self.years_supported() || !other.years_supported() {
            return None;
        }
        let left = self.center_day();
        let right = other.center_day();
        match (left, right) {
            (Some(x), Some(y)) => {
                if x < y {
                    Some(Ordering::Less)
                } else if x == y {
                    Some(Ordering::Equal)
                } else {
                    Some(Ordering::Greater)
                }
            },
            _ => None,
        }
    }
}


/// The opposite of an ordering.
pub open spec fn reversed(o: Ordering) -> Ordering {
    match o {
        Ordering::Less => Ordering::Greater,
        Ordering::Equal => Ordering::Equal,
        Ordering::Greater => Ordering::Less,
    }
}

/// Comparing two date values the other way round gives the reversed
/// ordering, or no ordering when there was none.
pub proof fn law_chronological_order_antisymmetric(a: DateValue, b: DateValue)
    ensures
        chronological_order(b, a) == match chronological_order(a, b) {
            Some(o) => Some(reversed(o)),
            None => None,
        },
{
}

/// A date value with a center point is chronologically equal to itself.
pub proof fn law_chronological_order_reflexive(a: DateValue)
    requires
        date_value_years_supported(a),
        date_center(a) is Some,
    ensures
        chronological_order(a, a) == Some(Ordering::Equal),
{
}

/// Chronological order is transitive.
pub proof fn law_chronological_order_transitive(a: DateValue, b: DateValue, c: DateValue)
    requires
        chronological_order(a, b) == Some(Ordering::Less),
        chronological_order(b, c) == Some(Ordering::Less),
    ensures
        chronological_order(a, c) == Some(Ordering::Less),
{
}

} // verus!
