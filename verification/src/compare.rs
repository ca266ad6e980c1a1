//! The comparison operators of values.
use vstd::prelude::*;
use vstd::std_specs::cmp::{PartialEqSpecImpl, PartialOrdSpecImpl};
use core::cmp::Ordering;
use crate::value::{partial_order, total_order, PakOrder, PakValue};

verus! {

impl PartialEqSpecImpl for PakValue {
    open spec fn obeys_eq_spec() -> bool {
        true
    }

    /// Two values are equal where they are comparable and compare as equal.
    open spec fn eq_spec(&self, other: &PakValue) -> bool {
        partial_order(self@, other@) == Some(PakOrder::Equal)
    }
}

impl PartialEq for PakValue {
    fn eq(&self, other: &PakValue) -> (r: bool) {
        match self.partial_compare(other) {
            Some(PakOrder::Equal) => true,
            _ => false,
        }
    }
}

impl Eq for PakValue {

}

impl PartialOrdSpecImpl for PakValue {
    open spec fn obeys_partial_cmp_spec() -> bool {
        true
    }

    open spec fn partial_cmp_spec(&self, other: &PakValue) -> Option<Ordering> {
        match partial_order(self@, other@) {
            Some(PakOrder::Less) => Some(Ordering::Less),
            Some(PakOrder::Equal) => Some(Ordering::Equal),
            Some(PakOrder::Greater) => Some(Ordering::Greater),
            None => None,
        }
    }
}

impl PartialOrd for PakValue {
    fn partial_cmp(&self, other: &PakValue) -> (r: Option<Ordering>) {
        match self.partial_compare(other) {
            Some(PakOrder::Less) => Some(Ordering::Less),
            Some(PakOrder::Equal) => Some(Ordering::Equal),
            Some(PakOrder::Greater) => Some(Ordering::Greater),
            None => None,
        }
    }
}

impl PakValue {
    /// The order by which keys are sorted: incomparable values count as equal.
    pub fn cmp(&self, other: &PakValue) -> (r: Ordering)
        ensures
            r == match total_order(self@, other@) {
                PakOrder::Less => Ordering::Less,
                PakOrder::Equal => Ordering::Equal,
                PakOrder::Greater => Ordering::Greater,
            },
    {
        match self.compare(other) {
            PakOrder::Less => Ordering::Less,
            PakOrder::Equal => Ordering::Equal,
            PakOrder::Greater => Ordering::Greater,
        }
    }
}

} // verus!
