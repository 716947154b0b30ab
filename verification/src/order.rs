use vstd::prelude::*;
use std::cmp::Ordering;
use crate::dtype::{value_less, DataType};

verus! {

impl PartialOrd for DataType {
    /// How this value stands to `other` in the order of all values: less or
    /// greater where one is less than the other, and equal where they are
    /// the same value. The order is total, so there is always an answer.
    fn partial_cmp(&self, other: &DataType) -> (r: Option<Ordering>) {
        if self.less_than(other) {
            Some(Ordering::Less)
        } else if other.less_than(self) {
            Some(Ordering::Greater)
        } else if self == other {
            Some(Ordering::Equal)
        } else {
            None
        }
    }
}

impl vstd::std_specs::cmp::PartialOrdSpecImpl for DataType {
    open spec fn obeys_partial_cmp_spec() -> bool {
        true
    }

    open spec fn partial_cmp_spec(&self, other: &DataType) -> Option<Ordering> {
        if value_less(self@, other@) {
            Some(Ordering::Less)
        } else if value_less(other@, self@) {
            Some(Ordering::Greater)
        } else if self@ == other@ {
            Some(Ordering::Equal)
        } else {
            None
        }
    }
}

} // verus!
