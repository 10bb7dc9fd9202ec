//! The order of byte sizes: by their counts.
use crate::bytescale::ByteScale;
use core::cmp::Ordering;
use vstd::prelude::*;
use vstd::std_specs::cmp::PartialOrdIs;

verus! {

impl PartialOrd for ByteScale {
    /// Compares the two counts.
    fn partial_cmp(&self, other: &ByteScale) -> (r: Option<Ordering>) {
        if self.0 < other.0 {
            Some(Ordering::Less)
        } else if self.0 == other.0 {
            Some(Ordering::Equal)
        } else {
            Some(Ordering::Greater)
        }
    }
}

impl vstd::std_specs::cmp::PartialOrdSpecImpl for ByteScale {
    open spec fn obeys_partial_cmp_spec() -> bool {
        true
    }

    open spec fn partial_cmp_spec(&self, other: &ByteScale) -> Option<Ordering> {
        if self.0 < other.0 {
            Some(Ordering::Less)
        } else if self.0 == other.0 {
            Some(Ordering::Equal)
        } else {
            Some(Ordering::Greater)
        }
    }
}

/// The order of byte sizes is the order of their counts: `a < b` exactly when
/// `a.0 < b.0`, and likewise for `<=`, `>` and `>=` (the spec forms `is_lt` ...
/// `is_ge` of these operators).
pub proof fn law_order_by_count(a: ByteScale, b: ByteScale)
    ensures
        a.is_lt(&b) <==> a.0 < b.0,
        a.is_le(&b) <==> a.0 <= b.0,
        a.is_gt(&b) <==> a.0 > b.0,
        a.is_ge(&b) <==> a.0 >= b.0,
{
}

} // verus!
