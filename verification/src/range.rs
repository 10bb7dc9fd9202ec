//! `HumanByteRange`: an inclusive range of byte sizes.
use vstd::prelude::*;
use vstd::std_specs::convert::{FromSpec, IntoSpec};

verus! {

/// An inclusive range of byte sizes, from `start` to `stop`.
pub struct HumanByteRange<T: From<u64>> {
    start: T,
    stop: T,
}

impl<T: From<u64>> HumanByteRange<T> {
    /// The lower bound.
    pub closed spec fn start(&self) -> T {
        self.start
    }

    /// The upper bound.
    pub closed spec fn stop(&self) -> T {
        self.stop
    }

    /// A range from `start` to `stop`; a missing `start` is 0 and a missing `stop` is
    /// `u64::MAX`, both converted to `T`.
    pub fn new<I: Into<T>>(start: Option<I>, stop: Option<I>) -> (r: Self)
        ensures
            I::obeys_into_spec() ==> (start matches Some(s) ==> r.start() == s.into_spec()),
            start is None && T::obeys_from_spec() ==> r.start() == T::from_spec(0),
            I::obeys_into_spec() ==> (stop matches Some(s) ==> r.stop() == s.into_spec()),
            stop is None && T::obeys_from_spec() ==> r.stop() == T::from_spec(u64::MAX),
    {
        let start = match start {
            Some(s) => s.into(),
            None => T::from(0),
        };
        let stop = match stop {
            Some(s) => s.into(),
            None => T::from(u64::MAX),
        };
        HumanByteRange { start, stop }
    }

    /// The lower bound.
    pub fn start_value(&self) -> (r: &T)
        ensures
            *r == self.start(),
    {
        &self.start
    }

    /// The upper bound.
    pub fn stop_value(&self) -> (r: &T)
        ensures
            *r == self.stop(),
    {
        &self.stop
    }
}

/// `core::ops::Bound`, with its variants visible: a bound is `Included`, `Excluded` or
/// `Unbounded`.
#[verifier::external_type_specification]
#[verifier::reject_recursive_types(T)]
pub struct ExBound<T>(core::ops::Bound<T>);

impl<T: From<u64>> core::ops::RangeBounds<T> for HumanByteRange<T> {
    /// The lower bound, which the range includes.
    fn start_bound(&self) -> (r: core::ops::Bound<&T>)
        ensures
            r == core::ops::Bound::Included(&self.start()),
    {
        core::ops::Bound::Included(&self.start)
    }

    /// The upper bound, which the range includes.
    fn end_bound(&self) -> (r: core::ops::Bound<&T>)
        ensures
            r == core::ops::Bound::Included(&self.stop()),
    {
        core::ops::Bound::Included(&self.stop)
    }
}

} // verus!
