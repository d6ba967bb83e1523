//! The interval value type: an immutable pair of bounds.

use vstd::prelude::*;
use crate::fixed::Fixed;

verus! {

/// A closed interval `[left, right]`. The ordered constructor [`Interval::new`]
/// expects `left <= right` under the element type's ordering; the engines of
/// this crate prove that for the intervals they build. The explicitly named
/// alternate constructor [`Interval::new_unordered_unchecked`] waives the
/// expectation and stores the pair as given: the quantile engine uses it, so
/// that for a custom ordering the first bound is always the lower order
/// statistic by rank, whatever the element comparator would say.
#[derive(Clone, Copy, Debug, PartialEq, Eq)]
pub struct Interval<T> {
    left: T,
    right: T,
}

impl<T> Interval<T> {
    /// The first (lower) bound.
    pub closed spec fn left_val(self) -> T {
        self.left
    }

    /// The second (upper) bound.
    pub closed spec fn right_val(self) -> T {
        self.right
    }

    /// Ordered construction: the caller supplies the bounds already ordered.
    pub fn new(left: T, right: T) -> (r: Interval<T>)
        ensures
            r.left_val() == left,
            r.right_val() == right,
    {
        Interval { left, right }
    }

    /// Unordered construction: stores the pair as given, waiving the
    /// ordering expectation of [`Interval::new`].
    pub fn new_unordered_unchecked(left: T, right: T) -> (r: Interval<T>)
        ensures
            r.left_val() == left,
            r.right_val() == right,
    {
        Interval { left, right }
    }

    /// A reference to the first bound.
    pub fn left(&self) -> (r: Option<&T>)
        ensures
            r matches Some(v) && *v == self.left_val(),
    {
        Some(&self.left)
    }

    /// A reference to the second bound.
    pub fn right(&self) -> (r: Option<&T>)
        ensures
            r matches Some(v) && *v == self.right_val(),
    {
        Some(&self.right)
    }
}

impl<T: Copy> Interval<T> {
    /// The lower bound, by value.
    pub fn low(&self) -> (r: Option<T>)
        ensures
            r == Some(self.left_val()),
    {
        Some(self.left)
    }

    /// The upper bound, by value.
    pub fn high(&self) -> (r: Option<T>)
        ensures
            r == Some(self.right_val()),
    {
        Some(self.right)
    }
}

impl Interval<Fixed> {
    /// Containment test: whether `x` lies between the bounds, inclusive.
    pub fn contains(&self, x: &Fixed) -> (r: bool)
        ensures
            r == (self.left_val().val() <= x.val() <= self.right_val().val()),
    {
        self.left.raw() <= x.raw() && x.raw() <= self.right.raw()
    }
}

} // verus!
