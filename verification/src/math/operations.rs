//! The geometric questions that shapes answer about themselves and each other.

use vstd::prelude::*;
use crate::math::point::Point;

verus! {

/// A shape with a centre of mass.
pub trait Center {
    /// The centre, where the shape has one.
    spec fn center_spec(&self) -> Option<Point>;

    fn center(&self) -> (c: Option<Point>)
        ensures
            c == self.center_spec(),
    ;
}

/// A shape that can meet another.
pub trait Intersects<T> {
    spec fn intersects_spec(&self, other: &T) -> bool;

    fn intersects(&self, other: &T) -> (hit: bool)
        ensures
            hit == self.intersects_spec(other),
    ;
}

/// A shape that can lie inside another.
pub trait Inside<T> {
    spec fn inside_spec(&self, other_object: &T) -> bool;

    fn inside(&self, other_object: &T) -> (within: bool)
        ensures
            within == self.inside_spec(other_object),
    ;
}

/// A shape that can cover part of another.
pub trait Overlaps<T> {
    spec fn overlaps_spec(&self, other_object: &T) -> bool;

    fn overlaps(&self, other_object: &T) -> (covers: bool)
        ensures
            covers == self.overlaps_spec(other_object),
    ;
}

} // verus!
