//! A point in the plane.
use vstd::prelude::*;

verus! {

/// A point with coordinates of type `T`.
#[derive(Debug, Clone, Copy, PartialEq, Eq, Structural, Hash)]
pub struct Point<T> {
    pub x: T,
    pub y: T,
}

impl<T> Point<T> {
    /// The point `(x, y)`.
    pub fn new(x: T, y: T) -> (p: Self)
        ensures
            p.x == x,
            p.y == y,
    {
        Point { x, y }
    }
}

} // verus!
