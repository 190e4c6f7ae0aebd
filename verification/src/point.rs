use vstd::prelude::*;

verus! {

/// A canvas coordinate pair, in the canvas's internal pixel resolution.
///
/// A point is an immutable value: editing replaces a point wholesale, never
/// mutates one in place.
#[derive(Clone, Copy, Debug, PartialEq, Eq, Structural)]
pub struct Point {
    pub x: u16,
    pub y: u16,
}

/// The seed point that a freshly created stroke or character entry carries.
pub open spec fn default_point() -> Point {
    Point { x: 50, y: 50 }
}

/// Builds the seed point for new strokes and entries.
pub fn fresh_point() -> (p: Point)
    ensures
        p == default_point(),
{
    Point { x: 50, y: 50 }
}

} // verus!
