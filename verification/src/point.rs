//! The input event of the interact protocol.

use vstd::prelude::*;

verus! {

/// A click on the two-dimensional input plane.
#[derive(Clone, Copy, Debug, PartialEq, Eq, Structural)]
pub struct Point {
    pub x: i64,
    pub y: i64,
}

impl Default for Point {
    /// The origin, which is the click that opens a session.
    fn default() -> (p: Point)
        ensures
            p.x == 0,
            p.y == 0,
    {
        Point { x: 0, y: 0 }
    }
}

/// Turns the coordinates that the event source reported into the click
/// that the driver consumes.
pub fn request_click_from_user(x: i64, y: i64) -> (p: Point)
    ensures
        p.x == x,
        p.y == y,
{
    Point { x, y }
}

} // verus!
