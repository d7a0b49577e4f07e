use vstd::prelude::*;

verus! {

/// A grid address: `y` is the row, `x` is the column.
///
/// The fields are signed because neighbor enumeration computes `row - 1` and
/// `col - 1`, which may go negative before the bounds check rules them out.
#[derive(Debug, Copy, Clone, PartialEq, Eq, Structural)]
pub struct Cordinates {
    pub x: i32,
    pub y: i32,
}

impl Cordinates {
    /// Builds the address for row `y`, column `x`.
    pub fn new(y: i32, x: i32) -> (c: Cordinates)
        ensures
            c.y == y,
            c.x == x,
    {
        Cordinates { x, y }
    }
}

} // verus!
