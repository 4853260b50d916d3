//! Positions and extents on the board, in rows and columns.

use vstd::prelude::*;

verus! {

/// A row and a column. The same pair serves as an absolute position on the
/// board, as an offset between two positions, and as the height and width of a
/// footprint.
#[derive(Clone, Copy, Debug, PartialEq, Eq, Hash, Structural)]
pub struct Location {
    pub y: i32,
    pub x: i32,
}

impl Location {
    /// The component-wise sum, as a pair of unbounded integers.
    pub open spec fn sum(self, other: Location) -> (int, int) {
        (self.y + other.y, self.x + other.x)
    }

    /// The component-wise difference, as a pair of unbounded integers.
    pub open spec fn difference(self, other: Location) -> (int, int) {
        (self.y - other.y, self.x - other.x)
    }

    /// Whether a pair of unbounded integers can be held in a `Location`.
    pub open spec fn representable(p: (int, int)) -> bool {
        i32::MIN <= p.0 <= i32::MAX && i32::MIN <= p.1 <= i32::MAX
    }

    /// The number of single steps along the axes that lead from one location
    /// to the other.
    pub open spec fn steps_between(self, other: Location) -> nat {
        (if self.y <= other.y {
            other.y - self.y
        } else {
            self.y - other.y
        } + if self.x <= other.x {
            other.x - self.x
        } else {
            self.x - other.x
        }) as nat
    }

    /// The cell in row `y` and column `x`.
    pub fn new(y: i32, x: i32) -> (loc: Location)
        ensures
            loc.y == y,
            loc.x == x,
    {
        Location { y, x }
    }

    /// Adds the two locations component by component.
    pub fn plus(&self, other: &Location) -> (r: Location)
        requires
            Self::representable(self.sum(*other)),
        ensures
            (r.y as int, r.x as int) == self.sum(*other),
    {
        Location { y: self.y + other.y, x: self.x + other.x }
    }

    /// Subtracts `other` from `self` component by component.
    pub fn minus(&self, other: &Location) -> (r: Location)
        requires
            Self::representable(self.difference(*other)),
        ensures
            (r.y as int, r.x as int) == self.difference(*other),
    {
        Location { y: self.y - other.y, x: self.x - other.x }
    }

    /// The Manhattan distance between the two locations.
    pub fn distance_to(&self, other: &Location) -> (d: u32)
        requires
            self.steps_between(*other) <= u32::MAX,
        ensures
            d == self.steps_between(*other),
    {
        let dy: u64 = if self.y <= other.y {
            (other.y as i64 - self.y as i64) as u64
        } else {
            (self.y as i64 - other.y as i64) as u64
        };
        let dx: u64 = if self.x <= other.x {
            (other.x as i64 - self.x as i64) as u64
        } else {
            (self.x as i64 - other.x as i64) as u64
        };
        (dy + dx) as u32
    }

    /// The neighbour one row up.
    pub fn north(&self) -> (r: Location)
        requires
            self.y > i32::MIN,
        ensures
            r.y == self.y - 1,
            r.x == self.x,
    {
        Location { y: self.y - 1, x: self.x }
    }

    /// The neighbour one row down.
    pub fn south(&self) -> (r: Location)
        requires
            self.y < i32::MAX,
        ensures
            r.y == self.y + 1,
            r.x == self.x,
    {
        Location { y: self.y + 1, x: self.x }
    }

    /// The neighbour one column to the left.
    pub fn west(&self) -> (r: Location)
        requires
            self.x > i32::MIN,
        ensures
            r.y == self.y,
            r.x == self.x - 1,
    {
        Location { y: self.y, x: self.x - 1 }
    }

    /// The neighbour one column to the right.
    pub fn east(&self) -> (r: Location)
        requires
            self.x < i32::MAX,
        ensures
            r.y == self.y,
            r.x == self.x + 1,
    {
        Location { y: self.y, x: self.x + 1 }
    }
}

} // verus!
