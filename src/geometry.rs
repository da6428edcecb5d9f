//! Grid coordinates, facing directions and perception modes.

use vstd::prelude::*;

verus! {

/// A grid cell `(x, y)`; `x` grows to the east, `y` grows to the south.
pub type Position = (usize, usize);

/// Absolute value of an integer.
pub open spec fn abs(a: int) -> int {
    if a < 0 { -a } else { a }
}

/// The squared Euclidean distance between two cells.
pub open spec fn dist_sq(a: Position, b: Position) -> int {
    (a.0 - b.0) * (a.0 - b.0) + (a.1 - b.1) * (a.1 - b.1)
}

/// Two cells are further apart than six cells (Euclidean).
pub open spec fn beyond_six(a: Position, b: Position) -> bool {
    dist_sq(a, b) > 36
}

/// One of the eight compass directions an observer can face.
#[derive(Clone, Copy, Debug, PartialEq, Eq, Hash, Structural)]
pub enum Direction {
    North,
    NorthEast,
    East,
    SouthEast,
    South,
    SouthWest,
    West,
    NorthWest,
}

/// How an observer perceives: everything, or a radius with a directional shape.
#[derive(Clone, Copy, Debug, PartialEq, Eq, Hash, Structural)]
pub enum ViewMode {
    Full,
    Circle { radius: usize },
    Cone { radius: usize },
    Plane { radius: usize },
}

impl ViewMode {
    /// The distance cutoff of the view; `Full` has none and reports zero.
    pub open spec fn radius_spec(self) -> usize {
        match self {
            ViewMode::Full => 0,
            ViewMode::Circle { radius } => radius,
            ViewMode::Cone { radius } => radius,
            ViewMode::Plane { radius } => radius,
        }
    }

    pub fn radius(&self) -> (r: usize)
        ensures
            r == self.radius_spec(),
    {
        match self {
            ViewMode::Full => 0,
            ViewMode::Circle { radius } => *radius,
            ViewMode::Cone { radius } => *radius,
            ViewMode::Plane { radius } => *radius,
        }
    }
}

/// Whether `a` and `b` are more than six cells apart, computed without floating point.
pub fn is_beyond_six(a: Position, b: Position) -> (r: bool)
    requires
        a.0 < 0x8000_0000,
        a.1 < 0x8000_0000,
        b.0 < 0x8000_0000,
        b.1 < 0x8000_0000,
    ensures
        r == beyond_six(a, b),
{
    let dx: u64 = if a.0 >= b.0 { (a.0 - b.0) as u64 } else { (b.0 - a.0) as u64 };
    let dy: u64 = if a.1 >= b.1 { (a.1 - b.1) as u64 } else { (b.1 - a.1) as u64 };
    assert(dx * dx == (a.0 - b.0) * (a.0 - b.0)) by (nonlinear_arith)
        requires dx == abs(a.0 - b.0);
    assert(dy * dy == (a.1 - b.1) * (a.1 - b.1)) by (nonlinear_arith)
        requires dy == abs(a.1 - b.1);
    assert(dx * dx < 0x4000_0000_0000_0000) by (nonlinear_arith)
        requires dx < 0x8000_0000;
    assert(dy * dy < 0x4000_0000_0000_0000) by (nonlinear_arith)
        requires dy < 0x8000_0000;
    dx * dx + dy * dy > 36
}

} // verus!
