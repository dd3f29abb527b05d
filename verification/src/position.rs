//! Screen positions and the squared pixel distance between two of them.

use vstd::prelude::*;

verus! {

/// An ordered pair of integer screen coordinates, produced fresh on every
/// sample of the pointer device.
#[derive(Clone, Copy, Debug, PartialEq, Eq, Structural)]
pub struct Position {
    pub x: i32,
    pub y: i32,
}

/// The squared Euclidean pixel distance between two positions.
pub open spec fn delta_sq(a: Position, b: Position) -> nat {
    ((b.x - a.x) * (b.x - a.x) + (b.y - a.y) * (b.y - a.y)) as nat
}

impl Position {
    pub fn new(x: i32, y: i32) -> (p: Position)
        ensures
            p.x == x,
            p.y == y,
    {
        Position { x, y }
    }
}

/// Computes the squared Euclidean pixel distance between two positions.
pub fn delta_squared(a: Position, b: Position) -> (d: u128)
    ensures
        d == delta_sq(a, b),
        d <= 36893488147419103232u128,
{
    let dx: i64 = b.x as i64 - a.x as i64;
    let dy: i64 = b.y as i64 - a.y as i64;
    proof {
        assert(dx * dx >= 0 && dx * dx <= 4294967296i64 * 4294967296i64) by (nonlinear_arith)
            requires
                -4294967296i64 <= dx <= 4294967296i64,
        ;
        assert(dy * dy >= 0 && dy * dy <= 4294967296i64 * 4294967296i64) by (nonlinear_arith)
            requires
                -4294967296i64 <= dy <= 4294967296i64,
        ;
    }
    let dx2: u128 = (dx as i128 * dx as i128) as u128;
    let dy2: u128 = (dy as i128 * dy as i128) as u128;
    dx2 + dy2
}

} // verus!
