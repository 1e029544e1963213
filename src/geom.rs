use vstd::prelude::*;

verus! {

/// A tile coordinate.
#[derive(Clone, Copy, Debug, PartialEq, Eq, Structural)]
pub struct Point {
    pub x: i32,
    pub y: i32,
}

/// Squared Euclidean distance between two integer points.
pub open spec fn dist2(ax: int, ay: int, bx: int, by: int) -> int {
    (ax - bx) * (ax - bx) + (ay - by) * (ay - by)
}

/// Tile `(x, y)` lies in the closed disk of radius `r` around `c`.
pub open spec fn in_disk(c: Point, r: int, x: int, y: int) -> bool {
    r >= 0 && dist2(x, y, c.x as int, c.y as int) <= r * r
}

impl Point {
    pub fn new(x: i32, y: i32) -> (r: Point)
        ensures
            r.x == x,
            r.y == y,
    {
        Point { x, y }
    }
}

/// Exact squared distance between two points.
pub fn distance2(a: Point, b: Point) -> (r: i128)
    ensures
        r == dist2(a.x as int, a.y as int, b.x as int, b.y as int),
        r >= 0,
{
    let dx = a.x as i128 - b.x as i128;
    let dy = a.y as i128 - b.y as i128;
    assert(0 <= dx * dx <= 0x1_0000_0000_0000_0000) by (nonlinear_arith)
        requires -0x1_0000_0000 <= dx <= 0x1_0000_0000;
    assert(0 <= dy * dy <= 0x1_0000_0000_0000_0000) by (nonlinear_arith)
        requires -0x1_0000_0000 <= dy <= 0x1_0000_0000;
    dx * dx + dy * dy
}

} // verus!
