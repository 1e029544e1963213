use vstd::prelude::*;
use crate::geom::Point;

verus! {

/// Shrines and the segments between them.
#[derive(Debug)]
pub struct LeyNetwork {
    pub shrines: Vec<Point>,
    pub lines: Vec<(Point, Point)>,
}

/// The map center tile: half the size, halves rounded up.
pub open spec fn center_tile_of(w: int, h: int) -> Point {
    Point { x: ((w + 1) / 2) as i32, y: ((h + 1) / 2) as i32 }
}

/// The tile at the map's center (`size / 2`, rounded half away from zero).
pub fn center_tile(w: i32, h: i32) -> (r: Point)
    requires
        0 <= w,
        0 <= h,
    ensures
        r == center_tile_of(w as int, h as int),
{
    Point { x: ((w as i64 + 1) / 2) as i32, y: ((h as i64 + 1) / 2) as i32 }
}

/// Phase 2: connects the given shrines. With `connect_cycle`, segment `j` joins
/// shrine `j` to shrine `j + 1` (the last to the first); with `connect_spokes`,
/// one segment follows from the map center to each shrine, in shrine order.
pub fn generate_ley(
    map_size: (i32, i32),
    shrines: Vec<Point>,
    connect_cycle: bool,
    connect_spokes: bool,
) -> (r: LeyNetwork)
    requires
        shrines@.len() >= 1,
        0 <= map_size.0,
        0 <= map_size.1,
    ensures
        r.shrines@ == shrines@,
        r.lines@.len() == (if connect_cycle { shrines@.len() } else { 0 }) + (if connect_spokes {
            shrines@.len()
        } else {
            0
        }),
        connect_cycle ==> forall|j: int|
            0 <= j < shrines@.len() ==> #[trigger] r.lines@[j] == (
                shrines@[j],
                shrines@[(j + 1) % (shrines@.len() as int)],
            ),
        connect_spokes ==> forall|j: int|
            0 <= j < shrines@.len() ==> r.lines@[(if connect_cycle {
                shrines@.len() as int
            } else {
                0
            }) + j] == (center_tile_of(map_size.0 as int, map_size.1 as int), #[trigger] shrines@[j]),
{
    let m = shrines.len();
    let mut lines: Vec<(Point, Point)> = Vec::new();
    if connect_cycle {
        let mut j: usize = 0;
        while j < m
            invariant
                m == shrines@.len(),
                j <= m,
                lines@.len() == j,
                forall|k: int| 0 <= k < j ==> #[trigger] lines@[k] == (shrines@[k], shrines@[(k + 1) % (m as int)]),
            decreases m - j,
        {
            let next = if j + 1 == m { 0 } else { j + 1 };
            proof {
                if j + 1 == m {
                    assert((j + 1) as int % (m as int) == 0) by (nonlinear_arith)
                        requires j + 1 == m, m >= 1;
                } else {
                    assert((j + 1) as int % (m as int) == j + 1) by (nonlinear_arith)
                        requires j + 1 < m;
                }
            }
            lines.push((shrines[j], shrines[next]));
            j = j + 1;
        }
    }
    let off = lines.len();
    if connect_spokes {
        let c = center_tile(map_size.0, map_size.1);
        let mut j: usize = 0;
        while j < m
            invariant
                m == shrines@.len(),
                j <= m,
                off == (if connect_cycle { m } else { 0 }),
                lines@.len() == off + j,
                connect_cycle ==> forall|k: int| 0 <= k < m ==> #[trigger] lines@[k] == (shrines@[k], shrines@[(k + 1) % (m as int)]),
                c == center_tile_of(map_size.0 as int, map_size.1 as int),
                forall|k: int| 0 <= k < j ==> lines@[off + k] == (c, #[trigger] shrines@[k]),
            decreases m - j,
        {
            lines.push((c, shrines[j]));
            j = j + 1;
        }
    }
    LeyNetwork { shrines, lines }
}

} // verus!
