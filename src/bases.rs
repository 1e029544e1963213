use vstd::prelude::*;
use crate::geom::{Point, in_disk};
use crate::grid::{Grid, board_ok, on_board, cell_index, lemma_index_bounds};
use crate::masks::{flag, mask_ok, new_mask, paint_disk};
use crate::template::MapTemplate;

verus! {

/// Output of base placement: the height grid with every base disk flattened, the
/// base centers and the disk radius.
#[derive(Debug)]
pub struct BaseLocations {
    pub height: Grid<i32>,
    pub base_centers: Vec<Point>,
    pub base_radius: i32,
}

/// The radius of a base disk: the configured one, at least 1.
pub open spec fn disk_radius_of(base_radius: int) -> int {
    if base_radius < 1 { 1 } else { base_radius }
}

/// The base ring radius: the configured one, cut so that a disk of radius `r_disk`
/// on the ring stays off the border, and never below 0.
pub open spec fn ring_radius_of(w: int, h: int, center_radius: int, r_disk: int) -> int {
    let half = (if w < h { w } else { h }) / 2;
    let max_ring = if half - r_disk - 1 > 0 { half - r_disk - 1 } else { 0 };
    if center_radius < max_ring { center_radius } else { max_ring }
}

/// `(x, y)` lies in the disk of radius `r` around one of `centers`.
pub open spec fn in_any_disk(centers: Seq<Point>, r: int, x: int, y: int) -> bool {
    exists|i: int| 0 <= i < centers.len() && in_disk(#[trigger] centers[i], r, x, y)
}

pub fn disk_radius(base_radius: i32) -> (r: i32)
    ensures
        r == disk_radius_of(base_radius as int),
        r >= 1,
{
    if base_radius < 1 { 1 } else { base_radius }
}

/// The distance from the map center at which bases stand.
pub fn ring_radius(tpl: &MapTemplate) -> (r: i32)
    requires
        board_ok(tpl.size.0 as int, tpl.size.1 as int),
    ensures
        r == ring_radius_of(
            tpl.size.0 as int,
            tpl.size.1 as int,
            tpl.player_spawns.center_radius as int,
            disk_radius_of(tpl.player_spawns.base_radius as int),
        ),
{
    let (w, h) = tpl.size;
    let r_disk = disk_radius(tpl.player_spawns.base_radius);
    let half: i64 = (if w < h { w } else { h }) as i64 / 2;
    let max_ring: i64 = if half - r_disk as i64 - 1 > 0 { half - r_disk as i64 - 1 } else { 0 };
    let c = tpl.player_spawns.center_radius as i64;
    (if c < max_ring { c } else { max_ring }) as i32
}

/// Marks every cell within `r` of one of `centers`.
pub fn union_of_disks(w: i32, h: i32, centers: &Vec<Point>, r: i32) -> (m: Vec<bool>)
    requires
        board_ok(w as int, h as int),
    ensures
        mask_ok(m@, w as int, h as int),
        forall|x: int, y: int| on_board(w as int, h as int, x, y) ==> #[trigger] flag(m@, w as int, x, y)
            == in_any_disk(centers@, r as int, x, y),
{
    let mut m = new_mask(w, h, false);
    let mut i: usize = 0;
    while i < centers.len()
        invariant
            i <= centers@.len(),
            mask_ok(m@, w as int, h as int),
            forall|x: int, y: int| on_board(w as int, h as int, x, y) ==> #[trigger] flag(m@, w as int, x, y)
                == in_any_disk(centers@.take(i as int), r as int, x, y),
        decreases centers@.len() - i,
    {
        let ghost before = m@;
        paint_disk(&mut m, w, h, centers[i], r, true);
        proof {
            assert forall|x: int, y: int| on_board(w as int, h as int, x, y) implies #[trigger] flag(m@, w as int, x, y)
                == in_any_disk(centers@.take(i + 1), r as int, x, y) by {
                let t = centers@.take(i + 1);
                if in_disk(centers@[i as int], r as int, x, y) {
                    assert(t[i as int] == centers@[i as int]);
                } else {
                    if in_any_disk(t, r as int, x, y) {
                        let k = choose|k: int| 0 <= k < t.len() && in_disk(#[trigger] t[k], r as int, x, y);
                        assert(centers@.take(i as int)[k] == t[k]);
                    }
                    if in_any_disk(centers@.take(i as int), r as int, x, y) {
                        let k = choose|k: int| 0 <= k < i && in_disk(#[trigger] centers@.take(i as int)[k], r as int, x, y);
                        assert(centers@.take(i as int)[k] == t[k]);
                    }
                }
            }
        }
        i = i + 1;
    }
    assert(centers@.take(centers@.len() as int) == centers@);
    m
}

/// Phase 1: flattens a disk of the configured elevation around each given base
/// center on an otherwise zero height grid.
pub fn generate_bases(tpl: &MapTemplate, centers: Vec<Point>) -> (r: BaseLocations)
    requires
        centers@.len() >= 1,
        board_ok(tpl.size.0 as int, tpl.size.1 as int),
    ensures
        r.base_centers@ == centers@,
        r.base_radius == disk_radius_of(tpl.player_spawns.base_radius as int),
        r.height.wf(),
        r.height.w == tpl.size.0,
        r.height.h == tpl.size.1,
        forall|x: int, y: int| on_board(tpl.size.0 as int, tpl.size.1 as int, x, y) ==> #[trigger] r.height.at(x, y)
            == if in_any_disk(centers@, r.base_radius as int, x, y) { tpl.player_spawns.elevation } else { 0i32 },
{
    let (w, h) = tpl.size;
    let r_disk = disk_radius(tpl.player_spawns.base_radius);
    let elev = tpl.player_spawns.elevation;
    let m = union_of_disks(w, h, &centers, r_disk);
    let mut height: Grid<i32> = Grid::filled(w, h, 0i32);
    let mut y: i32 = 0;
    while y < h
        invariant
            0 <= y <= h,
            board_ok(w as int, h as int),
            mask_ok(m@, w as int, h as int),
            height.wf(),
            height.w == w,
            height.h == h,
            forall|x2: int, y2: int| on_board(w as int, h as int, x2, y2) ==> #[trigger] flag(m@, w as int, x2, y2)
                == in_any_disk(centers@, r_disk as int, x2, y2),
            forall|x2: int, y2: int| on_board(w as int, h as int, x2, y2) ==> #[trigger] height.at(x2, y2)
                == if y2 < y && flag(m@, w as int, x2, y2) { elev } else { 0i32 },
        decreases h - y,
    {
        let mut x: i32 = 0;
        while x < w
            invariant
                0 <= y < h,
                0 <= x <= w,
                board_ok(w as int, h as int),
                mask_ok(m@, w as int, h as int),
                height.wf(),
                height.w == w,
                height.h == h,
                forall|x2: int, y2: int| on_board(w as int, h as int, x2, y2) ==> #[trigger] height.at(x2, y2)
                    == if (y2 < y || (y2 == y && x2 < x)) && flag(m@, w as int, x2, y2) { elev } else { 0i32 },
            decreases w - x,
        {
            proof {
                lemma_index_bounds(w as int, h as int, x as int, y as int);
            }
            let i = (y * w + x) as usize;
            if m[i] {
                let ghost before = height;
                height.set(x, y, elev);
                proof {
                    assert forall|x2: int, y2: int| on_board(w as int, h as int, x2, y2) && !(x2 == x && y2 == y)
                        implies #[trigger] height.at(x2, y2) == before.at(x2, y2) by {
                        lemma_index_bounds(w as int, h as int, x2, y2);
                        if cell_index(w as int, x2, y2) == cell_index(w as int, x as int, y as int) {
                            crate::grid::lemma_index_injective(w as int, h as int, x2, y2, x as int, y as int);
                        }
                    }
                }
            }
            x = x + 1;
        }
        y = y + 1;
    }
    BaseLocations { height, base_centers: centers, base_radius: r_disk }
}

} // verus!
