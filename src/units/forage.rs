use vstd::prelude::*;
use crate::geom::Point;
use crate::grid::{on_board, cell_index, lemma_index_bounds};
use crate::units::species::{Species, FoodKind, nut_eater, berry_eater, eats_nuts, eats_berries};
use crate::units::world::{Tile, TileMap, Vec2i, tile_ok};
use crate::units::motion::{d2, dist2, small_vec, COORD_LIMIT};
use crate::units::creature::{cell_center, cell_center_of, in_box};

verus! {

/// A stock at least 45% of its maximum (and a maximum above zero).
pub open spec fn refilled(stock: int, max: int) -> bool {
    max > 0 && 100 * stock >= 45 * max
}

/// The tile has regrown enough for this species to come back to it.
pub open spec fn ratio_ok(sp: Species, t: Tile) -> bool {
    match sp {
        Species::Deer => refilled(t.berries as int, t.berries_max as int),
        Species::Squirrel | Species::Bird => refilled(t.nuts as int, t.nuts_max as int)
            || refilled(t.berries as int, t.berries_max as int),
        _ => false,
    }
}

pub open spec fn has_nuts_for(sp: Species, t: Tile) -> bool {
    nut_eater(sp) && t.nuts > 50_000
}

pub open spec fn has_berries_for(sp: Species, t: Tile) -> bool {
    berry_eater(sp) && t.berries > 50_000
}

/// The species may forage on this tile.
pub open spec fn food_ok(sp: Species, t: Tile) -> bool {
    ratio_ok(sp, t) && (has_nuts_for(sp, t) || has_berries_for(sp, t))
}

/// The food the species goes for on a tile: the richer one when both are there.
pub open spec fn kind_on(sp: Species, t: Tile) -> FoodKind {
    if has_nuts_for(sp, t) && has_berries_for(sp, t) {
        if t.nuts >= t.berries { FoodKind::Nuts } else { FoodKind::Berries }
    } else if has_nuts_for(sp, t) {
        FoodKind::Nuts
    } else {
        FoodKind::Berries
    }
}

fn refilled_exec(stock: i64, max: i64) -> (r: bool)
    requires
        0 <= stock <= max <= 1_000_000_000_000,
    ensures
        r == refilled(stock as int, max as int),
{
    max > 0 && 100 * stock >= 45 * max
}

pub fn tile_food_ok(sp: Species, t: &Tile) -> (r: bool)
    requires
        tile_ok(*t),
    ensures
        r == food_ok(sp, *t),
{
    let ratio = match sp {
        Species::Deer => refilled_exec(t.berries, t.berries_max),
        Species::Squirrel | Species::Bird => refilled_exec(t.nuts, t.nuts_max) || refilled_exec(t.berries, t.berries_max),
        _ => false,
    };
    ratio && ((eats_nuts(sp) && t.nuts > 50_000) || (eats_berries(sp) && t.berries > 50_000))
}

/// `cell` is where a creature of species `sp` at `from` goes to forage: a cell
/// with food for it whose center is nearest, the first in row-major order among
/// equally near ones.
#[verifier::opaque]
pub open spec fn food_choice(map: TileMap, sp: Species, from: Vec2i, cell: Point) -> bool {
    &&& on_board(map.width as int, map.height as int, cell.x as int, cell.y as int)
    &&& food_ok(sp, map.tile(cell.x as int, cell.y as int))
    &&& forall|x: int, y: int| on_board(map.width as int, map.height as int, x, y) && food_ok(sp, #[trigger] map.tile(x, y))
        ==> d2(from, cell_center_of(cell)) <= d2(from, cell_center_of(Point { x: x as i32, y: y as i32 }))
    &&& forall|x: int, y: int| on_board(map.width as int, map.height as int, x, y) && food_ok(sp, #[trigger] map.tile(x, y))
        && (y < cell.y || (y == cell.y && x < cell.x))
        ==> d2(from, cell_center_of(cell)) < d2(from, cell_center_of(Point { x: x as i32, y: y as i32 }))
}

/// The nearest cell (by its center) where the species may forage, and the food
/// it would take there; among equally near cells the first in row-major order.
pub fn nearest_food_cell(map: &TileMap, sp: Species, from: Vec2i) -> (r: Option<(Point, FoodKind)>)
    requires
        map.wf(),
        in_box(*map, from),
    ensures
        r.is_none() <==> forall|x: int, y: int| on_board(map.width as int, map.height as int, x, y) ==> !food_ok(sp, #[trigger] map.tile(x, y)),
        match r {
            Some((c, k)) => food_choice(*map, sp, from, c),
            None => true,
        },
        match r {
            Some((c, k)) => {
                &&& on_board(map.width as int, map.height as int, c.x as int, c.y as int)
                &&& food_ok(sp, map.tile(c.x as int, c.y as int))
                &&& k == kind_on(sp, map.tile(c.x as int, c.y as int))
                &&& forall|x: int, y: int| on_board(map.width as int, map.height as int, x, y) && food_ok(sp, #[trigger] map.tile(x, y))
                    ==> d2(from, cell_center_of(c)) <= d2(from, cell_center_of(Point { x: x as i32, y: y as i32 }))
                &&& forall|x: int, y: int| on_board(map.width as int, map.height as int, x, y) && food_ok(sp, #[trigger] map.tile(x, y))
                    && (y < c.y || (y == c.y && x < c.x))
                    ==> d2(from, cell_center_of(c)) < d2(from, cell_center_of(Point { x: x as i32, y: y as i32 }))
            },
            None => true,
        },
{
    let w = map.width;
    let h = map.height;
    let mut best: Option<(Point, i128, FoodKind)> = None;
    let mut y: i32 = 0;
    while y < h
        invariant
            map.wf(),
            w == map.width,
            h == map.height,
            in_box(*map, from),
            0 <= y <= h,
            match best {
                Some((c, d, k)) => {
                    &&& on_board(w as int, h as int, c.x as int, c.y as int)
                    &&& food_ok(sp, map.tile(c.x as int, c.y as int))
                    &&& k == kind_on(sp, map.tile(c.x as int, c.y as int))
                    &&& d == d2(from, cell_center_of(c))
                    &&& forall|x2: int, y2: int| on_board(w as int, h as int, x2, y2) && y2 < y && food_ok(sp, #[trigger] map.tile(x2, y2))
                        ==> d <= d2(from, cell_center_of(Point { x: x2 as i32, y: y2 as i32 }))
                    &&& forall|x2: int, y2: int| on_board(w as int, h as int, x2, y2) && food_ok(sp, #[trigger] map.tile(x2, y2))
                        && (y2 < c.y || (y2 == c.y && x2 < c.x))
                        ==> d < d2(from, cell_center_of(Point { x: x2 as i32, y: y2 as i32 }))
                    &&& (c.y < y)
                },
                None => forall|x2: int, y2: int| on_board(w as int, h as int, x2, y2) && y2 < y ==> !food_ok(sp, #[trigger] map.tile(x2, y2)),
            },
        decreases h - y,
    {
        let mut x: i32 = 0;
        while x < w
            invariant
                map.wf(),
                w == map.width,
                h == map.height,
                in_box(*map, from),
                0 <= y < h,
                0 <= x <= w,
                match best {
                    Some((c, d, k)) => {
                        &&& on_board(w as int, h as int, c.x as int, c.y as int)
                        &&& food_ok(sp, map.tile(c.x as int, c.y as int))
                        &&& k == kind_on(sp, map.tile(c.x as int, c.y as int))
                        &&& d == d2(from, cell_center_of(c))
                        &&& forall|x2: int, y2: int| on_board(w as int, h as int, x2, y2) && (y2 < y || (y2 == y && x2 < x)) && food_ok(sp, #[trigger] map.tile(x2, y2))
                            ==> d <= d2(from, cell_center_of(Point { x: x2 as i32, y: y2 as i32 }))
                        &&& forall|x2: int, y2: int| on_board(w as int, h as int, x2, y2) && food_ok(sp, #[trigger] map.tile(x2, y2))
                            && (y2 < c.y || (y2 == c.y && x2 < c.x))
                            ==> d < d2(from, cell_center_of(Point { x: x2 as i32, y: y2 as i32 }))
                        &&& (c.y < y || (c.y == y && c.x < x))
                    },
                    None => forall|x2: int, y2: int| on_board(w as int, h as int, x2, y2) && (y2 < y || (y2 == y && x2 < x)) ==> !food_ok(sp, #[trigger] map.tile(x2, y2)),
                },
            decreases w - x,
        {
            proof {
                lemma_index_bounds(w as int, h as int, x as int, y as int);
            }
            let t = map.tiles[(y * w + x) as usize];
            assert(t == map.tile(x as int, y as int));
            if tile_food_ok(sp, &t) {
                let cell = Point { x, y };
                let c = cell_center(cell);
                let d = dist2(from, c);
                let has_n = eats_nuts(sp) && t.nuts > 50_000;
                let has_b = eats_berries(sp) && t.berries > 50_000;
                let kind = if has_n && has_b {
                    if t.nuts >= t.berries { FoodKind::Nuts } else { FoodKind::Berries }
                } else if has_n {
                    FoodKind::Nuts
                } else {
                    FoodKind::Berries
                };
                match best {
                    None => {
                        best = Some((cell, d, kind));
                    },
                    Some((_, bd, _)) => {
                        if d < bd {
                            best = Some((cell, d, kind));
                        }
                    },
                }
            }
            x = x + 1;
        }
        y = y + 1;
    }
    proof {
        reveal(food_choice);
    }
    match best {
        Some((c, _, k)) => Some((c, k)),
        None => None,
    }
}

} // verus!
