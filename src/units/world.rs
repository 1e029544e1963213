use vstd::prelude::*;
use crate::geom::Point;
use crate::grid::{Grid, board_ok, on_board, cell_index, lemma_index_bounds, lemma_index_injective};
use crate::objects::PlacedObject;
use crate::template::MapTemplate;
use crate::landscape::{TERRAIN_FOREST, TERRAIN_WATER, TERRAIN_MOUNTAIN};
use crate::rng::Rng64;

verus! {

/// Thousandths of a tile per tile: world positions count in these.
pub const TILE: i64 = 1000;

pub const TREE_NUTS_MAX: i64 = 8_000_000;
/// Regrowth rates, in thousandths per second (millionths per millisecond).
pub const TREE_NUTS_REGEN_PER_SEC: i64 = 30;
pub const BUSH_BERRIES_MAX: i64 = 6_000_000;
pub const BERRIES_REGEN_PER_SEC: i64 = 40;
/// The largest food stock a tile can hold.
pub const STOCK_LIMIT: i64 = 1_000_000_000_000;

#[derive(Clone, Copy, Debug, PartialEq, Eq, Structural)]
pub enum Terrain {
    Forest,
    Grassland,
    Mountain,
    Water,
}

#[derive(Clone, Copy, Debug, PartialEq, Eq, Structural)]
pub enum TileObject {
    Tree,
    Bush,
    Cave,
}

/// A map cell: its terrain, what stands on it, and its food stocks in
/// millionths.
#[derive(Clone, Copy, Debug, PartialEq, Eq, Structural)]
pub struct Tile {
    pub terrain: Terrain,
    pub object: Option<TileObject>,
    pub nuts: i64,
    pub berries: i64,
    pub nuts_max: i64,
    pub berries_max: i64,
}

/// Stocks never exceed their maximum nor go below zero.
pub open spec fn tile_ok(t: Tile) -> bool {
    &&& 0 <= t.nuts <= t.nuts_max <= STOCK_LIMIT
    &&& 0 <= t.berries <= t.berries_max <= STOCK_LIMIT
}

/// A world position or velocity, in thousandths of a tile.
#[derive(Clone, Copy, Debug, PartialEq, Eq, Structural)]
pub struct Vec2i {
    pub x: i64,
    pub y: i64,
}

/// Board sizes the simulation works with.
pub open spec fn sim_size_ok(w: int, h: int) -> bool {
    1 <= w <= 1_000_000 && 1 <= h <= 1_000_000 && board_ok(w, h)
}

#[derive(Debug)]
pub struct TileMap {
    pub width: i32,
    pub height: i32,
    pub tiles: Vec<Tile>,
}

/// Floor of `v / TILE`.
pub open spec fn floor_tile(v: int) -> int {
    if v >= 0 { v / 1000 } else { -((-v + 999) / 1000) }
}

impl TileMap {
    pub open spec fn wf(&self) -> bool {
        &&& sim_size_ok(self.width as int, self.height as int)
        &&& self.tiles@.len() == self.width * self.height
        &&& forall|i: int| 0 <= i < self.tiles@.len() ==> tile_ok(#[trigger] self.tiles@[i])
    }

    pub open spec fn tile(&self, x: int, y: int) -> Tile {
        self.tiles@[cell_index(self.width as int, x, y)]
    }

    pub fn new(width: i32, height: i32, fill: Tile) -> (r: TileMap)
        requires
            sim_size_ok(width as int, height as int),
            tile_ok(fill),
        ensures
            r.wf(),
            r.width == width,
            r.height == height,
            forall|i: int| 0 <= i < r.tiles@.len() ==> #[trigger] r.tiles@[i] == fill,
    {
        let n = (width * height) as usize;
        let mut tiles: Vec<Tile> = Vec::with_capacity(n);
        let mut i: usize = 0;
        while i < n
            invariant
                i <= n,
                tiles@.len() == i,
                forall|j: int| 0 <= j < i ==> #[trigger] tiles@[j] == fill,
            decreases n - i,
        {
            tiles.push(fill);
            i = i + 1;
        }
        TileMap { width, height, tiles }
    }

    /// The index of a cell, or `None` off the map.
    pub fn idx(&self, cell: Point) -> (r: Option<usize>)
        requires
            self.wf(),
        ensures
            on_board(self.width as int, self.height as int, cell.x as int, cell.y as int) ==> r == Some(
                cell_index(self.width as int, cell.x as int, cell.y as int) as usize,
            ),
            !on_board(self.width as int, self.height as int, cell.x as int, cell.y as int) ==> r.is_none(),
            r.is_some() ==> (r.unwrap() as int) < self.tiles@.len(),
    {
        if cell.x >= 0 && cell.y >= 0 && cell.x < self.width && cell.y < self.height {
            proof {
                lemma_index_bounds(self.width as int, self.height as int, cell.x as int, cell.y as int);
            }
            Some((cell.y * self.width + cell.x) as usize)
        } else {
            None
        }
    }

    pub fn tile_at_cell(&self, cell: Point) -> (r: Option<Tile>)
        requires
            self.wf(),
        ensures
            on_board(self.width as int, self.height as int, cell.x as int, cell.y as int) ==> r == Some(
                self.tile(cell.x as int, cell.y as int),
            ),
            !on_board(self.width as int, self.height as int, cell.x as int, cell.y as int) ==> r.is_none(),
    {
        proof {
            if on_board(self.width as int, self.height as int, cell.x as int, cell.y as int) {
                lemma_index_bounds(self.width as int, self.height as int, cell.x as int, cell.y as int);
            }
        }
        match self.idx(cell) {
            Some(i) => Some(self.tiles[i]),
            None => None,
        }
    }

    /// The cell a world position falls in.
    pub fn cell_at_world(&self, pos: Vec2i) -> (r: Point)
        requires
            -0x4000_0000_0000 <= pos.x <= 0x4000_0000_0000,
            -0x4000_0000_0000 <= pos.y <= 0x4000_0000_0000,
            -0x8000_0000 <= floor_tile(pos.x as int) < 0x8000_0000,
            -0x8000_0000 <= floor_tile(pos.y as int) < 0x8000_0000,
        ensures
            r.x == floor_tile(pos.x as int),
            r.y == floor_tile(pos.y as int),
    {
        let x = if pos.x >= 0 { pos.x / TILE } else { -((-pos.x + 999) / TILE) };
        let y = if pos.y >= 0 { pos.y / TILE } else { -((-pos.y + 999) / TILE) };
        Point { x: x as i32, y: y as i32 }
    }

    /// The terrain at a world position; grass off the map.
    pub fn terrain_at_world(&self, pos: Vec2i) -> (r: Terrain)
        requires
            self.wf(),
            world_ok(*self, pos),
        ensures
            r == terrain_at(*self, pos),
    {
        let c = self.cell_at_world(pos);
        match self.tile_at_cell(c) {
            Some(t) => t.terrain,
            None => Terrain::Grassland,
        }
    }

    /// Movement speed factor at a world position, in thousandths.
    pub fn speed_multiplier(&self, pos: Vec2i) -> (r: i64)
        requires
            self.wf(),
            world_ok(*self, pos),
        ensures
            r == speed_permille(terrain_at(*self, pos)),
    {
        match self.terrain_at_world(pos) {
            Terrain::Water => 500,
            Terrain::Mountain => 800,
            Terrain::Forest => 1000,
            Terrain::Grassland => 1000,
        }
    }
}

/// A position within one map size of the board on every side.
pub open spec fn world_ok(map: TileMap, p: Vec2i) -> bool {
    -(map.width * 1000) <= p.x <= 2 * map.width * 1000 && -(map.height * 1000) <= p.y <= 2 * map.height * 1000
}

pub open spec fn terrain_at(map: TileMap, p: Vec2i) -> Terrain {
    let x = floor_tile(p.x as int);
    let y = floor_tile(p.y as int);
    if on_board(map.width as int, map.height as int, x, y) { map.tile(x, y).terrain } else { Terrain::Grassland }
}

/// Water halves speed, mountains slow to 0.8, forest and grass leave it whole.
pub open spec fn speed_permille(t: Terrain) -> i64 {
    match t {
        Terrain::Water => 500,
        Terrain::Mountain => 800,
        _ => 1000,
    }
}

/// A tile after `dt_ms` of regrowth: a tree's nuts and a bush's berries grow
/// toward their maximum.
pub open spec fn regrown(t: Tile, dt_ms: int) -> Tile {
    match t.object {
        Some(TileObject::Tree) => {
            let n = t.nuts + TREE_NUTS_REGEN_PER_SEC * dt_ms;
            Tile { nuts: if n < t.nuts_max { n as i64 } else { t.nuts_max }, ..t }
        },
        Some(TileObject::Bush) => {
            let b = t.berries + BERRIES_REGEN_PER_SEC * dt_ms;
            Tile { berries: if b < t.berries_max { b as i64 } else { t.berries_max }, ..t }
        },
        _ => t,
    }
}

/// Regrows every plant on the map for one tick.
pub fn plants_regrow(map: &mut TileMap, dt_ms: i64)
    requires
        old(map).wf(),
        0 <= dt_ms <= 1_000_000,
    ensures
        final(map).wf(),
        final(map).width == old(map).width,
        final(map).height == old(map).height,
        final(map).tiles@.len() == old(map).tiles@.len(),
        forall|i: int| 0 <= i < final(map).tiles@.len() ==> #[trigger] final(map).tiles@[i] == regrown(old(map).tiles@[i], dt_ms as int),
{
    let ghost old_tiles = map.tiles@;
    let n = map.tiles.len();
    let mut i: usize = 0;
    while i < n
        invariant
            n == map.tiles@.len(),
            n == old_tiles.len(),
            map.width == old(map).width,
            map.height == old(map).height,
            sim_size_ok(map.width as int, map.height as int),
            map.tiles@.len() == map.width * map.height,
            0 <= dt_ms <= 1_000_000,
            i <= n,
            forall|j: int| 0 <= j < i ==> #[trigger] map.tiles@[j] == regrown(old_tiles[j], dt_ms as int),
            forall|j: int| i <= j < n ==> #[trigger] map.tiles@[j] == old_tiles[j],
            forall|j: int| 0 <= j < n ==> tile_ok(#[trigger] old_tiles[j]),
            forall|j: int| 0 <= j < n ==> tile_ok(#[trigger] map.tiles@[j]),
        decreases n - i,
    {
        let t = map.tiles[i];
        let t2 = match t.object {
            Some(TileObject::Tree) => {
                let v = t.nuts + TREE_NUTS_REGEN_PER_SEC * dt_ms;
                Tile { nuts: if v < t.nuts_max { v } else { t.nuts_max }, ..t }
            },
            Some(TileObject::Bush) => {
                let v = t.berries + BERRIES_REGEN_PER_SEC * dt_ms;
                Tile { berries: if v < t.berries_max { v } else { t.berries_max }, ..t }
            },
            _ => t,
        };
        assert(0 <= TREE_NUTS_REGEN_PER_SEC * dt_ms) by (nonlinear_arith)
            requires 0 <= dt_ms;
        assert(0 <= BERRIES_REGEN_PER_SEC * dt_ms) by (nonlinear_arith)
            requires 0 <= dt_ms;
        map.tiles.set(i, t2);
        i = i + 1;
    }
}

/// A tile of the given terrain with nothing on it.
pub fn empty_tile(terrain: Terrain) -> (r: Tile)
    ensures
        r == (Tile { terrain, object: None, nuts: 0, berries: 0, nuts_max: 0, berries_max: 0 }),
        tile_ok(r),
{
    Tile { terrain, object: None, nuts: 0, berries: 0, nuts_max: 0, berries_max: 0 }
}

/// The terrain a class byte stands for; unknown bytes are grass.
pub open spec fn terrain_of_class(c: u8) -> Terrain {
    if c == TERRAIN_FOREST {
        Terrain::Forest
    } else if c == TERRAIN_WATER {
        Terrain::Water
    } else if c == TERRAIN_MOUNTAIN {
        Terrain::Mountain
    } else {
        Terrain::Grassland
    }
}

pub fn tile_from_class(class: u8) -> (r: Tile)
    ensures
        r == (Tile { terrain: terrain_of_class(class), object: None, nuts: 0, berries: 0, nuts_max: 0, berries_max: 0 }),
        tile_ok(r),
{
    let terrain = if class == TERRAIN_FOREST {
        Terrain::Forest
    } else if class == TERRAIN_WATER {
        Terrain::Water
    } else if class == TERRAIN_MOUNTAIN {
        Terrain::Mountain
    } else {
        Terrain::Grassland
    };
    empty_tile(terrain)
}

/// A map with one empty tile per class cell, of the class's terrain.
pub fn classes_to_tilemap(classes: &Grid<u8>) -> (r: TileMap)
    requires
        classes.wf(),
        sim_size_ok(classes.w as int, classes.h as int),
    ensures
        r.wf(),
        r.width == classes.w,
        r.height == classes.h,
        forall|i: int| 0 <= i < r.tiles@.len() ==> #[trigger] r.tiles@[i] == tile_from_class_spec(classes.cells()[i]),
{
    let n = classes.data.len();
    let mut tiles: Vec<Tile> = Vec::with_capacity(n);
    let mut i: usize = 0;
    while i < n
        invariant
            n == classes.cells().len(),
            i <= n,
            tiles@.len() == i,
            forall|j: int| 0 <= j < i ==> #[trigger] tiles@[j] == tile_from_class_spec(classes.cells()[j]),
        decreases n - i,
    {
        tiles.push(tile_from_class(classes.data[i]));
        i = i + 1;
    }
    TileMap { width: classes.w, height: classes.h, tiles }
}

pub open spec fn tile_from_class_spec(c: u8) -> Tile {
    Tile { terrain: terrain_of_class(c), object: None, nuts: 0, berries: 0, nuts_max: 0, berries_max: 0 }
}


/// The demo map's terrain pattern: water every 13th column, mountains every
/// 17th row, forest on every 7th diagonal, grass elsewhere.
pub open spec fn demo_terrain(x: int, y: int) -> Terrain {
    if x % 13 == 0 {
        Terrain::Water
    } else if y % 17 == 0 {
        Terrain::Mountain
    } else if (x + y) % 7 == 0 {
        Terrain::Forest
    } else {
        Terrain::Grassland
    }
}

/// A demo map: the terrain pattern, with trees (10%) and bushes (8%) in forests
/// and bushes (6%) on grass, drawn from `rng`, each with a full stock.
pub fn make_demo_map(width: i32, height: i32, rng: &mut Rng64) -> (map: TileMap)
    requires
        sim_size_ok(width as int, height as int),
    ensures
        map.wf(),
        map.width == width,
        map.height == height,
        forall|x: int, y: int| on_board(width as int, height as int, x, y) ==> {
            let t = #[trigger] map.tile(x, y);
            &&& t.terrain == demo_terrain(x, y)
            &&& match t.object {
                Some(TileObject::Tree) => t.terrain == Terrain::Forest && t.nuts == TREE_NUTS_MAX && t.nuts_max == TREE_NUTS_MAX,
                Some(TileObject::Bush) => (t.terrain == Terrain::Forest || t.terrain == Terrain::Grassland)
                    && t.berries == BUSH_BERRIES_MAX && t.berries_max == BUSH_BERRIES_MAX,
                Some(TileObject::Cave) => false,
                None => true,
            }
        },
{
    let mut map = TileMap::new(width, height, empty_tile(Terrain::Grassland));
    let mut y: i32 = 0;
    while y < height
        invariant
            map.wf(),
            map.width == width,
            map.height == height,
            0 <= y <= height,
            forall|x2: int, y2: int| on_board(width as int, height as int, x2, y2) && y2 < y ==> {
                let t = #[trigger] map.tile(x2, y2);
                &&& t.terrain == demo_terrain(x2, y2)
                &&& match t.object {
                    Some(TileObject::Tree) => t.terrain == Terrain::Forest && t.nuts == TREE_NUTS_MAX && t.nuts_max == TREE_NUTS_MAX,
                    Some(TileObject::Bush) => (t.terrain == Terrain::Forest || t.terrain == Terrain::Grassland)
                        && t.berries == BUSH_BERRIES_MAX && t.berries_max == BUSH_BERRIES_MAX,
                    Some(TileObject::Cave) => false,
                    None => true,
                }
            },
        decreases height - y,
    {
        let mut x: i32 = 0;
        while x < width
            invariant
                map.wf(),
                map.width == width,
                map.height == height,
                0 <= y < height,
                0 <= x <= width,
                forall|x2: int, y2: int| on_board(width as int, height as int, x2, y2) && (y2 < y || (y2 == y && x2 < x)) ==> {
                    let t = #[trigger] map.tile(x2, y2);
                    &&& t.terrain == demo_terrain(x2, y2)
                    &&& match t.object {
                        Some(TileObject::Tree) => t.terrain == Terrain::Forest && t.nuts == TREE_NUTS_MAX && t.nuts_max == TREE_NUTS_MAX,
                        Some(TileObject::Bush) => (t.terrain == Terrain::Forest || t.terrain == Terrain::Grassland)
                            && t.berries == BUSH_BERRIES_MAX && t.berries_max == BUSH_BERRIES_MAX,
                        Some(TileObject::Cave) => false,
                        None => true,
                    }
                },
            decreases width - x,
        {
            let terrain = if x % 13 == 0 {
                Terrain::Water
            } else if y % 17 == 0 {
                Terrain::Mountain
            } else if (x + y) % 7 == 0 {
                Terrain::Forest
            } else {
                Terrain::Grassland
            };
            let roll = rng.permille();
            let mut t = empty_tile(terrain);
            match terrain {
                Terrain::Forest => {
                    if roll < 100 {
                        t = Tile { object: Some(TileObject::Tree), nuts_max: TREE_NUTS_MAX, nuts: TREE_NUTS_MAX, ..t };
                    } else if roll < 180 {
                        t = Tile { object: Some(TileObject::Bush), berries_max: BUSH_BERRIES_MAX, berries: BUSH_BERRIES_MAX, ..t };
                    }
                },
                Terrain::Grassland => {
                    if roll < 60 {
                        t = Tile { object: Some(TileObject::Bush), berries_max: BUSH_BERRIES_MAX, berries: BUSH_BERRIES_MAX, ..t };
                    }
                },
                _ => {},
            }
            proof {
                lemma_index_bounds(width as int, height as int, x as int, y as int);
            }
            let i = (y * width + x) as usize;
            assert(t.terrain == demo_terrain(x as int, y as int));
            let ghost before = map.tiles@;
            let ghost old_map = map;
            map.tiles.set(i, t);
            proof {
                assert forall|q: int| 0 <= q < map.tiles@.len() implies tile_ok(#[trigger] map.tiles@[q]) by {
                    if q != i {
                        assert(map.tiles@[q] == before[q]);
                    }
                }
                assert forall|x2: int, y2: int| on_board(width as int, height as int, x2, y2) && (y2 < y || (y2 == y && x2 < x + 1))
                    implies #[trigger] map.tile(x2, y2) == (if x2 == x && y2 == y { t } else { before[cell_index(width as int, x2, y2)] }) by {
                    lemma_index_bounds(width as int, height as int, x2, y2);
                    if cell_index(width as int, x2, y2) == cell_index(width as int, x as int, y as int) {
                        lemma_index_injective(width as int, height as int, x2, y2, x as int, y as int);
                    }
                }
                assert forall|x2: int, y2: int| on_board(width as int, height as int, x2, y2) && (y2 < y || (y2 == y && x2 < x + 1)) && !(x2 == x && y2 == y)
                    implies #[trigger] map.tile(x2, y2) == old_map.tile(x2, y2) by {
                    lemma_index_bounds(width as int, height as int, x2, y2);
                    if cell_index(width as int, x2, y2) == cell_index(width as int, x as int, y as int) {
                        lemma_index_injective(width as int, height as int, x2, y2, x as int, y as int);
                    }
                }
            }
            x = x + 1;
        }
        y = y + 1;
    }
    map
}

pub open spec fn nuts_sum(tiles: Seq<Tile>, n: int) -> int
    decreases n,
{
    if n <= 0 { 0 } else { nuts_sum(tiles, n - 1) + tiles[n - 1].nuts }
}

pub open spec fn berries_sum(tiles: Seq<Tile>, n: int) -> int
    decreases n,
{
    if n <= 0 { 0 } else { berries_sum(tiles, n - 1) + tiles[n - 1].berries }
}

/// The nuts and the berries on the whole map, in millionths.
pub fn food_totals(map: &TileMap) -> (r: (i128, i128))
    requires
        map.wf(),
    ensures
        r.0 == nuts_sum(map.tiles@, map.tiles@.len() as int),
        r.1 == berries_sum(map.tiles@, map.tiles@.len() as int),
{
    let mut n: i128 = 0;
    let mut b: i128 = 0;
    let mut i: usize = 0;
    while i < map.tiles.len()
        invariant
            map.wf(),
            i <= map.tiles@.len(),
            n == nuts_sum(map.tiles@, i as int),
            b == berries_sum(map.tiles@, i as int),
            0 <= n <= i * STOCK_LIMIT,
            0 <= b <= i * STOCK_LIMIT,
        decreases map.tiles@.len() - i,
    {
        let t = map.tiles[i];
        assert(tile_ok(t));
        assert(i * STOCK_LIMIT + STOCK_LIMIT == (i + 1) * STOCK_LIMIT) by (nonlinear_arith);
        assert((i + 1) * STOCK_LIMIT <= 0x8000_0000 * STOCK_LIMIT) by (nonlinear_arith)
            requires i + 1 <= 0x8000_0000;
        n = n + t.nuts as i128;
        b = b + t.berries as i128;
        i = i + 1;
    }
    (n, b)
}

} // verus!
