use vstd::prelude::*;
use crate::geom::Point;
use crate::grid::{on_board, cell_index, lemma_index_bounds};
use crate::units::species::{
    Species, Needs, needs_ok, nut_eater, berry_eater, eats_nuts, eats_berries, default_needs,
    default_needs_spec,
};
use crate::units::world::{Tile, TileMap, Vec2i, tile_ok, speed_permille, terrain_at, TILE};
use crate::units::motion::{d2, dist2, scaled, scale_to, small_vec, tdiv, trunc_div, COORD_LIMIT};

verus! {

#[derive(Clone, Copy, Debug, PartialEq, Eq, Structural)]
pub enum BrainState {
    Wander,
    Forage,
    Eating,
    Hunt,
    Flee,
}

/// What a creature is doing and what it aims at. `replan_cd` is the time left,
/// in milliseconds, before it picks a new goal.
#[derive(Clone, Copy, Debug, PartialEq, Eq, Structural)]
pub struct Brain {
    pub state: BrainState,
    pub replan_cd: i64,
    pub target_cell: Option<Point>,
    pub target_entity: Option<u64>,
}

impl Brain {
    pub fn new() -> (r: Brain)
        ensures
            r == (Brain { state: BrainState::Wander, replan_cd: 0, target_cell: None, target_entity: None }),
    {
        Brain { state: BrainState::Wander, replan_cd: 0, target_cell: None, target_entity: None }
    }
}

/// The goal the decision wants and the goal movement steers toward.
#[derive(Clone, Copy, Debug, PartialEq, Eq, Structural)]
pub struct Route {
    pub current_target: Option<Vec2i>,
    pub desired_target: Option<Vec2i>,
}

/// One animal of the simulation.
#[derive(Clone, Copy, Debug, PartialEq, Eq, Structural)]
pub struct CreatureBundle {
    pub id: u64,
    pub species: Species,
    pub pos: Vec2i,
    pub vel: Vec2i,
    pub base_speed: i64,
    pub needs: Needs,
    pub brain: Brain,
    pub route: Route,
    /// Time left, in milliseconds, before the creature may mate again.
    pub repro_cd: i64,
}

/// The fastest a creature may go, in thousandths of a tile per second.
pub const SPEED_LIMIT: i64 = 1_000_000;
/// The longest tick, in milliseconds.
pub const MAX_DT: i64 = 1_000_000;
/// Squared distance (thousandths of a tile) within which a creature is at a cell center.
pub const AT_CELL2: i64 = 50_000;
/// Stock (millionths) at or below which a tile counts as empty.
pub const EMPTY_EPS: i64 = 20_000;

/// `p` lies on the map, edges included.
pub open spec fn in_box(map: TileMap, p: Vec2i) -> bool {
    0 <= p.x <= map.width * TILE && 0 <= p.y <= map.height * TILE
}

pub open spec fn target_ok(map: TileMap, t: Option<Vec2i>) -> bool {
    match t {
        Some(g) => in_box(map, g),
        None => true,
    }
}

/// A creature whose values stay in the ranges the arithmetic was proved for.
pub open spec fn creature_ok(c: CreatureBundle, map: TileMap) -> bool {
    &&& needs_ok(c.needs)
    &&& 0 <= c.base_speed <= SPEED_LIMIT
    &&& small_vec(c.vel, SPEED_LIMIT as int)
    &&& in_box(map, c.pos)
    &&& target_ok(map, c.route.current_target)
    &&& target_ok(map, c.route.desired_target)
    &&& 0 <= c.brain.replan_cd <= 1_000_000_000
    &&& 0 <= c.repro_cd <= 1_000_000_000
    &&& match c.brain.target_cell {
        Some(cell) => on_board(map.width as int, map.height as int, cell.x as int, cell.y as int),
        None => true,
    }
}

impl CreatureBundle {
    pub open spec fn new_spec(id: u64, species: Species, pos: Vec2i, base_speed: i64) -> CreatureBundle {
        CreatureBundle {
            id,
            species,
            pos,
            vel: Vec2i { x: 0, y: 0 },
            base_speed,
            needs: default_needs_spec(species),
            brain: Brain { state: BrainState::Wander, replan_cd: 0, target_cell: None, target_entity: None },
            route: Route { current_target: None, desired_target: None },
            repro_cd: 0,
        }
    }

    /// A fresh creature of a species: at rest, wandering, with its species' needs.
    pub fn new(id: u64, species: Species, pos: Vec2i, base_speed: i64) -> (r: CreatureBundle)
        ensures
            r == CreatureBundle::new_spec(id, species, pos, base_speed),
            needs_ok(r.needs),
    {
        CreatureBundle {
            id,
            species,
            pos,
            vel: Vec2i { x: 0, y: 0 },
            base_speed,
            needs: default_needs(species),
            brain: Brain::new(),
            route: Route { current_target: None, desired_target: None },
            repro_cd: 0,
        }
    }
}

/// The center of a cell in world units.
pub open spec fn cell_center_of(c: Point) -> Vec2i {
    Vec2i { x: (c.x * TILE + TILE / 2) as i64, y: (c.y * TILE + TILE / 2) as i64 }
}

pub fn cell_center(c: Point) -> (r: Vec2i)
    ensures
        r == cell_center_of(c),
{
    Vec2i { x: c.x as i64 * TILE + TILE / 2, y: c.y as i64 * TILE + TILE / 2 }
}

/// The route's next steering goal: a new wish is taken at once when there is no
/// goal, on arrival (within half a tile of the goal), or when it lies more than
/// three tiles from the goal; otherwise the goal stays.
pub open spec fn route_next(cur: Option<Vec2i>, desired: Option<Vec2i>, pos: Vec2i) -> Option<Vec2i> {
    match (cur, desired) {
        (None, Some(g)) => Some(g),
        (Some(c), Some(g)) => if d2(c, pos) < 250_000 || d2(c, g) > 9_000_000 { Some(g) } else { Some(c) },
        _ => cur,
    }
}

pub fn route_step(route: &mut Route, pos: Vec2i)
    requires
        small_vec(pos, COORD_LIMIT as int),
        match old(route).current_target { Some(c) => small_vec(c, COORD_LIMIT as int), None => true },
        match old(route).desired_target { Some(c) => small_vec(c, COORD_LIMIT as int), None => true },
    ensures
        final(route).current_target == route_next(old(route).current_target, old(route).desired_target, pos),
        final(route).desired_target == old(route).desired_target,
{
    match (route.current_target, route.desired_target) {
        (None, Some(goal)) => {
            route.current_target = Some(goal);
        },
        (Some(cur), Some(goal)) => {
            if dist2(cur, pos) < 250_000 || dist2(cur, goal) > 9_000_000 {
                route.current_target = Some(goal);
            }
        },
        _ => {},
    }
}

/// The velocity a creature wants: toward its goal at its speed, slowed by the
/// terrain it stands on; none while eating or without a goal.
pub open spec fn wanted_velocity(c: CreatureBundle, map: TileMap) -> Vec2i {
    if c.brain.state == BrainState::Eating {
        Vec2i { x: 0, y: 0 }
    } else {
        match c.route.current_target {
            Some(g) => scaled(
                Vec2i { x: (g.x - c.pos.x) as i64, y: (g.y - c.pos.y) as i64 },
                c.base_speed * speed_permille(terrain_at(map, c.pos)) / 1000,
            ),
            None => Vec2i { x: 0, y: 0 },
        }
    }
}

/// The longest movement tick, in milliseconds: with the blend rate of 10 per
/// second, `v += (want - v) * 10 * dt` moves toward `want` only while
/// `10 * dt <= 1`; a longer tick would overshoot and let speeds grow without bound.
pub const MAX_MOVE_DT: i64 = 100;

/// One coordinate's blend toward the wanted velocity: `v + (want - v) * 10 * dt`
/// with `dt` in seconds, rounded toward zero.
pub open spec fn blend(v: int, want: int, dt_ms: int) -> int {
    v + tdiv((want - v) * dt_ms, 100)
}

/// A coordinate held to `1 ..= hi`.
pub open spec fn clamp_coord(v: int, hi: int) -> int {
    if v < 1 { 1 } else if v > hi { hi } else { v }
}

/// The creature after one movement tick: velocity blended toward the wanted one,
/// position advanced and held inside the map (a clamped axis loses its speed),
/// and snapped onto the goal when within a tenth of a tile of it.
pub open spec fn moved(c: CreatureBundle, map: TileMap, dt_ms: int) -> CreatureBundle {
    let want = wanted_velocity(c, map);
    let vx = blend(c.vel.x as int, want.x as int, dt_ms);
    let vy = blend(c.vel.y as int, want.y as int, dt_ms);
    let px = c.pos.x + tdiv(vx * dt_ms, 1000);
    let py = c.pos.y + tdiv(vy * dt_ms, 1000);
    let hx = map.width * TILE - 1;
    let hy = map.height * TILE - 1;
    let p = Vec2i { x: clamp_coord(px, hx) as i64, y: clamp_coord(py, hy) as i64 };
    let v = Vec2i {
        x: (if px < 1 || px > hx { 0 } else { vx }) as i64,
        y: (if py < 1 || py > hy { 0 } else { vy }) as i64,
    };
    match c.route.current_target {
        Some(g) => if d2(p, g) < 10_000 {
            CreatureBundle { pos: g, vel: Vec2i { x: 0, y: 0 }, ..c }
        } else {
            CreatureBundle { pos: p, vel: v, ..c }
        },
        None => CreatureBundle { pos: p, vel: v, ..c },
    }
}

proof fn lemma_blend_between(v: int, want: int, dt_ms: int)
    requires
        0 <= dt_ms <= 100,
    ensures
        (v <= want ==> v <= blend(v, want, dt_ms) <= want),
        (want <= v ==> want <= blend(v, want, dt_ms) <= v),
{
    let k = dt_ms;
    let a = (want - v) * k;
    if want >= v {
        assert(0 <= a <= (want - v) * 100) by (nonlinear_arith)
            requires want >= v, 0 <= k <= 100, a == (want - v) * k;
        assert(a / 100 <= want - v) by (nonlinear_arith)
            requires 0 <= a <= (want - v) * 100;
        assert(0 <= a / 100) by (nonlinear_arith)
            requires 0 <= a;
    } else {
        assert(0 <= -a <= (v - want) * 100) by (nonlinear_arith)
            requires want < v, 0 <= k <= 100, a == (want - v) * k;
        assert((-a) / 100 <= v - want) by (nonlinear_arith)
            requires 0 <= -a <= (v - want) * 100;
        assert(0 <= (-a) / 100) by (nonlinear_arith)
            requires 0 <= -a;
    }
}

/// Moves one creature for one tick.
pub fn move_step(c: &mut CreatureBundle, map: &TileMap, dt_ms: i64)
    requires
        map.wf(),
        creature_ok(*old(c), *map),
        0 <= dt_ms <= MAX_MOVE_DT,
    ensures
        *final(c) == moved(*old(c), *map, dt_ms as int),
        creature_ok(*final(c), *map),
{
    let want = if c.brain.state == BrainState::Eating {
        Vec2i { x: 0, y: 0 }
    } else {
        match c.route.current_target {
            Some(g) => {
                let mult = map.speed_multiplier(c.pos);
                assert(0 <= c.base_speed * mult <= 1_000_000_000) by (nonlinear_arith)
                    requires 0 <= c.base_speed <= 1_000_000, 0 <= mult <= 1000;
                assert(c.base_speed * mult / 1000 <= 1_000_000) by (nonlinear_arith)
                    requires 0 <= c.base_speed * mult <= 1_000_000_000;
                scale_to(Vec2i { x: g.x - c.pos.x, y: g.y - c.pos.y }, c.base_speed * mult / 1000)
            },
            None => Vec2i { x: 0, y: 0 },
        }
    };
    assert(small_vec(want, SPEED_LIMIT as int));
    let k: i64 = dt_ms;
    proof {
        lemma_blend_between(c.vel.x as int, want.x as int, dt_ms as int);
        lemma_blend_between(c.vel.y as int, want.y as int, dt_ms as int);
    }
    assert(-2_000_000 * 100 <= (want.x - c.vel.x) * k <= 2_000_000 * 100) by (nonlinear_arith)
        requires -2_000_000 <= want.x - c.vel.x <= 2_000_000, 0 <= k <= 100;
    assert(-2_000_000 * 100 <= (want.y - c.vel.y) * k <= 2_000_000 * 100) by (nonlinear_arith)
        requires -2_000_000 <= want.y - c.vel.y <= 2_000_000, 0 <= k <= 100;
    let vx = c.vel.x + trunc_div((want.x - c.vel.x) * k, 100);
    let vy = c.vel.y + trunc_div((want.y - c.vel.y) * k, 100);
    assert(-1_000_000_000_000 <= vx * dt_ms <= 1_000_000_000_000) by (nonlinear_arith)
        requires -1_000_000 <= vx <= 1_000_000, 0 <= dt_ms <= 1_000_000;
    assert(-1_000_000_000_000 <= vy * dt_ms <= 1_000_000_000_000) by (nonlinear_arith)
        requires -1_000_000 <= vy <= 1_000_000, 0 <= dt_ms <= 1_000_000;
    let px = c.pos.x + trunc_div(vx * dt_ms, 1000);
    let py = c.pos.y + trunc_div(vy * dt_ms, 1000);
    let hx = map.width as i64 * TILE - 1;
    let hy = map.height as i64 * TILE - 1;
    let p = Vec2i { x: if px < 1 { 1 } else if px > hx { hx } else { px }, y: if py < 1 { 1 } else if py > hy { hy } else { py } };
    let v = Vec2i { x: if px < 1 || px > hx { 0 } else { vx }, y: if py < 1 || py > hy { 0 } else { vy } };
    match c.route.current_target {
        Some(g) => {
            if dist2(p, g) < 10_000 {
                c.pos = g;
                c.vel = Vec2i { x: 0, y: 0 };
            } else {
                c.pos = p;
                c.vel = v;
            }
        },
        None => {
            c.pos = p;
            c.vel = v;
        },
    }
}

/// Food a species can eat on a tile, in millionths.
pub open spec fn edible(sp: Species, t: Tile) -> int {
    (if nut_eater(sp) { t.nuts as int } else { 0 }) + (if berry_eater(sp) { t.berries as int } else { 0 })
}

pub open spec fn min_of(a: int, b: int) -> int {
    if a < b { a } else { b }
}

/// The tile after a creature takes up to `want` from it, the richer edible stock
/// first and the other for the rest, and how much it took.
pub open spec fn eat_from(t: Tile, sp: Species, want: int) -> (Tile, int) {
    if nut_eater(sp) && t.nuts >= t.berries {
        let a = min_of(want, t.nuts as int);
        let b = if berry_eater(sp) { min_of(want - a, t.berries as int) } else { 0 };
        (Tile { nuts: (t.nuts - a) as i64, berries: (t.berries - b) as i64, ..t }, a + b)
    } else {
        let a = if berry_eater(sp) { min_of(want, t.berries as int) } else { 0 };
        let b = if nut_eater(sp) { min_of(want - a, t.nuts as int) } else { 0 };
        (Tile { berries: (t.berries - a) as i64, nuts: (t.nuts - b) as i64, ..t }, a + b)
    }
}

/// What a creature takes is what it wanted, or all it can eat when that is less.
pub proof fn lemma_eat_amount(t: Tile, sp: Species, want: int)
    requires
        tile_ok(t),
        0 <= want,
    ensures
        eat_from(t, sp, want).1 == min_of(want, edible(sp, t)),
        tile_ok(eat_from(t, sp, want).0),
{
}

/// The creature after the arrival check: a forager standing at its food cell
/// starts eating and stops moving.
pub open spec fn arrived(c: CreatureBundle) -> CreatureBundle {
    match c.brain.target_cell {
        Some(cell) => if c.brain.state == BrainState::Forage && d2(c.pos, cell_center_of(cell)) < AT_CELL2 {
            CreatureBundle {
                brain: Brain { state: BrainState::Eating, ..c.brain },
                route: Route { desired_target: None, current_target: None },
                ..c
            }
        } else {
            c
        },
        None => c,
    }
}

/// An eating creature's reserve after taking `gained`: capped at `cap`.
pub open spec fn fed(n: Needs, gained: int) -> Needs {
    Needs { satiation: min_of(n.satiation + gained, n.cap as int) as i64, ..n }
}

/// The eating creature after one bite of `gained`: full means done, back to
/// wandering with no goal.
pub open spec fn after_bite(c: CreatureBundle, gained: int) -> CreatureBundle {
    let n = fed(c.needs, gained);
    if n.satiation >= n.cap {
        CreatureBundle {
            needs: n,
            brain: Brain { state: BrainState::Wander, target_cell: None, ..c.brain },
            route: Route { desired_target: None, ..c.route },
            ..c
        }
    } else {
        CreatureBundle { needs: n, ..c }
    }
}

/// A creature and the map's tiles after its eating step (see `eat_step`).
pub open spec fn eat_result(c: CreatureBundle, tiles: Seq<Tile>, w: int, dt_ms: int) -> (CreatureBundle, Seq<Tile>) {
    let c1 = arrived(c);
    if c1.brain.state != BrainState::Eating {
        (c1, tiles)
    } else {
        match c1.brain.target_cell {
            None => (CreatureBundle { brain: Brain { state: BrainState::Wander, ..c1.brain }, ..c1 }, tiles),
            Some(cell) => {
                let center = cell_center_of(cell);
                let i = cell_index(w, cell.x as int, cell.y as int);
                let t = tiles[i];
                if d2(c1.pos, center) > AT_CELL2 {
                    (CreatureBundle {
                        brain: Brain { state: BrainState::Forage, ..c1.brain },
                        route: Route { desired_target: Some(center), ..c1.route },
                        ..c1
                    }, tiles)
                } else if edible(c1.species, t) <= EMPTY_EPS {
                    (CreatureBundle {
                        brain: Brain { state: BrainState::Forage, ..c1.brain },
                        route: Route { desired_target: None, ..c1.route },
                        ..c1
                    }, tiles)
                } else {
                    let (t2, gained) = eat_from(t, c1.species, c1.needs.eat_rate * dt_ms);
                    (after_bite(c1, gained), tiles.update(i, t2))
                }
            },
        }
    }
}

/// One creature's eating for one tick. A forager that has reached its food cell
/// starts eating; an eater that drifted off goes back to foraging toward the
/// cell; an eater whose cell is empty (stock at most `EMPTY_EPS`) forages anew;
/// otherwise it takes `eat_rate * dt` from the cell (see `eat_from`) into its
/// reserve and, once full, wanders.
#[verifier::rlimit(60)]
pub fn eat_step(c: &mut CreatureBundle, map: &mut TileMap, dt_ms: i64)
    requires
        old(map).wf(),
        creature_ok(*old(c), *old(map)),
        0 <= dt_ms <= MAX_DT,
    ensures
        final(map).wf(),
        final(map).width == old(map).width,
        final(map).height == old(map).height,
        creature_ok(*final(c), *final(map)),
        (*final(c), final(map).tiles@) == eat_result(*old(c), old(map).tiles@, old(map).width as int, dt_ms as int),
        ({
            let c1 = arrived(*old(c));
            if c1.brain.state != BrainState::Eating {
                *final(c) == c1 && *final(map) == *old(map)
            } else {
                match c1.brain.target_cell {
                    None => *final(c) == (CreatureBundle { brain: Brain { state: BrainState::Wander, ..c1.brain }, ..c1 })
                        && *final(map) == *old(map),
                    Some(cell) => {
                        let center = cell_center_of(cell);
                        let i = cell_index(old(map).width as int, cell.x as int, cell.y as int);
                        let t = old(map).tiles@[i];
                        if d2(c1.pos, center) > AT_CELL2 {
                            *final(c) == (CreatureBundle {
                                brain: Brain { state: BrainState::Forage, ..c1.brain },
                                route: Route { desired_target: Some(center), ..c1.route },
                                ..c1
                            }) && *final(map) == *old(map)
                        } else if edible(c1.species, t) <= EMPTY_EPS {
                            *final(c) == (CreatureBundle {
                                brain: Brain { state: BrainState::Forage, ..c1.brain },
                                route: Route { desired_target: None, ..c1.route },
                                ..c1
                            }) && *final(map) == *old(map)
                        } else {
                            let want = c1.needs.eat_rate * dt_ms;
                            let (t2, gained) = eat_from(t, c1.species, want);
                            &&& *final(c) == after_bite(c1, gained)
                            &&& final(map).tiles@ == old(map).tiles@.update(i, t2)
                        }
                    },
                }
            }
        }),
{
    let ghost c0 = *c;
    if c.brain.state == BrainState::Forage {
        match c.brain.target_cell {
            Some(cell) => {
                let center = cell_center(cell);
                proof {
                    assert(0 <= cell.x < map.width && 0 <= cell.y < map.height);
                }
                if dist2(c.pos, center) < AT_CELL2 as i128 {
                    c.brain.state = BrainState::Eating;
                    c.route.desired_target = None;
                    c.route.current_target = None;
                }
            },
            None => {},
        }
    }
    assert(*c == arrived(c0));
    if c.brain.state != BrainState::Eating {
        return;
    }
    let cell = match c.brain.target_cell {
        Some(cell) => cell,
        None => {
            c.brain.state = BrainState::Wander;
            return;
        },
    };
    let center = cell_center(cell);
    if dist2(c.pos, center) > AT_CELL2 as i128 {
        c.brain.state = BrainState::Forage;
        c.route.desired_target = Some(center);
        return;
    }
    proof {
        lemma_index_bounds(map.width as int, map.height as int, cell.x as int, cell.y as int);
    }
    let i = (cell.y * map.width + cell.x) as usize;
    let t = map.tiles[i];
    let nuts_ok = eats_nuts(c.species);
    let berries_ok = eats_berries(c.species);
    let ed = (if nuts_ok { t.nuts } else { 0 }) + (if berries_ok { t.berries } else { 0 });
    if ed <= EMPTY_EPS {
        c.brain.state = BrainState::Forage;
        c.route.desired_target = None;
        return;
    }
    assert(0 <= c.needs.eat_rate * dt_ms <= 1_000_000_000_000_000) by (nonlinear_arith)
        requires 0 <= c.needs.eat_rate <= 1_000_000_000, 0 <= dt_ms <= 1_000_000;
    let want = c.needs.eat_rate * dt_ms;
    let mut rest = want;
    let mut t2 = t;
    if nuts_ok && t.nuts >= t.berries {
        let a = if rest < t2.nuts { rest } else { t2.nuts };
        t2.nuts = t2.nuts - a;
        rest = rest - a;
        if berries_ok {
            let b = if rest < t2.berries { rest } else { t2.berries };
            t2.berries = t2.berries - b;
            rest = rest - b;
        }
    } else {
        if berries_ok {
            let a = if rest < t2.berries { rest } else { t2.berries };
            t2.berries = t2.berries - a;
            rest = rest - a;
        }
        if nuts_ok {
            let b = if rest < t2.nuts { rest } else { t2.nuts };
            t2.nuts = t2.nuts - b;
            rest = rest - b;
        }
    }
    let gained = want - rest;
    assert((t2, gained as int) == eat_from(t, c.species, want as int));
    map.tiles.set(i, t2);
    proof {
        lemma_eat_amount(t, c.species, want as int);
        assert forall|q: int| 0 <= q < map.tiles@.len() implies tile_ok(#[trigger] map.tiles@[q]) by {
            if q != i {
            }
        }
    }
    let s = c.needs.satiation + gained;
    c.needs.satiation = if s < c.needs.cap { s } else { c.needs.cap };
    if c.needs.satiation >= c.needs.cap {
        c.brain.state = BrainState::Wander;
        c.brain.target_cell = None;
        c.route.desired_target = None;
    }
}


/// A hungry forager that stands at the center of its food cell starts eating in
/// that tick's eating step, and stops moving.
pub proof fn lemma_forager_starts_eating(c: CreatureBundle)
    requires
        c.brain.state == BrainState::Forage,
        c.brain.target_cell.is_some(),
        d2(c.pos, cell_center_of(c.brain.target_cell.unwrap())) < AT_CELL2,
    ensures
        arrived(c).brain.state == BrainState::Eating,
        arrived(c).brain.target_cell == c.brain.target_cell,
        arrived(c).route.current_target.is_none(),
        arrived(c).route.desired_target.is_none(),
{
}

/// Eating fills the reserve: while a creature is below its cap, each bite of a
/// tick of any positive length, from a tile with food it can eat, raises its
/// reserve strictly; when the reserve reaches the cap it goes back to wandering.
pub proof fn lemma_eating_fills(c: CreatureBundle, t: Tile, dt_ms: int)
    requires
        needs_ok(c.needs),
        tile_ok(t),
        c.needs.satiation < c.needs.cap,
        edible(c.species, t) > EMPTY_EPS,
        0 < dt_ms,
        0 < c.needs.eat_rate,
    ensures
        ({
            let (t2, gained) = eat_from(t, c.species, c.needs.eat_rate * dt_ms);
            let c2 = after_bite(c, gained);
            &&& gained >= 1
            &&& c2.needs.satiation > c.needs.satiation
            &&& c2.needs.satiation <= c.needs.cap
            &&& (c2.needs.satiation == c.needs.cap ==> c2.brain.state == BrainState::Wander)
            &&& (c2.needs.satiation < c.needs.cap ==> c2.brain.state == c.brain.state)
        }),
{
    assert(c.needs.eat_rate * dt_ms >= 1) by (nonlinear_arith)
        requires 0 < dt_ms, 0 < c.needs.eat_rate;
    lemma_eat_amount(t, c.species, c.needs.eat_rate * dt_ms);
}

} // verus!
