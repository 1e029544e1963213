use vstd::prelude::*;
use crate::geom::Point;
use crate::grid::on_board;
use crate::rng::Rng64;
use crate::units::species::{
    Species, Needs, needs_ok, predator, prey_of, is_predator, is_prey_of, meat_of, meat_gain,
    drain, drained,
};
use crate::units::world::{Tile, TileMap, Vec2i, plants_regrow, TILE};
use crate::units::motion::{d2, dist2, len2, scale_to, small_vec, COORD_LIMIT};
use crate::units::creature::{
    BrainState, Brain, Route, CreatureBundle, creature_ok, in_box, cell_center, cell_center_of,
    route_step, move_step, eat_step, eat_result, MAX_DT, MAX_MOVE_DT,
};
use crate::units::forage::{nearest_food_cell, food_ok, food_choice};

verus! {

/// Sense range of a predator: 10 tiles, squared, in thousandths.
pub const PREDATOR_SENSE2: i128 = 100_000_000;
/// Attack range: 0.35 of a tile, squared, in thousandths.
pub const ATTACK_RANGE2: i128 = 122_500;
/// Flee sense range: 6 tiles, squared, in thousandths.
pub const FLEE_SENSE2: i128 = 36_000_000;
/// How far a frightened creature dashes, in thousandths of a tile.
pub const FLEE_STEP: i64 = 6000;

/// The simulation: the map, the creatures, the random stream for wander goals,
/// and the next free creature id.
pub struct World {
    pub map: TileMap,
    pub creatures: Vec<CreatureBundle>,
    pub rng: Rng64,
    pub next_id: u64,
}

pub open spec fn ids_ok(cs: Seq<CreatureBundle>, next_id: u64) -> bool {
    &&& forall|i: int| 0 <= i < cs.len() ==> (#[trigger] cs[i]).id < next_id
    &&& forall|i: int, j: int| 0 <= i < j < cs.len() ==> (#[trigger] cs[i]).id != (#[trigger] cs[j]).id
}

impl World {
    pub open spec fn wf(&self) -> bool {
        &&& self.map.wf()
        &&& forall|i: int| 0 <= i < self.creatures@.len() ==> creature_ok(#[trigger] self.creatures@[i], self.map)
        &&& ids_ok(self.creatures@, self.next_id)
    }

    /// An empty world on a map, with a seeded random stream.
    pub fn new(map: TileMap, seed: u64) -> (r: World)
        requires
            map.wf(),
        ensures
            r.wf(),
            r.map == map,
            r.creatures@.len() == 0,
            r.rng.state == seed,
    {
        World { map, creatures: Vec::new(), rng: Rng64::new(seed), next_id: 0 }
    }

    /// Adds a creature of a species at rest; returns its id, or `None` when the
    /// position is off the map, the speed is out of range or ids are used up.
    pub fn spawn(&mut self, species: Species, pos: Vec2i, base_speed: i64) -> (r: Option<u64>)
        requires
            old(self).wf(),
        ensures
            final(self).wf(),
            final(self).map == old(self).map,
            (in_box(old(self).map, pos) && 0 <= base_speed <= 1_000_000 && old(self).next_id < u64::MAX) ==> {
                &&& r == Some(old(self).next_id)
                &&& final(self).creatures@.len() == old(self).creatures@.len() + 1
                &&& final(self).creatures@.drop_last() == old(self).creatures@
                &&& final(self).creatures@.last() == CreatureBundle::new_spec(old(self).next_id, species, pos, base_speed)
            },
            !(in_box(old(self).map, pos) && 0 <= base_speed <= 1_000_000 && old(self).next_id < u64::MAX) ==> r.is_none()
                && final(self).creatures@ == old(self).creatures@,
    {
        if !(pos.x >= 0 && pos.y >= 0 && pos.x <= self.map.width as i64 * TILE && pos.y <= self.map.height as i64 * TILE)
            || base_speed < 0 || base_speed > 1_000_000 || self.next_id == u64::MAX {
            return None;
        }
        let id = self.next_id;
        let c = CreatureBundle::new(id, species, pos, base_speed);
        assert(c == CreatureBundle::new_spec(id, species, pos, base_speed));
        self.creatures.push(c);
        self.next_id = id + 1;
        assert(self.creatures@.drop_last() =~= old(self).creatures@);
        Some(id)
    }
}


/// Two creature lists hold the same animals in the same order.
pub open spec fn same_animals(a: Seq<CreatureBundle>, b: Seq<CreatureBundle>) -> bool {
    a.len() == b.len() && forall|i: int| 0 <= i < a.len() ==> (#[trigger] a[i]).id == b[i].id && a[i].species == b[i].species
}

proof fn lemma_same_animals_ids(a: Seq<CreatureBundle>, b: Seq<CreatureBundle>, next_id: u64)
    requires
        same_animals(a, b),
        ids_ok(a, next_id),
    ensures
        ids_ok(b, next_id),
{
    assert forall|i: int, j: int| 0 <= i < j < b.len() implies (#[trigger] b[i]).id != (#[trigger] b[j]).id by {
        assert(a[i].id != a[j].id);
    }
    assert forall|i: int| 0 <= i < b.len() implies (#[trigger] b[i]).id < next_id by {
        assert(a[i].id < next_id);
    }
}

/// The creatures and tiles after the first `n` creatures each took their
/// `eat_step`, in list order.
pub open spec fn eat_all(cs: Seq<CreatureBundle>, tiles: Seq<Tile>, w: int, dt_ms: int, n: nat) -> (Seq<CreatureBundle>, Seq<Tile>)
    decreases n,
{
    if n == 0 {
        (cs, tiles)
    } else {
        let p = eat_all(cs, tiles, w, dt_ms, (n - 1) as nat);
        let r = eat_result(p.0[n - 1], p.1, w, dt_ms);
        (p.0.update(n - 1, r.0), r.1)
    }
}

proof fn lemma_eat_all_len(cs: Seq<CreatureBundle>, tiles: Seq<Tile>, w: int, dt_ms: int, n: nat)
    requires
        n <= cs.len(),
    ensures
        eat_all(cs, tiles, w, dt_ms, n).0.len() == cs.len(),
        forall|q: int| n <= q < cs.len() ==> #[trigger] eat_all(cs, tiles, w, dt_ms, n).0[q] == cs[q],
    decreases n,
{
    if n > 0 {
        lemma_eat_all_len(cs, tiles, w, dt_ms, (n - 1) as nat);
    }
}

/// A creature with its reserve drained for `dt_ms`.
pub open spec fn hungrier(c: CreatureBundle, dt_ms: int) -> CreatureBundle {
    CreatureBundle { needs: Needs { satiation: drained(c.needs, dt_ms), ..c.needs }, ..c }
}

/// The position `p` held inside the map, one thousandth off every edge.
pub open spec fn clamped_to_map(map: TileMap, p: Vec2i) -> Vec2i {
    let hx = map.width * TILE - 1;
    let hy = map.height * TILE - 1;
    Vec2i {
        x: (if p.x < 1 { 1 } else if p.x > hx { hx } else { p.x as int }) as i64,
        y: (if p.y < 1 { 1 } else if p.y > hy { hy } else { p.y as int }) as i64,
    }
}

pub fn clamp_target(map: &TileMap, p: Vec2i) -> (r: Vec2i)
    requires
        map.wf(),
    ensures
        r == clamped_to_map(*map, p),
        in_box(*map, r),
{
    let hx = map.width as i64 * TILE - 1;
    let hy = map.height as i64 * TILE - 1;
    Vec2i { x: if p.x < 1 { 1 } else if p.x > hx { hx } else { p.x }, y: if p.y < 1 { 1 } else if p.y > hy { hy } else { p.y } }
}

/// A random offset of length `len` (rounded), in a uniformly drawn direction of
/// the square `[-500, 500]^2`; zero when that direction is zero.
pub fn wander_offset(rng: &mut Rng64, len: i64) -> (r: Vec2i)
    requires
        0 <= len <= 10_000,
    ensures
        small_vec(r, len as int),
        len2(r) <= len * len,
{
    let rx = rng.permille() as i64 - 500;
    let ry = rng.permille() as i64 - 500;
    scale_to(Vec2i { x: rx, y: ry }, len)
}

/// The index of the creature with id `id`.
pub fn find_by_id(cs: &Vec<CreatureBundle>, id: u64) -> (r: Option<usize>)
    ensures
        match r {
            Some(j) => j < cs@.len() && cs@[j as int].id == id,
            None => forall|j: int| 0 <= j < cs@.len() ==> (#[trigger] cs@[j]).id != id,
        },
{
    let mut j: usize = 0;
    while j < cs.len()
        invariant
            j <= cs@.len(),
            forall|q: int| 0 <= q < j ==> (#[trigger] cs@[q]).id != id,
        decreases cs@.len() - j,
    {
        if cs[j].id == id {
            return Some(j);
        }
        j = j + 1;
    }
    None
}

/// Creature `j` is prey for creature `i` and within its sense range.
pub open spec fn huntable(cs: Seq<CreatureBundle>, i: int, j: int) -> bool {
    0 <= j < cs.len() && prey_of(cs[i].species, cs[j].species) && d2(cs[i].pos, cs[j].pos) <= PREDATOR_SENSE2
}

/// Creature `j` is a predator of creature `i`'s species.
pub open spec fn threat(cs: Seq<CreatureBundle>, i: int, j: int) -> bool {
    0 <= j < cs.len() && predator(cs[j].species) && prey_of(cs[j].species, cs[i].species)
}

/// The nearest huntable creature, the first of equally near ones.
pub fn nearest_prey(cs: &Vec<CreatureBundle>, i: usize, Ghost(map): Ghost<TileMap>) -> (r: Option<usize>)
    requires
        i < cs@.len(),
        forall|q: int| 0 <= q < cs@.len() ==> in_box(map, (#[trigger] cs@[q]).pos),
        map.wf(),
    ensures
        match r {
            Some(j) => huntable(cs@, i as int, j as int)
                && forall|q: int| huntable(cs@, i as int, q) ==> d2(cs@[i as int].pos, cs@[j as int].pos) <= d2(cs@[i as int].pos, (#[trigger] cs@[q]).pos),
            None => forall|q: int| !huntable(cs@, i as int, q),
        },
{
    let me = cs[i];
    let mut best: Option<(usize, i128)> = None;
    let mut j: usize = 0;
    while j < cs.len()
        invariant
            i < cs@.len(),
            me == cs@[i as int],
            j <= cs@.len(),
            forall|q: int| 0 <= q < cs@.len() ==> in_box(map, (#[trigger] cs@[q]).pos),
            map.wf(),
            match best {
                Some((b, bd)) => huntable(cs@, i as int, b as int) && bd == d2(me.pos, cs@[b as int].pos)
                    && forall|q: int| 0 <= q < j && huntable(cs@, i as int, q) ==> bd <= d2(me.pos, (#[trigger] cs@[q]).pos),
                None => forall|q: int| 0 <= q < j ==> !huntable(cs@, i as int, q),
            },
        decreases cs@.len() - j,
    {
        let other = cs[j];
        if is_prey_of(me.species, other.species) {
            let d = dist2(me.pos, other.pos);
            if d <= PREDATOR_SENSE2 {
                match best {
                    None => {
                        best = Some((j, d));
                    },
                    Some((_, bd)) => {
                        if d < bd {
                            best = Some((j, d));
                        }
                    },
                }
            }
        }
        j = j + 1;
    }
    match best {
        Some((b, _)) => Some(b),
        None => None,
    }
}

/// The nearest predator of creature `i`'s species, the first of equally near ones.
pub fn nearest_threat(cs: &Vec<CreatureBundle>, i: usize, Ghost(map): Ghost<TileMap>) -> (r: Option<usize>)
    requires
        i < cs@.len(),
        forall|q: int| 0 <= q < cs@.len() ==> in_box(map, (#[trigger] cs@[q]).pos),
        map.wf(),
    ensures
        match r {
            Some(j) => threat(cs@, i as int, j as int)
                && forall|q: int| threat(cs@, i as int, q) ==> d2(cs@[i as int].pos, cs@[j as int].pos) <= d2(cs@[i as int].pos, (#[trigger] cs@[q]).pos),
            None => forall|q: int| !threat(cs@, i as int, q),
        },
{
    let me = cs[i];
    let mut best: Option<(usize, i128)> = None;
    let mut j: usize = 0;
    while j < cs.len()
        invariant
            i < cs@.len(),
            me == cs@[i as int],
            j <= cs@.len(),
            forall|q: int| 0 <= q < cs@.len() ==> in_box(map, (#[trigger] cs@[q]).pos),
            map.wf(),
            match best {
                Some((b, bd)) => threat(cs@, i as int, b as int) && bd == d2(me.pos, cs@[b as int].pos)
                    && forall|q: int| 0 <= q < j && threat(cs@, i as int, q) ==> bd <= d2(me.pos, (#[trigger] cs@[q]).pos),
                None => forall|q: int| 0 <= q < j ==> !threat(cs@, i as int, q),
            },
        decreases cs@.len() - j,
    {
        let other = cs[j];
        if is_predator(other.species) && is_prey_of(other.species, me.species) {
            let d = dist2(me.pos, other.pos);
            match best {
                None => {
                    best = Some((j, d));
                },
                Some((_, bd)) => {
                    if d < bd {
                        best = Some((j, d));
                    }
                },
            }
        }
        j = j + 1;
    }
    match best {
        Some((b, _)) => Some(b),
        None => None,
    }
}

impl World {
    /// Drains every creature's reserve for one tick.
    pub fn needs_tick_system(&mut self, dt_ms: i64)
        requires
            old(self).wf(),
            0 <= dt_ms <= MAX_DT,
        ensures
            final(self).wf(),
            final(self).map == old(self).map,
            final(self).rng == old(self).rng,
            final(self).creatures@.len() == old(self).creatures@.len(),
            forall|i: int| 0 <= i < final(self).creatures@.len() ==> #[trigger] final(self).creatures@[i] == hungrier(old(self).creatures@[i], dt_ms as int),
    {
        let n = self.creatures.len();
        let mut i: usize = 0;
        while i < n
            invariant
                self.map == old(self).map,
                self.rng == old(self).rng,
                self.next_id == old(self).next_id,
                old(self).wf(),
                0 <= dt_ms <= MAX_DT,
                n == self.creatures@.len(),
                n == old(self).creatures@.len(),
                i <= n,
                forall|q: int| 0 <= q < i ==> #[trigger] self.creatures@[q] == hungrier(old(self).creatures@[q], dt_ms as int),
                forall|q: int| i <= q < n ==> #[trigger] self.creatures@[q] == old(self).creatures@[q],
                forall|q: int| 0 <= q < n ==> creature_ok(#[trigger] self.creatures@[q], self.map),
            decreases n - i,
        {
            let mut c = self.creatures[i];
            drain(&mut c.needs, dt_ms);
            self.creatures.set(i, c);
            i = i + 1;
        }
        proof {
            assert(same_animals(old(self).creatures@, self.creatures@));
            lemma_same_animals_ids(old(self).creatures@, self.creatures@, self.next_id);
        }
    }

    /// Advances every creature's steering goal (see `route_next`).
    pub fn route_system(&mut self)
        requires
            old(self).wf(),
        ensures
            final(self).wf(),
            final(self).map == old(self).map,
            final(self).rng == old(self).rng,
            final(self).creatures@.len() == old(self).creatures@.len(),
            forall|i: int| 0 <= i < final(self).creatures@.len() ==> {
                let c = #[trigger] old(self).creatures@[i];
                final(self).creatures@[i] == CreatureBundle {
                    route: Route { current_target: crate::units::creature::route_next(c.route.current_target, c.route.desired_target, c.pos), ..c.route },
                    ..c
                }
            },
    {
        let n = self.creatures.len();
        let mut i: usize = 0;
        while i < n
            invariant
                self.map == old(self).map,
                self.rng == old(self).rng,
                self.next_id == old(self).next_id,
                old(self).wf(),
                n == self.creatures@.len(),
                n == old(self).creatures@.len(),
                i <= n,
                forall|q: int| 0 <= q < i ==> {
                    let c = #[trigger] old(self).creatures@[q];
                    self.creatures@[q] == CreatureBundle {
                        route: Route { current_target: crate::units::creature::route_next(c.route.current_target, c.route.desired_target, c.pos), ..c.route },
                        ..c
                    }
                },
                forall|q: int| i <= q < n ==> #[trigger] self.creatures@[q] == old(self).creatures@[q],
                forall|q: int| 0 <= q < n ==> creature_ok(#[trigger] self.creatures@[q], self.map),
            decreases n - i,
        {
            let mut c = self.creatures[i];
            proof {
                assert(creature_ok(old(self).creatures@[i as int], self.map));
            }
            route_step(&mut c.route, c.pos);
            self.creatures.set(i, c);
            i = i + 1;
        }
        proof {
            assert(same_animals(old(self).creatures@, self.creatures@));
            lemma_same_animals_ids(old(self).creatures@, self.creatures@, self.next_id);
        }
    }

    /// Moves every creature for one tick (see `moved`).
    pub fn movement_system(&mut self, dt_ms: i64)
        requires
            old(self).wf(),
            0 <= dt_ms <= MAX_MOVE_DT,
        ensures
            final(self).wf(),
            final(self).map == old(self).map,
            final(self).rng == old(self).rng,
            final(self).creatures@.len() == old(self).creatures@.len(),
            forall|i: int| 0 <= i < final(self).creatures@.len() ==> #[trigger] final(self).creatures@[i]
                == crate::units::creature::moved(old(self).creatures@[i], old(self).map, dt_ms as int),
    {
        let n = self.creatures.len();
        let mut i: usize = 0;
        while i < n
            invariant
                self.map == old(self).map,
                self.map.wf(),
                self.rng == old(self).rng,
                self.next_id == old(self).next_id,
                old(self).wf(),
                0 <= dt_ms <= MAX_MOVE_DT,
                n == self.creatures@.len(),
                n == old(self).creatures@.len(),
                i <= n,
                forall|q: int| 0 <= q < i ==> #[trigger] self.creatures@[q] == crate::units::creature::moved(old(self).creatures@[q], old(self).map, dt_ms as int),
                forall|q: int| i <= q < n ==> #[trigger] self.creatures@[q] == old(self).creatures@[q],
                forall|q: int| 0 <= q < n ==> creature_ok(#[trigger] self.creatures@[q], self.map),
            decreases n - i,
        {
            let mut c = self.creatures[i];
            move_step(&mut c, &self.map, dt_ms);
            self.creatures.set(i, c);
            i = i + 1;
        }
        proof {
            assert(same_animals(old(self).creatures@, self.creatures@));
            lemma_same_animals_ids(old(self).creatures@, self.creatures@, self.next_id);
        }
    }

    /// Lets every creature eat for one tick, in list order: each takes its
    /// `eat_step` on the map as the creatures before it left it (see `eat_all`).
    pub fn eat_system(&mut self, dt_ms: i64)
        requires
            old(self).wf(),
            0 <= dt_ms <= MAX_DT,
        ensures
            final(self).wf(),
            final(self).rng == old(self).rng,
            final(self).next_id == old(self).next_id,
            final(self).map.width == old(self).map.width,
            final(self).map.height == old(self).map.height,
            same_animals(old(self).creatures@, final(self).creatures@),
            (final(self).creatures@, final(self).map.tiles@) == eat_all(
                old(self).creatures@,
                old(self).map.tiles@,
                old(self).map.width as int,
                dt_ms as int,
                old(self).creatures@.len(),
            ),
    {
        let n = self.creatures.len();
        let mut i: usize = 0;
        while i < n
            invariant
                self.map.wf(),
                self.map.width == old(self).map.width,
                self.map.height == old(self).map.height,
                self.rng == old(self).rng,
                self.next_id == old(self).next_id,
                old(self).wf(),
                0 <= dt_ms <= MAX_DT,
                n == self.creatures@.len(),
                same_animals(old(self).creatures@, self.creatures@),
                i <= n,
                forall|q: int| 0 <= q < n ==> creature_ok(#[trigger] self.creatures@[q], self.map),
                (self.creatures@, self.map.tiles@) == eat_all(old(self).creatures@, old(self).map.tiles@, old(self).map.width as int, dt_ms as int, i as nat),
                forall|q: int| i <= q < n ==> #[trigger] self.creatures@[q] == old(self).creatures@[q],
            decreases n - i,
        {
            let mut c = self.creatures[i];
            eat_step(&mut c, &mut self.map, dt_ms);
            self.creatures.set(i, c);
            proof {
                lemma_eat_all_len(old(self).creatures@, old(self).map.tiles@, old(self).map.width as int, dt_ms as int, i as nat);
            }
            proof {
                assert forall|q: int| 0 <= q < n implies creature_ok(#[trigger] self.creatures@[q], self.map) by {
                    if q != i {
                        assert(creature_ok(self.creatures@[q], self.map));
                    }
                }
            }
            i = i + 1;
        }
        proof {
            lemma_same_animals_ids(old(self).creatures@, self.creatures@, self.next_id);
        }
    }
}


/// The cooldown after `dt_ms` more milliseconds, floored at 0.
pub open spec fn cooled(cd: int, dt_ms: int) -> i64 {
    if cd - dt_ms < 0 { 0 } else { (cd - dt_ms) as i64 }
}

/// `c2`'s goal is `c`'s position moved by a step no longer than `len`, held
/// inside the map.
pub open spec fn stepped_goal(c: CreatureBundle, c2: CreatureBundle, map: TileMap, len: int) -> bool {
    exists|off: Vec2i| #[trigger] len2(off) <= len * len
        && c2.route.desired_target == Some(clamped_to_map(map, Vec2i { x: (c.pos.x + off.x) as i64, y: (c.pos.y + off.y) as i64 }))
}

/// `c2` is creature `i` of `cs` after the decision step. Eaters only cool down.
/// Hungry predators hunt the nearest prey in sense range (goal: its position,
/// replanned after 150 ms), or search with a 5-tile random step when due.
/// Other hungry creatures, when due, go for the nearest food cell's center, the
/// first in row-major order among equally near ones (replanned after 750 ms),
/// or take a 4-tile random step while foraging. Sated
/// creatures, when due, wander a 6-tile random step, next due in 2 to 4 s. "Due"
/// means the cooldown ran out or there is no goal; a creature that is not due
/// keeps its brain and route.
pub open spec fn decided(c: CreatureBundle, c2: CreatureBundle, cs: Seq<CreatureBundle>, i: int, map: TileMap, dt_ms: int) -> bool {
    let cd = cooled(c.brain.replan_cd as int, dt_ms);
    let kept = CreatureBundle { brain: Brain { replan_cd: cd, ..c.brain }, ..c };
    let due = cd <= 0 || c.route.desired_target.is_none();
    &&& c2.id == c.id && c2.species == c.species && c2.pos == c.pos && c2.vel == c.vel
    &&& c2.base_speed == c.base_speed && c2.needs == c.needs
    &&& c2.route.current_target == c.route.current_target
    &&& if c.brain.state == BrainState::Eating {
        c2 == kept
    } else if predator(c.species) && c.needs.hungry() {
        if exists|j: int| huntable(cs, i, j) {
            exists|j: int| {
                &&& huntable(cs, i, j)
                &&& forall|q: int| huntable(cs, i, q) ==> d2(cs[i].pos, cs[j].pos) <= d2(cs[i].pos, (#[trigger] cs[q]).pos)
                &&& c2.brain == Brain { state: BrainState::Hunt, replan_cd: 150, target_cell: None, target_entity: Some(cs[j].id) }
                &&& c2.route.desired_target == Some(cs[j].pos)
            }
        } else if due {
            c2.brain == Brain { state: BrainState::Hunt, replan_cd: 600, ..c.brain } && stepped_goal(c, c2, map, 5000)
        } else {
            c2 == kept
        }
    } else if c.needs.hungry() {
        if !due {
            c2 == kept
        } else if exists|x: int, y: int| on_board(map.width as int, map.height as int, x, y) && food_ok(c.species, #[trigger] map.tile(x, y)) {
            exists|cell: Point| {
                &&& #[trigger] food_choice(map, c.species, c.pos, cell)
                &&& c2.brain == Brain { state: BrainState::Forage, replan_cd: 750, target_cell: Some(cell), ..c.brain }
                &&& c2.route.desired_target == Some(cell_center_of(cell))
            }
        } else {
            c2.brain == Brain { state: BrainState::Forage, replan_cd: 750, target_cell: None, ..c.brain } && stepped_goal(c, c2, map, 4000)
        }
    } else if !due {
        c2 == kept
    } else {
        &&& c2.brain.state == BrainState::Wander
        &&& c2.brain.target_cell.is_none()
        &&& c2.brain.target_entity.is_none()
        &&& 2000 <= c2.brain.replan_cd <= 4000
        &&& stepped_goal(c, c2, map, 6000)
    }
}

/// A decision depends on the other creatures only through their ids,
/// species and positions.
proof fn lemma_decided_same_view(c: CreatureBundle, c2: CreatureBundle, cs1: Seq<CreatureBundle>, cs2: Seq<CreatureBundle>, i: int, map: TileMap, dt_ms: int)
    requires
        same_animals(cs1, cs2),
        forall|q: int| 0 <= q < cs1.len() ==> (#[trigger] cs1[q]).pos == cs2[q].pos,
        0 <= i < cs1.len(),
        decided(c, c2, cs1, i, map, dt_ms),
    ensures
        decided(c, c2, cs2, i, map, dt_ms),
{
    assert forall|j: int| huntable(cs1, i, j) == huntable(cs2, i, j) by {
        if 0 <= j < cs1.len() {
            assert(cs1[j].pos == cs2[j].pos && cs1[j].species == cs2[j].species);
            assert(cs1[i].pos == cs2[i].pos && cs1[i].species == cs2[i].species);
        }
    }
    if c.brain.state != BrainState::Eating && predator(c.species) && c.needs.hungry() {
        if exists|j: int| huntable(cs1, i, j) {
            let j = choose|j: int| {
                &&& huntable(cs1, i, j)
                &&& forall|q: int| huntable(cs1, i, q) ==> d2(cs1[i].pos, cs1[j].pos) <= d2(cs1[i].pos, (#[trigger] cs1[q]).pos)
                &&& c2.brain == Brain { state: BrainState::Hunt, replan_cd: 150, target_cell: None, target_entity: Some(cs1[j].id) }
                &&& c2.route.desired_target == Some(cs1[j].pos)
            };
            assert(cs1[j].id == cs2[j].id && cs1[j].pos == cs2[j].pos);
            assert forall|q: int| huntable(cs2, i, q) implies d2(cs2[i].pos, cs2[j].pos) <= d2(cs2[i].pos, (#[trigger] cs2[q]).pos) by {
                assert(huntable(cs1, i, q));
                assert(cs1[q].pos == cs2[q].pos);
            }
        }
    }
}

impl World {
    /// The decision step of creature `i`.
    #[verifier::rlimit(80)]
    fn decide_one(&mut self, i: usize, dt_ms: i64)
        requires
            old(self).wf(),
            i < old(self).creatures@.len(),
            0 <= dt_ms <= MAX_DT,
        ensures
            final(self).wf(),
            final(self).map == old(self).map,
            final(self).next_id == old(self).next_id,
            final(self).creatures@.len() == old(self).creatures@.len(),
            forall|q: int| 0 <= q < old(self).creatures@.len() && q != i ==> #[trigger] final(self).creatures@[q] == old(self).creatures@[q],
            decided(old(self).creatures@[i as int], final(self).creatures@[i as int], old(self).creatures@, i as int, old(self).map, dt_ms as int),
    {
        let mut c = self.creatures[i];
        proof {
            assert(creature_ok(c, self.map));
            assert forall|q: int| 0 <= q < self.creatures@.len() implies in_box(self.map, (#[trigger] self.creatures@[q]).pos) by {
                assert(creature_ok(self.creatures@[q], self.map));
            }
        }
        c.brain.replan_cd = if c.brain.replan_cd - dt_ms < 0 { 0 } else { c.brain.replan_cd - dt_ms };
        if c.brain.state == BrainState::Eating {
            self.creatures.set(i, c);
            proof { self.lemma_keep_ids(i as int, old(self).creatures@); }
            return;
        }
        let due = c.brain.replan_cd <= 0 || c.route.desired_target.is_none();
        if is_predator(c.species) && c.needs.is_hungry() {
            match nearest_prey(&self.creatures, i, Ghost(self.map)) {
                Some(j) => {
                    let prey = self.creatures[j];
                    proof { assert(creature_ok(prey, self.map)); }
                    c.brain.state = BrainState::Hunt;
                    c.brain.target_entity = Some(prey.id);
                    c.brain.target_cell = None;
                    c.brain.replan_cd = 150;
                    c.route.desired_target = Some(prey.pos);
                },
                None => {
                    if due {
                        let step = wander_offset(&mut self.rng, 5000);
                        c.brain.state = BrainState::Hunt;
                        c.brain.replan_cd = 600;
                        c.route.desired_target = Some(clamp_target(&self.map, Vec2i { x: c.pos.x + step.x, y: c.pos.y + step.y }));
                    }
                },
            }
        } else if c.needs.is_hungry() {
            if due {
                match nearest_food_cell(&self.map, c.species, c.pos) {
                    Some((cell, _kind)) => {
                        c.brain.state = BrainState::Forage;
                        c.brain.target_cell = Some(cell);
                        c.route.desired_target = Some(cell_center(cell));
                        c.brain.replan_cd = 750;
                    },
                    None => {
                        let step = wander_offset(&mut self.rng, 4000);
                        c.brain.state = BrainState::Forage;
                        c.brain.target_cell = None;
                        c.route.desired_target = Some(clamp_target(&self.map, Vec2i { x: c.pos.x + step.x, y: c.pos.y + step.y }));
                        c.brain.replan_cd = 750;
                    },
                }
            }
        } else if due {
            let step = wander_offset(&mut self.rng, 6000);
            c.brain.state = BrainState::Wander;
            c.brain.target_cell = None;
            c.brain.target_entity = None;
            c.route.desired_target = Some(clamp_target(&self.map, Vec2i { x: c.pos.x + step.x, y: c.pos.y + step.y }));
            c.brain.replan_cd = 2000 + self.rng.permille() as i64 * 2;
        }
        self.creatures.set(i, c);
        proof { self.lemma_keep_ids(i as int, old(self).creatures@); }
    }

    proof fn lemma_keep_ids(&self, i: int, before: Seq<CreatureBundle>)
        requires
            ids_ok(before, self.next_id),
            0 <= i < before.len(),
            self.creatures@.len() == before.len(),
            self.creatures@[i].id == before[i].id,
            self.creatures@[i].species == before[i].species,
            forall|q: int| 0 <= q < before.len() && q != i ==> #[trigger] self.creatures@[q] == before[q],
        ensures
            ids_ok(self.creatures@, self.next_id),
            same_animals(before, self.creatures@),
    {
        assert(same_animals(before, self.creatures@));
        lemma_same_animals_ids(before, self.creatures@, self.next_id);
    }

    /// Runs the decision step for every creature, in list order; each decides
    /// against the positions at the start of the step (see `decided`).
    pub fn decision_system(&mut self, dt_ms: i64)
        requires
            old(self).wf(),
            0 <= dt_ms <= MAX_DT,
        ensures
            final(self).wf(),
            final(self).map == old(self).map,
            same_animals(old(self).creatures@, final(self).creatures@),
            forall|i: int| 0 <= i < old(self).creatures@.len() ==> decided(
                old(self).creatures@[i],
                #[trigger] final(self).creatures@[i],
                old(self).creatures@,
                i,
                old(self).map,
                dt_ms as int,
            ),
    {
        let n = self.creatures.len();
        let ghost cs0 = self.creatures@;
        let mut i: usize = 0;
        while i < n
            invariant
                self.wf(),
                self.map == old(self).map,
                cs0 == old(self).creatures@,
                0 <= dt_ms <= MAX_DT,
                n == self.creatures@.len(),
                same_animals(cs0, self.creatures@),
                forall|q: int| 0 <= q < n ==> (#[trigger] self.creatures@[q]).pos == cs0[q].pos,
                forall|q: int| i <= q < n ==> #[trigger] self.creatures@[q] == cs0[q],
                forall|q: int| 0 <= q < i ==> decided(cs0[q], #[trigger] self.creatures@[q], cs0, q, old(self).map, dt_ms as int),
                i <= n,
            decreases n - i,
        {
            let ghost before = self.creatures@;
            self.decide_one(i, dt_ms);
            proof {
                lemma_decided_same_view(before[i as int], self.creatures@[i as int], before, cs0, i as int, old(self).map, dt_ms as int);
                assert forall|q: int| 0 <= q < n implies (#[trigger] self.creatures@[q]).pos == cs0[q].pos by {
                    if q != i {
                        assert(self.creatures@[q] == before[q]);
                    }
                }
                assert forall|q: int| 0 <= q < i + 1 implies decided(cs0[q], #[trigger] self.creatures@[q], cs0, q, old(self).map, dt_ms as int) by {
                    if q != i {
                        assert(self.creatures@[q] == before[q]);
                    }
                }
            }
            i = i + 1;
        }
    }
}


/// The index of the creature with id `t`, when there is one.
pub open spec fn index_of(cs: Seq<CreatureBundle>, t: u64) -> int {
    choose|j: int| 0 <= j < cs.len() && cs[j].id == t
}

pub open spec fn has_id(cs: Seq<CreatureBundle>, t: u64) -> bool {
    exists|j: int| 0 <= j < cs.len() && (#[trigger] cs[j]).id == t
}

/// A predator after eating prey of species `prey`: reserve raised by the prey's
/// meat (capped), target and goal dropped; still hunting only while hungry.
pub open spec fn after_kill(c: CreatureBundle, prey: Species) -> CreatureBundle {
    let s = c.needs.satiation + meat_of(prey);
    let n = Needs { satiation: (if s < c.needs.cap { s } else { c.needs.cap as int }) as i64, ..c.needs };
    CreatureBundle {
        needs: n,
        brain: Brain { state: if n.hungry() { BrainState::Hunt } else { BrainState::Wander }, target_entity: None, ..c.brain },
        route: Route { desired_target: None, ..c.route },
        ..c
    }
}

/// The creatures after creature `i` resolves its attack. A hunter whose target
/// is gone gives up and wanders; one whose target (another creature) is within
/// attack range kills it: the target leaves the list and the hunter eats.
pub open spec fn after_attack(cs: Seq<CreatureBundle>, i: int) -> Seq<CreatureBundle> {
    let c = cs[i];
    match c.brain.target_entity {
        Some(t) => if c.brain.state != BrainState::Hunt {
            cs
        } else if !has_id(cs, t) {
            cs.update(i, CreatureBundle {
                brain: Brain { state: BrainState::Wander, target_entity: None, ..c.brain },
                route: Route { desired_target: None, ..c.route },
                ..c
            })
        } else {
            let j = index_of(cs, t);
            if j != i && d2(c.pos, cs[j].pos) <= ATTACK_RANGE2 {
                cs.update(i, after_kill(c, cs[j].species)).remove(j)
            } else {
                cs
            }
        },
        None => cs,
    }
}

/// The creatures after hunters `i`, `i + 1`, ... resolve their attacks in
/// list order (a kill of an earlier creature shifts the rest down by one);
/// `fuel` bounds the steps.
pub open spec fn attack_all(cs: Seq<CreatureBundle>, i: int, fuel: nat) -> Seq<CreatureBundle>
    decreases fuel,
{
    if fuel == 0 || i < 0 || i >= cs.len() {
        cs
    } else {
        let r = after_attack(cs, i);
        let next = if r.len() < cs.len() && index_of(cs, cs[i].brain.target_entity.unwrap()) < i { i } else { i + 1 };
        attack_all(r, next, (fuel - 1) as nat)
    }
}

impl World {
    /// Creature `i` resolves its attack (see `after_attack`); returns the index of
    /// the creature it killed.
    pub fn resolve_attack(&mut self, i: usize) -> (killed: Option<usize>)
        requires
            old(self).wf(),
            i < old(self).creatures@.len(),
        ensures
            final(self).wf(),
            final(self).map == old(self).map,
            final(self).next_id == old(self).next_id,
            final(self).rng == old(self).rng,
            final(self).creatures@ == after_attack(old(self).creatures@, i as int),
            match killed {
                Some(j) => j < old(self).creatures@.len() && j != i && final(self).creatures@.len() == old(self).creatures@.len() - 1
                    && j as int == index_of(old(self).creatures@, old(self).creatures@[i as int].brain.target_entity.unwrap()),
                None => final(self).creatures@.len() == old(self).creatures@.len(),
            },
    {
        let ghost cs = self.creatures@;
        let c = self.creatures[i];
        proof { assert(creature_ok(c, self.map)); }
        if c.brain.state != BrainState::Hunt {
            return None;
        }
        let t = match c.brain.target_entity {
            Some(t) => t,
            None => { return None; },
        };
        match find_by_id(&self.creatures, t) {
            None => {
                let mut c2 = c;
                c2.brain.state = BrainState::Wander;
                c2.brain.target_entity = None;
                c2.route.desired_target = None;
                self.creatures.set(i, c2);
                proof {
                    assert(!has_id(cs, t));
                    assert(creature_ok(c2, self.map));
                    self.lemma_keep_ids(i as int, cs);
                }
                None
            },
            Some(j) => {
                proof {
                    assert(has_id(cs, t));
                    let k = index_of(cs, t);
                    if k != j {
                        if k < j { assert(cs[k].id != cs[j as int].id); } else { assert(cs[j as int].id != cs[k].id); }
                    }
                }
                let prey = self.creatures[j];
                proof { assert(creature_ok(prey, self.map)); }
                if j == i || dist2(c.pos, prey.pos) > ATTACK_RANGE2 {
                    return None;
                }
                let mut c2 = c;
                let s = c.needs.satiation + meat_gain(prey.species);
                c2.needs.satiation = if s < c.needs.cap { s } else { c.needs.cap };
                c2.brain.target_entity = None;
                c2.route.desired_target = None;
                c2.brain.state = if c2.needs.is_hungry() { BrainState::Hunt } else { BrainState::Wander };
                proof { assert(creature_ok(c2, self.map)); }
                self.creatures.set(i, c2);
                let ghost mid = self.creatures@;
                proof { self.lemma_keep_ids(i as int, cs); }
                self.creatures.remove(j);
                proof {
                    assert forall|q: int| 0 <= q < self.creatures@.len() implies creature_ok(#[trigger] self.creatures@[q], self.map) by {
                        if q < j { assert(self.creatures@[q] == mid[q]); } else { assert(self.creatures@[q] == mid[q + 1]); }
                        assert(creature_ok(mid[if q < j { q } else { q + 1 }], self.map));
                    }
                    assert forall|a: int, b: int| 0 <= a < b < self.creatures@.len() implies (#[trigger] self.creatures@[a]).id != (#[trigger] self.creatures@[b]).id by {
                        let a2 = if a < j { a } else { a + 1 };
                        let b2 = if b < j { b } else { b + 1 };
                        assert(self.creatures@[a] == mid[a2]);
                        assert(self.creatures@[b] == mid[b2]);
                        assert(mid[a2].id != mid[b2].id);
                    }
                    assert forall|a: int| 0 <= a < self.creatures@.len() implies (#[trigger] self.creatures@[a]).id < self.next_id by {
                        let a2 = if a < j { a } else { a + 1 };
                        assert(self.creatures@[a] == mid[a2]);
                    }
                }
                Some(j)
            },
        }
    }

    /// Every hunter resolves its attack, in list order (see `attack_all`).
    pub fn attack_system(&mut self)
        requires
            old(self).wf(),
        ensures
            final(self).wf(),
            final(self).map == old(self).map,
            final(self).rng == old(self).rng,
            final(self).next_id == old(self).next_id,
            final(self).creatures@.len() <= old(self).creatures@.len(),
            final(self).creatures@ == attack_all(old(self).creatures@, 0, old(self).creatures@.len()),
    {
        let ghost n0 = self.creatures@.len();
        let ghost mut fuel: nat = n0;
        let mut i: usize = 0;
        while i < self.creatures.len()
            invariant
                self.wf(),
                self.map == old(self).map,
                self.rng == old(self).rng,
                self.next_id == old(self).next_id,
                self.creatures@.len() <= old(self).creatures@.len(),
                i <= self.creatures@.len(),
                fuel >= self.creatures@.len() - i,
                attack_all(self.creatures@, i as int, fuel) == attack_all(old(self).creatures@, 0, n0),
            decreases self.creatures@.len() - i,
        {
            let ghost cs = self.creatures@;
            match self.resolve_attack(i) {
                Some(j) => {
                    proof {
                        assert(attack_all(cs, i as int, fuel) == attack_all(self.creatures@, if j < i { i as int } else { i + 1 }, (fuel - 1) as nat));
                        fuel = (fuel - 1) as nat;
                    }
                    if j > i {
                        i = i + 1;
                    }
                },
                None => {
                    proof {
                        assert(attack_all(cs, i as int, fuel) == attack_all(self.creatures@, i + 1, (fuel - 1) as nat));
                        fuel = (fuel - 1) as nat;
                    }
                    i = i + 1;
                },
            }
        }
    }

    /// A hunter's goal follows its target; a hunter whose target is gone wanders
    /// and aims at where it stands (see `pursued`).
    pub fn hunt_track_system(&mut self)
        requires
            old(self).wf(),
        ensures
            final(self).wf(),
            final(self).map == old(self).map,
            final(self).creatures@.len() == old(self).creatures@.len(),
            forall|i: int| 0 <= i < final(self).creatures@.len() ==> #[trigger] final(self).creatures@[i]
                == pursued(old(self).creatures@, old(self).creatures@[i]),
    {
        let n = self.creatures.len();
        let out = pursue_all(&self.creatures, Ghost(self.next_id));
        proof {
            lemma_pursue_all_ok(self.creatures@, out@, self.map, self.next_id);
        }
        self.creatures = out;
    }
}

/// A creature after hunt tracking against the list `cs`.
#[verifier::opaque]
pub open spec fn pursued(cs: Seq<CreatureBundle>, c: CreatureBundle) -> CreatureBundle {
    match c.brain.target_entity {
        Some(t) => if c.brain.state != BrainState::Hunt {
            c
        } else if has_id(cs, t) {
            CreatureBundle { route: Route { desired_target: Some(cs[index_of(cs, t)].pos), ..c.route }, ..c }
        } else {
            CreatureBundle {
                brain: Brain { state: BrainState::Wander, target_entity: None, ..c.brain },
                route: Route { desired_target: Some(c.pos), ..c.route },
                ..c
            }
        },
        None => c,
    }
}

fn pursue_all(cs: &Vec<CreatureBundle>, Ghost(next_id): Ghost<u64>) -> (out: Vec<CreatureBundle>)
    requires
        ids_ok(cs@, next_id),
    ensures
        out@.len() == cs@.len(),
        forall|q: int| 0 <= q < cs@.len() ==> #[trigger] out@[q] == pursued(cs@, cs@[q]),
{
    let n = cs.len();
    let mut out: Vec<CreatureBundle> = Vec::with_capacity(n);
    let mut i: usize = 0;
    while i < n
        invariant
            ids_ok(cs@, next_id),
            n == cs@.len(),
            i <= n,
            out@.len() == i,
            forall|q: int| 0 <= q < i ==> #[trigger] out@[q] == pursued(cs@, cs@[q]),
        decreases n - i,
    {
        out.push(track_one(cs, cs[i], Ghost(next_id)));
        i = i + 1;
    }
    out
}

proof fn lemma_pursue_all_ok(cs: Seq<CreatureBundle>, out: Seq<CreatureBundle>, map: TileMap, next_id: u64)
    requires
        out.len() == cs.len(),
        forall|q: int| 0 <= q < cs.len() ==> #[trigger] out[q] == pursued(cs, cs[q]),
        forall|k: int| 0 <= k < cs.len() ==> creature_ok(#[trigger] cs[k], map),
        ids_ok(cs, next_id),
    ensures
        forall|k: int| 0 <= k < out.len() ==> creature_ok(#[trigger] out[k], map),
        ids_ok(out, next_id),
{
    assert forall|q: int| 0 <= q < cs.len() implies creature_ok(#[trigger] out[q], map)
        && out[q].id == cs[q].id && out[q].species == cs[q].species by {
        lemma_pursued_ok(cs, map, q);
    }
    assert(same_animals(cs, out));
    lemma_same_animals_ids(cs, out, next_id);
}

proof fn lemma_pursued_ok(cs: Seq<CreatureBundle>, map: TileMap, q: int)
    requires
        0 <= q < cs.len(),
        forall|k: int| 0 <= k < cs.len() ==> creature_ok(#[trigger] cs[k], map),
    ensures
        creature_ok(pursued(cs, cs[q]), map),
        pursued(cs, cs[q]).id == cs[q].id,
        pursued(cs, cs[q]).species == cs[q].species,
{
    reveal(pursued);
    assert(creature_ok(cs[q], map));
    if let Some(t) = cs[q].brain.target_entity {
        if has_id(cs, t) {
            let k = index_of(cs, t);
            assert(creature_ok(cs[k], map));
        }
    }
}

fn track_one(cs: &Vec<CreatureBundle>, c: CreatureBundle, Ghost(next_id): Ghost<u64>) -> (r: CreatureBundle)
    requires
        ids_ok(cs@, next_id),
    ensures
        r == pursued(cs@, c),
{
    reveal(pursued);
    if c.brain.state != BrainState::Hunt {
        return c;
    }
    match c.brain.target_entity {
        Some(t) => {
            let mut c2 = c;
            match find_by_id(cs, t) {
                Some(j) => {
                    proof {
                        assert(has_id(cs@, t));
                        let k = index_of(cs@, t);
                        if k != j {
                            if k < j { assert(cs@[k].id != cs@[j as int].id); } else { assert(cs@[j as int].id != cs@[k].id); }
                        }
                    }
                    c2.route.desired_target = Some(cs[j].pos);
                },
                None => {
                    c2.brain.state = BrainState::Wander;
                    c2.brain.target_entity = None;
                    c2.route.desired_target = Some(c.pos);
                },
            }
            c2
        },
        None => c,
    }
}


/// `c2` is creature `i` of `cs` after the flee check. A creature with a predator
/// of its species within 6 tiles flees: it drops its targets and dashes 6 tiles
/// straight away from the nearest such predator (goal held inside the map),
/// checking again after 300 ms. A fleeing creature with no such predator near
/// wanders and drops its goal. Any other creature is left as it was.
#[verifier::opaque]
pub open spec fn fled(cs: Seq<CreatureBundle>, i: int, map: TileMap, c2: CreatureBundle) -> bool {
    let c = cs[i];
    if exists|j: int| threat(cs, i, j) && d2(c.pos, cs[j].pos) <= FLEE_SENSE2 {
        exists|j: int| {
            &&& threat(cs, i, j)
            &&& forall|q: int| threat(cs, i, q) ==> d2(c.pos, cs[j].pos) <= d2(c.pos, (#[trigger] cs[q]).pos)
            &&& c2 == CreatureBundle {
                brain: Brain { state: BrainState::Flee, replan_cd: 300, target_cell: None, target_entity: None },
                route: Route {
                    desired_target: Some(clamped_to_map(map, {
                        let away = crate::units::motion::scaled(Vec2i { x: (c.pos.x - cs[j].pos.x) as i64, y: (c.pos.y - cs[j].pos.y) as i64 }, FLEE_STEP as int);
                        Vec2i { x: (c.pos.x + away.x) as i64, y: (c.pos.y + away.y) as i64 }
                    })),
                    ..c.route
                },
                ..c
            }
        }
    } else if c.brain.state == BrainState::Flee {
        c2 == CreatureBundle {
            brain: Brain { state: BrainState::Wander, ..c.brain },
            route: Route { desired_target: None, ..c.route },
            ..c
        }
    } else {
        c2 == c
    }
}

fn flee_one(cs: &Vec<CreatureBundle>, i: usize, map: &TileMap) -> (c2: CreatureBundle)
    requires
        i < cs@.len(),
        map.wf(),
        forall|k: int| 0 <= k < cs@.len() ==> creature_ok(#[trigger] cs@[k], *map),
    ensures
        fled(cs@, i as int, *map, c2),
        creature_ok(c2, *map),
        c2.id == cs@[i as int].id,
        c2.species == cs@[i as int].species,
{
    reveal(fled);
    let c = cs[i];
    proof {
        assert(creature_ok(c, *map));
        assert forall|k: int| 0 <= k < cs@.len() implies in_box(*map, (#[trigger] cs@[k]).pos) by {
            assert(creature_ok(cs@[k], *map));
        }
    }
    match nearest_threat(cs, i, Ghost(*map)) {
        Some(j) => {
            let p = cs[j];
            proof { assert(creature_ok(p, *map)); }
            if dist2(c.pos, p.pos) <= FLEE_SENSE2 {
                let away = scale_to(Vec2i { x: c.pos.x - p.pos.x, y: c.pos.y - p.pos.y }, FLEE_STEP);
                let goal = clamp_target(map, Vec2i { x: c.pos.x + away.x, y: c.pos.y + away.y });
                let mut c2 = c;
                c2.brain = Brain { state: BrainState::Flee, replan_cd: 300, target_cell: None, target_entity: None };
                c2.route.desired_target = Some(goal);
                return c2;
            }
        },
        None => {},
    }
    if c.brain.state == BrainState::Flee {
        let mut c2 = c;
        c2.brain.state = BrainState::Wander;
        c2.route.desired_target = None;
        c2
    } else {
        c
    }
}

impl World {
    /// Runs the flee check for every creature against the positions at the
    /// start of the tick (see `fled`).
    pub fn prey_flee_system(&mut self)
        requires
            old(self).wf(),
        ensures
            final(self).wf(),
            final(self).map == old(self).map,
            final(self).creatures@.len() == old(self).creatures@.len(),
            forall|i: int| 0 <= i < final(self).creatures@.len() ==> fled(old(self).creatures@, i, old(self).map, #[trigger] final(self).creatures@[i]),
    {
        let n = self.creatures.len();
        let mut out: Vec<CreatureBundle> = Vec::with_capacity(n);
        let mut i: usize = 0;
        while i < n
            invariant
                self.wf(),
                *self == *old(self),
                n == self.creatures@.len(),
                i <= n,
                out@.len() == i,
                forall|q: int| 0 <= q < i ==> fled(self.creatures@, q, self.map, #[trigger] out@[q]),
                forall|q: int| 0 <= q < i ==> creature_ok(#[trigger] out@[q], self.map),
                forall|q: int| 0 <= q < i ==> (#[trigger] out@[q]).id == self.creatures@[q].id && out@[q].species == self.creatures@[q].species,
            decreases n - i,
        {
            let c2 = flee_one(&self.creatures, i, &self.map);
            out.push(c2);
            i = i + 1;
        }
        proof {
            assert(same_animals(self.creatures@, out@));
            lemma_same_animals_ids(self.creatures@, out@, self.next_id);
        }
        self.creatures = out;
    }

    /// One simulation tick of `dt_ms` milliseconds: hunger, plant regrowth, flee
    /// checks, decisions, hunt tracking, route, movement, then mating, eating and
    /// attacks, each as its own system states it (see `tick_steps`).
    pub fn tick(&mut self, dt_ms: i64)
        requires
            old(self).wf(),
            0 <= dt_ms <= MAX_MOVE_DT,
        ensures
            final(self).wf(),
            final(self).map.width == old(self).map.width,
            final(self).map.height == old(self).map.height,
            exists|m1: TileMap, c1: Seq<CreatureBundle>, c2: Seq<CreatureBundle>, c3: Seq<CreatureBundle>, c4: Seq<CreatureBundle>,
                c5: Seq<CreatureBundle>, c6: Seq<CreatureBundle>, c7: Seq<CreatureBundle>, c8: Seq<CreatureBundle>|
                #[trigger] tick_steps(old(self).creatures@, old(self).map, m1, c1, c2, c3, c4, c5, c6, c7, c8,
                    final(self).creatures@, final(self).map.tiles@, dt_ms as int),
    {
        let ghost c0 = self.creatures@;
        let ghost m0 = self.map;
        self.needs_tick_system(dt_ms);
        let ghost c1 = self.creatures@;
        plants_regrow(&mut self.map, dt_ms);
        let ghost m1 = self.map;
        proof {
            assert forall|q: int| 0 <= q < self.creatures@.len() implies creature_ok(#[trigger] self.creatures@[q], self.map) by {
                assert(creature_ok(c1[q], m0));
            }
        }
        self.prey_flee_system();
        let ghost c2 = self.creatures@;
        self.decision_system(dt_ms);
        let ghost c3 = self.creatures@;
        self.hunt_track_system();
        let ghost c4 = self.creatures@;
        self.route_system();
        let ghost c5 = self.creatures@;
        self.movement_system(dt_ms);
        let ghost c6 = self.creatures@;
        self.mating_system(dt_ms);
        let ghost c7 = self.creatures@;
        self.eat_system(dt_ms);
        let ghost c8 = self.creatures@;
        self.attack_system();
        proof {
            assert(tick_steps(c0, m0, m1, c1, c2, c3, c4, c5, c6, c7, c8, self.creatures@, self.map.tiles@, dt_ms as int));
        }
    }
}


/// The stages of one tick, each related to the next by its system's own
/// contract: `c1` hunger, `m1` regrowth, `c2` flee checks, `c3` decisions, `c4`
/// hunt tracking, `c5` route, `c6` movement, `c7` mating, `c8` eating (which also
/// gives the final tiles) and `cf` attacks.
pub open spec fn tick_steps(
    c0: Seq<CreatureBundle>,
    m0: TileMap,
    m1: TileMap,
    c1: Seq<CreatureBundle>,
    c2: Seq<CreatureBundle>,
    c3: Seq<CreatureBundle>,
    c4: Seq<CreatureBundle>,
    c5: Seq<CreatureBundle>,
    c6: Seq<CreatureBundle>,
    c7: Seq<CreatureBundle>,
    c8: Seq<CreatureBundle>,
    cf: Seq<CreatureBundle>,
    tf: Seq<Tile>,
    dt_ms: int,
) -> bool {
    &&& c1.len() == c0.len() && forall|i: int| 0 <= i < c0.len() ==> #[trigger] c1[i] == hungrier(c0[i], dt_ms)
    &&& m1.width == m0.width && m1.height == m0.height && m1.tiles@.len() == m0.tiles@.len()
    &&& forall|i: int| 0 <= i < m0.tiles@.len() ==> #[trigger] m1.tiles@[i] == crate::units::world::regrown(m0.tiles@[i], dt_ms)
    &&& c2.len() == c1.len() && forall|i: int| 0 <= i < c1.len() ==> fled(c1, i, m1, #[trigger] c2[i])
    &&& c3.len() == c2.len() && forall|i: int| 0 <= i < c2.len() ==> decided(c2[i], #[trigger] c3[i], c2, i, m1, dt_ms)
    &&& c4.len() == c3.len() && forall|i: int| 0 <= i < c3.len() ==> #[trigger] c4[i] == pursued(c3, c3[i])
    &&& c5.len() == c4.len() && forall|i: int| 0 <= i < c4.len() ==> #[trigger] c5[i] == (CreatureBundle {
        route: Route { current_target: crate::units::creature::route_next(c4[i].route.current_target, c4[i].route.desired_target, c4[i].pos), ..c4[i].route },
        ..c4[i]
    })
    &&& c6.len() == c5.len() && forall|i: int| 0 <= i < c5.len() ==> #[trigger] c6[i] == crate::units::creature::moved(c5[i], m1, dt_ms)
    &&& c7.len() >= c6.len()
    &&& forall|i: int| 0 <= i < c6.len() ==> #[trigger] c7[i] == cooled_creature(c6[i], dt_ms) || mated(c6[i], c7[i], dt_ms)
    &&& forall|i: int| c6.len() <= i < c7.len() ==> #[trigger] c7[i] == CreatureBundle::new_spec(c7[i].id, c7[i].species, c7[i].pos, c7[i].base_speed)
    &&& (c8, tf) == eat_all(c7, m1.tiles@, m1.width as int, dt_ms, c7.len())
    &&& cf == attack_all(c8, 0, c8.len())
}

/// Predation: a fox hunting a squirrel that stands within attack range removes
/// it, and its reserve rises by exactly the squirrel's meat (1.5), once: the
/// squirrel's id is gone from the list and the fox's target is dropped.
pub proof fn lemma_predation(cs: Seq<CreatureBundle>, next_id: u64, i: int, j: int)
    requires
        ids_ok(cs, next_id),
        0 <= i < cs.len(),
        0 <= j < cs.len(),
        i != j,
        cs[i].species == Species::Fox,
        cs[j].species == Species::Squirrel,
        cs[i].brain.state == BrainState::Hunt,
        cs[i].brain.target_entity == Some(cs[j].id),
        d2(cs[i].pos, cs[j].pos) <= ATTACK_RANGE2,
        cs[i].needs.satiation + 1_500_000 <= cs[i].needs.cap,
    ensures
        ({
            let r = after_attack(cs, i);
            let fox = if i < j { i } else { i - 1 };
            &&& r.len() == cs.len() - 1
            &&& !has_id(r, cs[j].id)
            &&& r[fox].id == cs[i].id
            &&& r[fox].needs.satiation == cs[i].needs.satiation + 1_500_000
            &&& r[fox].brain.target_entity.is_none()
        }),
{
    let t = cs[j].id;
    assert(has_id(cs, t));
    let k = index_of(cs, t);
    if k != j {
        if k < j { assert(cs[k].id != cs[j].id); } else { assert(cs[j].id != cs[k].id); }
    }
    let r = after_attack(cs, i);
    let u = cs.update(i, after_kill(cs[i], cs[j].species));
    assert(r == u.remove(j));
    if has_id(r, t) {
        let q = choose|q: int| 0 <= q < r.len() && (#[trigger] r[q]).id == t;
        let q2 = if q < j { q } else { q + 1 };
        assert(r[q] == u[q2]);
        if q2 == i {
            assert(u[q2].id == cs[i].id);
            assert(cs[i].id != cs[j].id) by {
                if i < j { assert(cs[i].id != cs[j].id); } else { assert(cs[j].id != cs[i].id); }
            }
        } else {
            assert(u[q2] == cs[q2]);
            if q2 < j { assert(cs[q2].id != cs[j].id); } else { assert(cs[j].id != cs[q2].id); }
        }
    }
    let fox = if i < j { i } else { i - 1 };
    assert(r[fox] == u[i]);
}


/// Mating range: 0.75 of a tile, squared, in thousandths.
pub const MATE_RANGE2: i128 = 562_500;
/// Time between two matings of one creature, in milliseconds.
pub const REPRO_COOLDOWN: i64 = 30_000;

/// The creature with its mating timer cooled by `dt_ms`.
pub open spec fn cooled_creature(c: CreatureBundle, dt_ms: int) -> CreatureBundle {
    CreatureBundle { repro_cd: cooled(c.repro_cd as int, dt_ms), ..c }
}

/// Creatures `a` and `b` of `cs`, once their timers cool, could mate.
pub open spec fn pair_ready(cs: Seq<CreatureBundle>, a: int, b: int, dt_ms: int) -> bool {
    let ca = cooled_creature(cs[a], dt_ms);
    let cb = cooled_creature(cs[b], dt_ms);
    fertile(ca) && fertile(cb) && ca.species == cb.species && d2(ca.pos, cb.pos) <= MATE_RANGE2
}

/// `c2` is `c` after mating this tick: it was ready, its reserve is empty and its
/// timer restarted.
pub open spec fn mated(c: CreatureBundle, c2: CreatureBundle, dt_ms: int) -> bool {
    fertile(cooled_creature(c, dt_ms)) && c2.needs.satiation == 0 && c2.repro_cd == REPRO_COOLDOWN
}

/// `c` is the offspring of creatures `a` and `b` of `cs`: their species, their
/// mean speed, and placed within a quarter tile of their midpoint,
/// held inside the map.
pub open spec fn offspring_of(cs: Seq<CreatureBundle>, a: int, b: int, c: CreatureBundle, map: TileMap) -> bool {
    &&& c.species == cs[a].species
    &&& cs[b].species == cs[a].species
    &&& c.base_speed == (cs[a].base_speed + cs[b].base_speed) / 2
    &&& exists|off: Vec2i| #[trigger] len2(off) <= 250 * 250 && c.pos == clamped_to_map(map, Vec2i {
        x: ((cs[a].pos.x + cs[b].pos.x) / 2 + off.x) as i64,
        y: ((cs[a].pos.y + cs[b].pos.y) / 2 + off.y) as i64,
    })
}

/// Ready to mate: wandering, not hungry, cooldown over.
pub open spec fn fertile(c: CreatureBundle) -> bool {
    c.brain.state == BrainState::Wander && !c.needs.hungry() && c.repro_cd == 0
}

/// Creature `j` (among the first `n`) could mate with creature `i` now.
pub open spec fn mate_ok(cs: Seq<CreatureBundle>, used: Seq<bool>, n: int, i: int, j: int) -> bool {
    0 <= j < n && j != i && !used[j] && fertile(cs[j]) && cs[j].species == cs[i].species
        && d2(cs[i].pos, cs[j].pos) <= MATE_RANGE2
}

/// The nearest possible partner of creature `i` among the first `n`.
fn nearest_mate(cs: &Vec<CreatureBundle>, used: &Vec<bool>, i: usize, n: usize, Ghost(map): Ghost<TileMap>) -> (r: Option<usize>)
    requires
        i < n <= cs@.len(),
        used@.len() == n,
        forall|q: int| 0 <= q < cs@.len() ==> in_box(map, (#[trigger] cs@[q]).pos),
        map.wf(),
    ensures
        match r {
            Some(j) => mate_ok(cs@, used@, n as int, i as int, j as int)
                && forall|q: int| mate_ok(cs@, used@, n as int, i as int, q) ==> d2(cs@[i as int].pos, cs@[j as int].pos) <= d2(cs@[i as int].pos, (#[trigger] cs@[q]).pos),
            None => forall|q: int| !mate_ok(cs@, used@, n as int, i as int, q),
        },
{
    let me = cs[i];
    let mut best: Option<(usize, i128)> = None;
    let mut j: usize = 0;
    while j < n
        invariant
            i < n <= cs@.len(),
            used@.len() == n,
            me == cs@[i as int],
            j <= n,
            forall|q: int| 0 <= q < cs@.len() ==> in_box(map, (#[trigger] cs@[q]).pos),
            map.wf(),
            match best {
                Some((b, bd)) => mate_ok(cs@, used@, n as int, i as int, b as int) && bd == d2(me.pos, cs@[b as int].pos)
                    && forall|q: int| q < j && mate_ok(cs@, used@, n as int, i as int, q) ==> bd <= d2(me.pos, (#[trigger] cs@[q]).pos),
                None => forall|q: int| q < j ==> !mate_ok(cs@, used@, n as int, i as int, q),
            },
        decreases n - j,
    {
        let o = cs[j];
        if j != i && !used[j] && o.brain.state == BrainState::Wander && !o.needs.is_hungry() && o.repro_cd == 0 && o.species == me.species {
            let d = dist2(me.pos, o.pos);
            if d <= MATE_RANGE2 {
                match best {
                    None => {
                        best = Some((j, d));
                    },
                    Some((_, bd)) => {
                        if d < bd {
                            best = Some((j, d));
                        }
                    },
                }
            }
        }
        j = j + 1;
    }
    match best {
        Some((b, _)) => Some(b),
        None => None,
    }
}

impl World {
    /// Cools every mating timer down by `dt_ms`.
    fn cool_repro(&mut self, dt_ms: i64)
        requires
            old(self).wf(),
            0 <= dt_ms <= MAX_DT,
        ensures
            final(self).wf(),
            final(self).map == old(self).map,
            final(self).next_id == old(self).next_id,
            final(self).creatures@.len() == old(self).creatures@.len(),
            forall|i: int| 0 <= i < final(self).creatures@.len() ==> #[trigger] final(self).creatures@[i]
                == (CreatureBundle { repro_cd: cooled(old(self).creatures@[i].repro_cd as int, dt_ms as int), ..old(self).creatures@[i] }),
    {
        let n = self.creatures.len();
        let mut i: usize = 0;
        while i < n
            invariant
                self.map == old(self).map,
                self.rng == old(self).rng,
                self.next_id == old(self).next_id,
                old(self).wf(),
                0 <= dt_ms <= MAX_DT,
                n == self.creatures@.len(),
                n == old(self).creatures@.len(),
                i <= n,
                forall|q: int| 0 <= q < i ==> #[trigger] self.creatures@[q]
                    == (CreatureBundle { repro_cd: cooled(old(self).creatures@[q].repro_cd as int, dt_ms as int), ..old(self).creatures@[q] }),
                forall|q: int| i <= q < n ==> #[trigger] self.creatures@[q] == old(self).creatures@[q],
                forall|q: int| 0 <= q < n ==> creature_ok(#[trigger] self.creatures@[q], self.map),
            decreases n - i,
        {
            let mut c = self.creatures[i];
            proof { assert(creature_ok(c, self.map)); }
            c.repro_cd = if c.repro_cd - dt_ms < 0 { 0 } else { c.repro_cd - dt_ms };
            self.creatures.set(i, c);
            i = i + 1;
        }
        proof {
            assert(same_animals(old(self).creatures@, self.creatures@));
            lemma_same_animals_ids(old(self).creatures@, self.creatures@, self.next_id);
        }
    }

    /// Mating after movement: timers cool down; then, in list order, each fertile
    /// creature not yet mated this tick pairs with its nearest fertile, unmated
    /// partner of its species within 0.75 tiles. The pair's offspring appears near
    /// their midpoint with their mean speed; both parents' reserves drop to zero
    /// and their timers restart at 30 s. Each creature mates at most once a tick.
    pub fn mating_system(&mut self, dt_ms: i64)
        requires
            old(self).wf(),
            0 <= dt_ms <= MAX_DT,
        ensures
            (exists|a: int, b: int| 0 <= a < old(self).creatures@.len() && 0 <= b < old(self).creatures@.len() && a != b
                && #[trigger] pair_ready(old(self).creatures@, a, b, dt_ms as int))
                ==> exists|q: int| 0 <= q < old(self).creatures@.len() && #[trigger] mated(old(self).creatures@[q], final(self).creatures@[q], dt_ms as int),
            forall|q: int| old(self).creatures@.len() <= q < final(self).creatures@.len() ==> {
                let c = #[trigger] final(self).creatures@[q];
                &&& c == CreatureBundle::new_spec(c.id, c.species, c.pos, c.base_speed)
                &&& exists|a: int, b: int| 0 <= a < old(self).creatures@.len() && 0 <= b < old(self).creatures@.len() && a != b
                    && mated(old(self).creatures@[a], final(self).creatures@[a], dt_ms as int)
                    && mated(old(self).creatures@[b], final(self).creatures@[b], dt_ms as int)
                    && #[trigger] offspring_of(old(self).creatures@, a, b, c, old(self).map)
            },
            final(self).wf(),
            final(self).map == old(self).map,
            final(self).creatures@.len() >= old(self).creatures@.len(),
            forall|i: int| 0 <= i < old(self).creatures@.len() ==> {
                let c = #[trigger] old(self).creatures@[i];
                let c2 = final(self).creatures@[i];
                let cd = cooled(c.repro_cd as int, dt_ms as int);
                &&& c2.id == c.id && c2.species == c.species && c2.pos == c.pos
                &&& (c2 == CreatureBundle { repro_cd: cd, ..c }
                    || (fertile(CreatureBundle { repro_cd: cd, ..c }) && c2.needs.satiation == 0 && c2.repro_cd == REPRO_COOLDOWN))
            },
    {
        self.cool_repro(dt_ms);
        let ghost cooled_cs = self.creatures@;
        let n = self.creatures.len();
        let mut used: Vec<bool> = Vec::with_capacity(n);
        let mut k: usize = 0;
        while k < n
            invariant
                k <= n,
                used@.len() == k,
                forall|q: int| 0 <= q < k ==> !used@[q],
            decreases n - k,
        {
            used.push(false);
            k = k + 1;
        }
        let mut i: usize = 0;
        while i < n
            invariant
                self.wf(),
                self.map == old(self).map,
                n == cooled_cs.len(),
                n == old(self).creatures@.len(),
                self.creatures@.len() >= n,
                used@.len() == n,
                i <= n,
                forall|q: int| 0 <= q < n ==> {
                    let c = #[trigger] cooled_cs[q];
                    let c2 = self.creatures@[q];
                    &&& c2.id == c.id && c2.species == c.species && c2.pos == c.pos
                    &&& (if used@[q] { fertile(c) && c2.needs.satiation == 0 && c2.repro_cd == REPRO_COOLDOWN } else { c2 == c })
                },
                forall|q: int| 0 <= q < n ==> #[trigger] cooled_cs[q] == cooled_creature(old(self).creatures@[q], dt_ms as int),
                (exists|q: int| 0 <= q < n && #[trigger] used@[q])
                    || forall|a: int, b: int| 0 <= a < i && 0 <= b < n && a != b ==> !#[trigger] pair_ready(old(self).creatures@, a, b, dt_ms as int),
                forall|q: int| n <= q < self.creatures@.len() ==> {
                    let c = #[trigger] self.creatures@[q];
                    &&& c == CreatureBundle::new_spec(c.id, c.species, c.pos, c.base_speed)
                    &&& exists|a: int, b: int| 0 <= a < n && 0 <= b < n && a != b && used@[a] && used@[b]
                        && #[trigger] offspring_of(old(self).creatures@, a, b, c, old(self).map)
                },
            decreases n - i,
        {
            let c = self.creatures[i];
            let ghost used_before = used@;
            let ghost cs_before = self.creatures@;
            proof {
                assert(cooled_cs[i as int] == cooled_creature(old(self).creatures@[i as int], dt_ms as int));
            }
            if !used[i] && c.brain.state == BrainState::Wander && !c.needs.is_hungry() && c.repro_cd == 0 {
                proof {
                    assert forall|q: int| 0 <= q < self.creatures@.len() implies in_box(self.map, (#[trigger] self.creatures@[q]).pos) by {
                        assert(creature_ok(self.creatures@[q], self.map));
                    }
                }
                match nearest_mate(&self.creatures, &used, i, n, Ghost(self.map)) {
                    Some(j) => {
                        let a = self.creatures[i];
                        let b = self.creatures[j];
                        proof {
                            assert(creature_ok(a, self.map));
                            assert(creature_ok(b, self.map));
                            assert(cooled_cs[j as int] == b);
                        }
                        let jitter = wander_offset(&mut self.rng, 250);
                        let mid = clamp_target(&self.map, Vec2i { x: (a.pos.x + b.pos.x) / 2 + jitter.x, y: (a.pos.y + b.pos.y) / 2 + jitter.y });
                        let speed = (a.base_speed + b.base_speed) / 2;
                        let ghost before = self.creatures@;
                        let _child = self.spawn(a.species, mid, speed);
                        let mut a2 = a;
                        a2.needs.satiation = 0;
                        a2.repro_cd = REPRO_COOLDOWN;
                        let mut b2 = b;
                        b2.needs.satiation = 0;
                        b2.repro_cd = REPRO_COOLDOWN;
                        proof {
                            assert(self.creatures@[i as int] == before[i as int]);
                            assert(self.creatures@[j as int] == before[j as int]);
                        }
                        let ghost mid_cs = self.creatures@;
                        self.creatures.set(i, a2);
                        self.creatures.set(j, b2);
                        used.set(i, true);
                        used.set(j, true);
                        proof {
                            assert(used@[i as int]);
                            assert(cooled_cs[i as int] == cooled_creature(old(self).creatures@[i as int], dt_ms as int));
                            assert(cooled_cs[j as int] == cooled_creature(old(self).creatures@[j as int], dt_ms as int));
                            assert forall|q: int| n <= q < self.creatures@.len() implies {
                                let c = #[trigger] self.creatures@[q];
                                &&& c == CreatureBundle::new_spec(c.id, c.species, c.pos, c.base_speed)
                                &&& exists|a: int, b: int| 0 <= a < n && 0 <= b < n && a != b && used@[a] && used@[b]
                                    && #[trigger] offspring_of(old(self).creatures@, a, b, c, old(self).map)
                            } by {
                                assert(self.creatures@[q] == mid_cs[q]);
                                if q < before.len() {
                                    assert(mid_cs[q] == before[q]);
                                    let (a0, b0) = choose|a0: int, b0: int| 0 <= a0 < n && 0 <= b0 < n && a0 != b0 && used_before[a0] && used_before[b0]
                                        && #[trigger] offspring_of(old(self).creatures@, a0, b0, before[q], old(self).map);
                                    assert(used@[a0] && used@[b0]);
                                } else {
                                    assert(len2(jitter) <= 250 * 250);
                                    assert(offspring_of(old(self).creatures@, i as int, j as int, self.creatures@[q], old(self).map));
                                }
                            }
                            assert forall|q: int| 0 <= q < self.creatures@.len() implies creature_ok(#[trigger] self.creatures@[q], self.map) by {
                                if q != i && q != j {
                                    assert(self.creatures@[q] == mid_cs[q]);
                                }
                            }
                            assert(same_animals(mid_cs, self.creatures@));
                            lemma_same_animals_ids(mid_cs, self.creatures@, self.next_id);
                            assert forall|q: int| 0 <= q < n implies {
                                let c = #[trigger] cooled_cs[q];
                                let c2 = self.creatures@[q];
                                &&& c2.id == c.id && c2.species == c.species && c2.pos == c.pos
                                &&& (if used@[q] { fertile(c) && c2.needs.satiation == 0 && c2.repro_cd == REPRO_COOLDOWN } else { c2 == c })
                            } by {
                                if q != i && q != j {
                                    assert(self.creatures@[q] == mid_cs[q]);
                                    assert(mid_cs[q] == before[q]);
                                }
                            }
                        }
                    },
                    None => {
                        proof {
                            if !(exists|q: int| 0 <= q < n && #[trigger] used@[q]) {
                                assert forall|b: int| 0 <= b < n && i != b implies !#[trigger] pair_ready(old(self).creatures@, i as int, b, dt_ms as int) by {
                                    assert(cooled_cs[b] == cooled_creature(old(self).creatures@[b], dt_ms as int));
                                    if pair_ready(old(self).creatures@, i as int, b, dt_ms as int) {
                                        assert(!used@[b]);
                                        assert(self.creatures@[b] == cooled_cs[b]);
                                        assert(self.creatures@[i as int] == cooled_cs[i as int]);
                                        assert(mate_ok(self.creatures@, used@, n as int, i as int, b));
                                    }
                                }
                            }
                        }
                    },
                }
            } else {
                proof {
                    if !(exists|q: int| 0 <= q < n && #[trigger] used@[q]) {
                        assert(!used@[i as int]);
                        assert(self.creatures@[i as int] == cooled_cs[i as int]);
                        assert forall|b: int| 0 <= b < n && i != b implies !#[trigger] pair_ready(old(self).creatures@, i as int, b, dt_ms as int) by {
                        }
                    }
                }
            }
            proof {
                if !(exists|q: int| 0 <= q < n && #[trigger] used@[q]) {
                    assert forall|a: int, b: int| 0 <= a < i + 1 && 0 <= b < n && a != b implies !#[trigger] pair_ready(old(self).creatures@, a, b, dt_ms as int) by {
                        if a < i {
                            assert(!(exists|q: int| 0 <= q < n && #[trigger] used_before[q])) by {
                                if exists|q: int| 0 <= q < n && #[trigger] used_before[q] {
                                    let q = choose|q: int| 0 <= q < n && #[trigger] used_before[q];
                                    assert(used@[q]);
                                }
                            }
                        }
                    }
                }
            }
            i = i + 1;
        }
        proof {
            assert forall|q: int| n <= q < self.creatures@.len() implies {
                let c = #[trigger] self.creatures@[q];
                &&& c == CreatureBundle::new_spec(c.id, c.species, c.pos, c.base_speed)
                &&& exists|a: int, b: int| 0 <= a < n && 0 <= b < n && a != b
                    && mated(old(self).creatures@[a], self.creatures@[a], dt_ms as int)
                    && mated(old(self).creatures@[b], self.creatures@[b], dt_ms as int)
                    && #[trigger] offspring_of(old(self).creatures@, a, b, c, old(self).map)
            } by {
                let c = self.creatures@[q];
                let (a, b) = choose|a: int, b: int| 0 <= a < n && 0 <= b < n && a != b && used@[a] && used@[b]
                    && #[trigger] offspring_of(old(self).creatures@, a, b, c, old(self).map);
                assert(cooled_cs[a] == cooled_creature(old(self).creatures@[a], dt_ms as int));
                assert(cooled_cs[b] == cooled_creature(old(self).creatures@[b], dt_ms as int));
                assert(mated(old(self).creatures@[a], self.creatures@[a], dt_ms as int));
                assert(mated(old(self).creatures@[b], self.creatures@[b], dt_ms as int));
            }
        }
        proof {
            if exists|a: int, b: int| 0 <= a < n && 0 <= b < n && a != b && #[trigger] pair_ready(old(self).creatures@, a, b, dt_ms as int) {
                let (a, b) = choose|a: int, b: int| 0 <= a < n && 0 <= b < n && a != b && #[trigger] pair_ready(old(self).creatures@, a, b, dt_ms as int);
                assert(exists|q: int| 0 <= q < n && #[trigger] used@[q]);
                let q = choose|q: int| 0 <= q < n && #[trigger] used@[q];
                assert(cooled_cs[q] == cooled_creature(old(self).creatures@[q], dt_ms as int));
                assert(mated(old(self).creatures@[q], self.creatures@[q], dt_ms as int));
            }
        }
        proof {
            assert forall|q: int| 0 <= q < n implies {
                let c = #[trigger] old(self).creatures@[q];
                let c2 = self.creatures@[q];
                let cd = cooled(c.repro_cd as int, dt_ms as int);
                &&& c2.id == c.id && c2.species == c.species && c2.pos == c.pos
                &&& (c2 == CreatureBundle { repro_cd: cd, ..c }
                    || (fertile(CreatureBundle { repro_cd: cd, ..c }) && c2.needs.satiation == 0 && c2.repro_cd == REPRO_COOLDOWN))
            } by {
                assert(cooled_cs[q] == (CreatureBundle { repro_cd: cooled(old(self).creatures@[q].repro_cd as int, dt_ms as int), ..old(self).creatures@[q] }));
            }
        }
    }
}

} // verus!
