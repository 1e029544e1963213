use wildmap::geom::Point;
use wildmap::grid::Grid;
use wildmap::objects::PlacedObject;
use wildmap::template::{
    default_clumps, BlendConfig, FractalConfig, LeyConfig, MapTemplate, ObjectTypeRule, ObjectsConfig,
    PlayerSpawns, TerrainRules,
};
use wildmap::units::bridge::apply_objects_to_tilemap;
use wildmap::units::creature::{eat_step, move_step, route_step, BrainState, CreatureBundle, Route};
use wildmap::units::forage::nearest_food_cell;
use wildmap::units::sim::World;
use wildmap::units::species::{default_needs, drain, is_predator, is_prey_of, meat_gain, FoodKind, Species};
use wildmap::units::world::{
    classes_to_tilemap, empty_tile, plants_regrow, Terrain, Tile, TileMap, TileObject, Vec2i,
};

fn grass_map(w: i32, h: i32) -> TileMap {
    TileMap::new(w, h, empty_tile(Terrain::Grassland))
}

fn tree_tile() -> Tile {
    Tile { terrain: Terrain::Forest, object: Some(TileObject::Tree), nuts: 8_000_000, berries: 0, nuts_max: 8_000_000, berries_max: 0 }
}

#[test]
fn species_tables() {
    assert!(is_predator(Species::Fox) && is_predator(Species::Bear));
    assert!(!is_predator(Species::Deer));
    assert!(is_prey_of(Species::Fox, Species::Squirrel) && is_prey_of(Species::Fox, Species::Bird));
    assert!(!is_prey_of(Species::Fox, Species::Deer));
    assert!(is_prey_of(Species::Bear, Species::Fox) && is_prey_of(Species::Bear, Species::Deer));
    assert!(!is_prey_of(Species::Deer, Species::Squirrel));
    assert_eq!(meat_gain(Species::Bird), 1_200_000);
    assert_eq!(meat_gain(Species::Squirrel), 1_500_000);
    assert_eq!(meat_gain(Species::Fox), 2_200_000);
    assert_eq!(meat_gain(Species::Deer), 3_000_000);
    let n = default_needs(Species::Deer);
    assert_eq!((n.satiation, n.cap, n.hungry_threshold, n.hunger_rate, n.eat_rate), (3_000_000, 6_000_000, 2_500_000, 70, 1000));
}

#[test]
fn hunger_drains_to_zero_and_no_further() {
    let mut n = default_needs(Species::Squirrel);
    drain(&mut n, 1000);
    assert_eq!(n.satiation, 2_450_000);
    let mut last = n.satiation;
    for _ in 0..10 {
        drain(&mut n, 777);
        assert!(n.satiation <= last && n.satiation >= 0);
        last = n.satiation;
    }
    drain(&mut n, 1_000_000);
    assert_eq!(n.satiation, 0);
    drain(&mut n, 1000);
    assert_eq!(n.satiation, 0);
}

#[test]
fn needs_tick_lowers_every_creature() {
    let mut w = World::new(grass_map(4, 4), 1);
    w.spawn(Species::Deer, Vec2i { x: 500, y: 500 }, 1000).unwrap();
    w.spawn(Species::Bear, Vec2i { x: 2500, y: 500 }, 1000).unwrap();
    w.needs_tick_system(2000);
    assert_eq!(w.creatures[0].needs.satiation, 3_000_000 - 140_000);
    assert_eq!(w.creatures[1].needs.satiation, 3_500_000 - 160_000);
}

#[test]
fn spawn_refuses_bad_input() {
    let mut w = World::new(grass_map(4, 4), 1);
    assert_eq!(w.spawn(Species::Deer, Vec2i { x: -1, y: 0 }, 1000), None);
    assert_eq!(w.spawn(Species::Deer, Vec2i { x: 0, y: 4001 }, 1000), None);
    assert_eq!(w.spawn(Species::Deer, Vec2i { x: 0, y: 0 }, -5), None);
    assert_eq!(w.spawn(Species::Deer, Vec2i { x: 4000, y: 4000 }, 0), Some(0));
    assert_eq!(w.spawn(Species::Deer, Vec2i { x: 0, y: 0 }, 1_000_000), Some(1));
    assert_eq!(w.creatures.len(), 2);
}

#[test]
fn hungry_forager_eats_until_full() {
    let mut map = grass_map(5, 5);
    map.tiles[2 * 5 + 2] = tree_tile();
    let mut w = World::new(map, 5);
    w.spawn(Species::Squirrel, Vec2i { x: 1500, y: 2500 }, 2000).unwrap();
    w.creatures[0].needs.satiation = 1_000_000;
    let mut ate = false;
    let mut last = 0;
    let mut done = false;
    for _ in 0..200 {
        let was_eating = w.creatures[0].brain.state == BrainState::Eating;
        w.tick(100);
        let c = w.creatures[0];
        if was_eating {
            if c.brain.state == BrainState::Eating {
                assert!(c.needs.satiation > last);
            } else {
                assert_eq!(c.brain.state, BrainState::Wander);
                assert_eq!(c.needs.satiation, c.needs.cap);
                done = true;
                break;
            }
        }
        if c.brain.state == BrainState::Eating {
            ate = true;
            assert_eq!(c.brain.target_cell, Some(Point::new(2, 2)));
        }
        last = c.needs.satiation;
    }
    assert!(ate && done);
    assert!(w.map.tiles[12].nuts < 8_000_000);
}

#[test]
fn fox_kills_squirrel_once() {
    let mut w = World::new(grass_map(6, 6), 3);
    let fox = w.spawn(Species::Fox, Vec2i { x: 3000, y: 3000 }, 0).unwrap();
    let sq = w.spawn(Species::Squirrel, Vec2i { x: 3200, y: 3000 }, 0).unwrap();
    w.creatures[0].needs.satiation = 1_000_000;
    w.tick(100);
    assert_eq!(w.creatures.len(), 1);
    assert_eq!(w.creatures[0].id, fox);
    assert!(w.creatures.iter().all(|c| c.id != sq));
    assert_eq!(w.creatures[0].needs.satiation, 1_000_000 - 6000 + 1_500_000);
    assert_eq!(w.creatures[0].brain.state, BrainState::Wander);
    assert_eq!(w.creatures[0].brain.target_entity, None);
    w.tick(100);
    assert_eq!(w.creatures[0].needs.satiation, 2_494_000 - 6000);
}

#[test]
fn lost_target_makes_hunter_wander() {
    let mut w = World::new(grass_map(6, 6), 3);
    w.spawn(Species::Bear, Vec2i { x: 3000, y: 3000 }, 0).unwrap();
    w.creatures[0].brain.state = BrainState::Hunt;
    w.creatures[0].brain.target_entity = Some(99);
    assert_eq!(w.resolve_attack(0), None);
    assert_eq!(w.creatures[0].brain.state, BrainState::Wander);
    assert_eq!(w.creatures[0].brain.target_entity, None);
}

#[test]
fn prey_flees_from_its_predator() {
    let mut w = World::new(grass_map(20, 20), 3);
    w.spawn(Species::Deer, Vec2i { x: 10000, y: 10000 }, 1000).unwrap();
    w.spawn(Species::Bear, Vec2i { x: 7000, y: 10000 }, 1000).unwrap();
    w.spawn(Species::Bird, Vec2i { x: 3000, y: 3000 }, 1000).unwrap();
    w.prey_flee_system();
    let d = w.creatures[0];
    assert_eq!(d.brain.state, BrainState::Flee);
    assert_eq!(d.brain.replan_cd, 300);
    assert_eq!(d.route.desired_target, Some(Vec2i { x: 16000, y: 10000 }));
    // bears do not hunt birds, so the bird stays put
    assert_eq!(w.creatures[2].brain.state, BrainState::Wander);
    // once the threat is gone the deer wanders again
    w.creatures[1].pos = Vec2i { x: 19000, y: 19000 };
    w.prey_flee_system();
    assert_eq!(w.creatures[0].brain.state, BrainState::Wander);
    assert_eq!(w.creatures[0].route.desired_target, None);
}

#[test]
fn route_hysteresis() {
    let pos = Vec2i { x: 0, y: 0 };
    let mut r = Route { current_target: None, desired_target: Some(Vec2i { x: 5000, y: 0 }) };
    route_step(&mut r, pos);
    assert_eq!(r.current_target, Some(Vec2i { x: 5000, y: 0 }));
    r.desired_target = Some(Vec2i { x: 6000, y: 0 });
    route_step(&mut r, pos);
    assert_eq!(r.current_target, Some(Vec2i { x: 5000, y: 0 }));
    r.desired_target = Some(Vec2i { x: 9000, y: 0 });
    route_step(&mut r, pos);
    assert_eq!(r.current_target, Some(Vec2i { x: 9000, y: 0 }));
    r.desired_target = Some(Vec2i { x: 9500, y: 0 });
    route_step(&mut r, Vec2i { x: 8600, y: 0 });
    assert_eq!(r.current_target, Some(Vec2i { x: 9500, y: 0 }));
}

#[test]
fn movement_blends_clamps_and_snaps() {
    let mut map = grass_map(10, 10);
    map.tiles[0] = Tile { terrain: Terrain::Water, ..empty_tile(Terrain::Water) };
    let mut c = CreatureBundle::new(0, Species::Deer, Vec2i { x: 500, y: 500 }, 2000);
    c.route.current_target = Some(Vec2i { x: 5500, y: 500 });
    move_step(&mut c, &map, 50);
    // water halves the speed to 1000; half the gap is closed in 50 ms
    assert_eq!(c.vel, Vec2i { x: 500, y: 0 });
    assert_eq!(c.pos, Vec2i { x: 525, y: 500 });
    let mut e = CreatureBundle::new(1, Species::Deer, Vec2i { x: 100, y: 500 }, 2000);
    e.vel = Vec2i { x: -5000, y: 0 };
    // no goal: half the speed is lost in 50 ms, and -2500 for 50 ms crosses the edge
    move_step(&mut e, &map, 50);
    assert_eq!(e.pos.x, 1);
    assert_eq!(e.vel.x, 0);
    let mut s = CreatureBundle::new(2, Species::Deer, Vec2i { x: 5000, y: 5000 }, 1000);
    s.route.current_target = Some(Vec2i { x: 5050, y: 5000 });
    move_step(&mut s, &map, 100);
    assert_eq!(s.pos, Vec2i { x: 5050, y: 5000 });
    assert_eq!(s.vel, Vec2i { x: 0, y: 0 });
}

#[test]
fn food_search_skips_depleted_tiles() {
    let mut map = grass_map(6, 1);
    map.tiles[1] = Tile { nuts: 3_000_000, ..tree_tile() };
    map.tiles[4] = tree_tile();
    map.tiles[5] = Tile { terrain: Terrain::Grassland, object: Some(TileObject::Bush), nuts: 0, berries: 6_000_000, nuts_max: 0, berries_max: 6_000_000 };
    let from = Vec2i { x: 500, y: 500 };
    assert_eq!(nearest_food_cell(&map, Species::Squirrel, from), Some((Point::new(4, 0), FoodKind::Nuts)));
    assert_eq!(nearest_food_cell(&map, Species::Deer, from), Some((Point::new(5, 0), FoodKind::Berries)));
    assert_eq!(nearest_food_cell(&map, Species::Fox, from), None);
}

#[test]
fn plants_regrow_toward_their_maximum() {
    let mut map = grass_map(2, 1);
    map.tiles[0] = Tile { nuts: 0, ..tree_tile() };
    map.tiles[1] = Tile { terrain: Terrain::Grassland, object: Some(TileObject::Bush), nuts: 0, berries: 5_990_000, nuts_max: 0, berries_max: 6_000_000 };
    plants_regrow(&mut map, 2000);
    assert_eq!(map.tiles[0].nuts, 60_000);
    assert_eq!(map.tiles[1].berries, 6_000_000);
}

#[test]
fn bridge_builds_tiles_and_objects() {
    let mut g: Grid<u8> = Grid::filled(3, 2, 0);
    g.set(1, 0, 1);
    g.set(2, 0, 2);
    g.set(0, 1, 3);
    g.set(1, 1, 9);
    let mut map = classes_to_tilemap(&g);
    let t: Vec<Terrain> = map.tiles.iter().map(|t| t.terrain).collect();
    assert_eq!(t, vec![Terrain::Grassland, Terrain::Forest, Terrain::Water, Terrain::Mountain, Terrain::Grassland, Terrain::Grassland]);
    let tpl = MapTemplate {
        size: (3, 2),
        player_spawns: PlayerSpawns { center_radius: 0, elevation: 0, base_radius: 1 },
        terrain: TerrainRules { areas: vec![], shrine_grass_radius: 0, clumps: default_clumps() },
        ley: LeyConfig::default(),
        blend: BlendConfig::default(),
        fractal: FractalConfig::default(),
        objects: ObjectsConfig {
            base_seed: 0,
            types: vec![
                ObjectTypeRule { name: "Pine Tree".to_string(), radius: 1, per_region: vec![] },
                ObjectTypeRule { name: "BUSH".to_string(), radius: 1, per_region: vec![] },
                ObjectTypeRule { name: "rock".to_string(), radius: 1, per_region: vec![] },
            ],
        },
    };
    let objs = vec![
        PlacedObject { pos: Point::new(0, 0), kind: 0 },
        PlacedObject { pos: Point::new(2, 1), kind: 1 },
        PlacedObject { pos: Point::new(1, 1), kind: 2 },
        PlacedObject { pos: Point::new(7, 7), kind: 0 },
    ];
    apply_objects_to_tilemap(&mut map, &tpl, &objs);
    assert_eq!(map.tiles[0].object, Some(TileObject::Tree));
    assert_eq!((map.tiles[0].nuts, map.tiles[0].nuts_max), (8_000_000, 8_000_000));
    assert_eq!(map.tiles[5].object, Some(TileObject::Bush));
    assert_eq!((map.tiles[5].berries, map.tiles[5].berries_max), (6_000_000, 6_000_000));
    assert_eq!(map.tiles[4].object, None);
    assert_eq!(map.tile_at_cell(Point::new(7, 7)), None);
    assert_eq!(map.speed_multiplier(Vec2i { x: 2500, y: 500 }), 500);
    assert_eq!(map.cell_at_world(Vec2i { x: -1, y: 1999 }), Point::new(-1, 1));
}

#[test]
fn fertile_pair_has_one_offspring() {
    let mut w = World::new(grass_map(6, 6), 11);
    let a = w.spawn(Species::Deer, Vec2i { x: 3000, y: 3000 }, 1000).unwrap();
    let b = w.spawn(Species::Deer, Vec2i { x: 3400, y: 3000 }, 3000).unwrap();
    let far = w.spawn(Species::Deer, Vec2i { x: 500, y: 500 }, 1000).unwrap();
    w.mating_system(100);
    assert_eq!(w.creatures.len(), 4);
    let child = w.creatures[3];
    assert_eq!(child.species, Species::Deer);
    assert_eq!(child.base_speed, 2000);
    assert!((child.pos.x - 3200).abs() <= 250 && (child.pos.y - 3000).abs() <= 250);
    assert!(child.id != a && child.id != b && child.id != far);
    for i in 0..2 {
        assert_eq!(w.creatures[i].needs.satiation, 0);
        assert_eq!(w.creatures[i].repro_cd, 30_000);
    }
    assert_eq!(w.creatures[2].needs.satiation, 3_000_000);
    // the parents are hungry and cooling down now: no second offspring
    w.mating_system(100);
    assert_eq!(w.creatures.len(), 4);
}

#[test]
fn different_species_do_not_mate() {
    let mut w = World::new(grass_map(6, 6), 11);
    w.spawn(Species::Deer, Vec2i { x: 3000, y: 3000 }, 1000).unwrap();
    w.spawn(Species::Bird, Vec2i { x: 3100, y: 3000 }, 1000).unwrap();
    w.creatures[1].needs.satiation = 3_000_000;
    w.mating_system(100);
    assert_eq!(w.creatures.len(), 2);
}

#[test]
fn short_ticks_lose_nothing() {
    // a 16 ms tick still drains a squirrel by 50 thousandths per second
    let mut n = default_needs(Species::Squirrel);
    drain(&mut n, 16);
    assert_eq!(n.satiation, 2_500_000 - 800);
    // and still grows nuts by 30 thousandths per second
    let mut map = grass_map(1, 1);
    map.tiles[0] = Tile { nuts: 0, ..tree_tile() };
    plants_regrow(&mut map, 16);
    assert_eq!(map.tiles[0].nuts, 480);
}

#[test]
fn one_millisecond_bite_still_feeds() {
    let mut map = grass_map(3, 3);
    map.tiles[4] = tree_tile();
    let mut c = CreatureBundle::new(0, Species::Squirrel, Vec2i { x: 1500, y: 1500 }, 0);
    c.brain.state = BrainState::Eating;
    c.brain.target_cell = Some(Point::new(1, 1));
    c.needs.satiation = 1_000_000;
    eat_step(&mut c, &mut map, 1);
    assert_eq!(c.needs.satiation, 1_000_800);
    assert_eq!(map.tiles[4].nuts, 8_000_000 - 800);
    assert_eq!(c.brain.state, BrainState::Eating);
}
