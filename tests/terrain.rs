use wildmap::bases::{generate_bases, ring_radius, union_of_disks};
use wildmap::blend::{blend_terrain, copy_grid, relabel_once, window_counts};
use wildmap::fractal::{blend_fractal, fbm, hash_lattice, relabel_fractal_once, value_noise, warp};
use wildmap::generate::generate_map;
use wildmap::geom::Point;
use wildmap::grid::Grid;
use wildmap::landscape::{
    class_targets, locked_mask, paint_terrain, sort_areas, OWNER_LOCKED, OWNER_NONE, TERRAIN_FOREST,
    TERRAIN_GRASSLAND, TERRAIN_MOUNTAIN, TERRAIN_WATER,
};
use wildmap::ley::{center_tile, generate_ley};
use wildmap::objects::{allowed_mask, generate_objects, type_order, Placement};
use wildmap::template::{
    default_clumps, AreaSource, BlendConfig, FractalConfig, LeyConfig, MapTemplate, ObjectTypeRule,
    ObjectsConfig, PlayerSpawns, Region, RegionDensity, TerrainArea, TerrainRules, TerrainWeights,
};

fn weights(g: i32, f: i32, w: i32, m: i32) -> TerrainWeights {
    TerrainWeights { grassland: g, forest: f, water: w, mountain: m }
}

fn template(size: i32, base_radius: i32, center_radius: i32) -> MapTemplate {
    MapTemplate {
        size: (size, size),
        player_spawns: PlayerSpawns { center_radius, elevation: 100, base_radius },
        terrain: TerrainRules {
            areas: vec![
                TerrainArea { source: AreaSource::Spawn, radius: 14, weights: weights(2, 1, 0, 0), scale: 1 },
                TerrainArea { source: AreaSource::Center, radius: 40, weights: weights(1, 2, 1, 1), scale: 1 },
                TerrainArea { source: AreaSource::Center, radius: 14, weights: weights(0, 0, 1, 0), scale: 1 },
            ],
            shrine_grass_radius: 3,
            clumps: default_clumps(),
        },
        ley: LeyConfig::default(),
        blend: BlendConfig::default(),
        fractal: FractalConfig::default(),
        objects: ObjectsConfig {
            base_seed: 9,
            types: vec![
                ObjectTypeRule {
                    name: "Tree".to_string(),
                    radius: 2,
                    per_region: vec![
                        RegionDensity { region: Region::Forest, count: 1, area: 4 },
                        RegionDensity { region: Region::Grassland, count: 1, area: 20 },
                    ],
                },
                ObjectTypeRule {
                    name: "Berry Bush".to_string(),
                    radius: 1,
                    per_region: vec![RegionDensity { region: Region::Grassland, count: 1, area: 10 }],
                },
            ],
        },
    }
}

/// The four base centers of a 64 by 64 map on a ring of radius 20, at 0, 90, 180
/// and 270 degrees.
fn ring_of_four() -> Vec<Point> {
    let mut out = Vec::new();
    for i in 0..4 {
        let a = (i as f32) * std::f32::consts::TAU / 4.0;
        let x = 32.0 + a.cos() * 20.0;
        let y = 32.0 + a.sin() * 20.0;
        out.push(Point::new(x.round() as i32, y.round() as i32));
    }
    out
}

fn shrines_of_four() -> Vec<Point> {
    vec![Point::new(46, 46), Point::new(18, 46), Point::new(18, 18), Point::new(46, 18)]
}

#[test]
fn ring_radius_is_clamped_to_the_board() {
    assert_eq!(ring_radius(&template(64, 5, 20)), 20);
    assert_eq!(ring_radius(&template(64, 5, 40)), 26);
    assert_eq!(ring_radius(&template(64, 0, 40)), 30);
    assert_eq!(ring_radius(&template(8, 5, 40)), 0);
}

#[test]
fn scenario_four_bases_on_a_64_map() {
    let tpl = template(64, 5, 20);
    let centers = ring_of_four();
    assert_eq!(centers, vec![Point::new(52, 32), Point::new(32, 52), Point::new(12, 32), Point::new(32, 12)]);
    let b = generate_bases(&tpl, centers.clone());
    assert_eq!(b.base_centers.len(), 4);
    assert_eq!(b.base_radius, 5);
    for c in &centers {
        let d = (c.x - 32) * (c.x - 32) + (c.y - 32) * (c.y - 32);
        assert_eq!(d, 400);
    }
    assert_eq!(*b.height.get(52, 32), 100);
    assert_eq!(*b.height.get(52, 37), 100);
    assert_eq!(*b.height.get(56, 35), 100);
    assert_eq!(*b.height.get(57, 35), 0);
    assert_eq!(*b.height.get(32, 32), 0);

    let a = generate_map(&tpl, centers.clone(), shrines_of_four(), 42);
    let again = generate_map(&tpl, centers.clone(), shrines_of_four(), 42);
    for c in &centers {
        for y in 0..64 {
            for x in 0..64 {
                if (x - c.x) * (x - c.x) + (y - c.y) * (y - c.y) <= 25 {
                    assert_eq!(*a.classes.get(x, y), TERRAIN_GRASSLAND);
                }
            }
        }
    }
    assert_eq!(a.classes.data, again.classes.data);
}

#[test]
fn generation_is_deterministic() {
    let tpl = template(64, 5, 20);
    let a = generate_map(&tpl, ring_of_four(), shrines_of_four(), 7);
    let b = generate_map(&tpl, ring_of_four(), shrines_of_four(), 7);
    assert_eq!(a.bases.height.data, b.bases.height.data);
    assert_eq!(a.classes.data, b.classes.data);
    assert_eq!(a.objects, b.objects);
    let c = generate_map(&tpl, ring_of_four(), shrines_of_four(), 8);
    assert_eq!(c.bases.height.data, a.bases.height.data);
}

#[test]
fn ley_cycle_and_spokes() {
    let s = vec![Point::new(10, 0), Point::new(0, 10), Point::new(-10, 0)];
    let net = generate_ley((21, 21), s.clone(), true, true);
    assert_eq!(net.lines.len(), 6);
    assert_eq!(net.lines[0], (s[0], s[1]));
    assert_eq!(net.lines[2], (s[2], s[0]));
    assert_eq!(net.lines[3], (Point::new(11, 11), s[0]));
    assert_eq!(center_tile(64, 64), Point::new(32, 32));
    let spokes = generate_ley((64, 64), s.clone(), false, true);
    assert_eq!(spokes.lines, vec![(Point::new(32, 32), s[0]), (Point::new(32, 32), s[1]), (Point::new(32, 32), s[2])]);
    let none = generate_ley((64, 64), s, false, false);
    assert!(none.lines.is_empty());
}

#[test]
fn areas_sort_by_radius_then_center_first() {
    let a = vec![
        TerrainArea { source: AreaSource::Spawn, radius: 14, weights: weights(1, 0, 0, 0), scale: 1 },
        TerrainArea { source: AreaSource::Center, radius: 40, weights: weights(1, 0, 0, 0), scale: 1 },
        TerrainArea { source: AreaSource::Center, radius: 14, weights: weights(1, 0, 0, 0), scale: 1 },
        TerrainArea { source: AreaSource::Spawn, radius: 3, weights: weights(1, 0, 0, 0), scale: 1 },
    ];
    let s = sort_areas(&a);
    assert_eq!(s, vec![a[3], a[2], a[0], a[1]]);
}

#[test]
fn class_targets_round_the_weighted_share() {
    let a = TerrainArea { source: AreaSource::Center, radius: 5, weights: weights(1, 2, 1, 0), scale: 3 };
    assert_eq!(class_targets(&a, 10), (5, 3, 0));
    let neg = TerrainArea { source: AreaSource::Center, radius: 5, weights: weights(-4, 1, 1, 2), scale: 1 };
    assert_eq!(class_targets(&neg, 9), (2, 2, 5));
    let zero = TerrainArea { source: AreaSource::Center, radius: 5, weights: weights(1, 2, 3, 4), scale: 0 };
    assert_eq!(class_targets(&zero, 100), (0, 0, 0));
    let empty = TerrainArea { source: AreaSource::Center, radius: 5, weights: weights(0, 0, 0, 0), scale: 1 };
    assert_eq!(class_targets(&empty, 100), (0, 0, 0));
}

#[test]
fn painting_gives_every_tile_one_owner() {
    let tpl = template(64, 5, 20);
    let bases = ring_of_four();
    let shrines = shrines_of_four();
    let p = paint_terrain(&tpl, &bases, &shrines, 1234);
    let lk = locked_mask(64, 64, &bases, 5, &shrines, 3);
    let covers = |a: &TerrainArea, x: i32, y: i32| -> bool {
        match a.source {
            AreaSource::Center => (x - 32) * (x - 32) + (y - 32) * (y - 32) <= a.radius * a.radius,
            AreaSource::Spawn => bases.iter().any(|c| (x - c.x) * (x - c.x) + (y - c.y) * (y - c.y) <= a.radius * a.radius),
        }
    };
    let mut seen_non_grass = false;
    for y in 0..64 {
        for x in 0..64 {
            let i = (y * 64 + x) as usize;
            let o = p.owner[i];
            let c = *p.classes.get(x, y);
            assert!(c <= 3);
            if lk[i] {
                assert_eq!(o, OWNER_LOCKED);
                assert_eq!(c, TERRAIN_GRASSLAND);
            } else if o == OWNER_NONE {
                assert!(p.areas.iter().all(|a| !covers(a, x, y)));
                assert_eq!(c, TERRAIN_GRASSLAND);
            } else {
                let k = o as usize;
                assert!(covers(&p.areas[k], x, y));
                assert!(p.areas[..k].iter().all(|a| !covers(a, x, y)));
            }
            if c != TERRAIN_GRASSLAND {
                seen_non_grass = true;
            }
        }
    }
    assert!(seen_non_grass);
}

#[test]
fn locked_mask_covers_bases_and_shrines() {
    let lk = locked_mask(10, 10, &vec![Point::new(2, 2)], 0, &vec![Point::new(7, 7)], -5);
    // base radius 0 counts as 1: a plus around (2,2); shrine radius below 0 counts as 0
    assert!(lk[2 * 10 + 2] && lk[1 * 10 + 2] && lk[2 * 10 + 3]);
    assert!(!lk[1 * 10 + 1]);
    assert!(lk[7 * 10 + 7]);
    assert!(!lk[7 * 10 + 8]);
    assert_eq!(lk.iter().filter(|&&b| b).count(), 6);
    let u = union_of_disks(10, 10, &vec![], 3);
    assert!(u.iter().all(|&b| !b));
}

#[test]
fn box_counts_are_exact() {
    let e: Vec<u8> = vec![1, 0, 1, 0, 1, 1, 0, 0, 1];
    let c = window_counts(&e, 3, 3, 1, 1);
    assert_eq!(c, vec![2, 4, 3, 2, 5, 4, 1, 3, 3]);
    let z = window_counts(&e, 3, 3, -2, 1);
    assert_eq!(z, vec![1, 0, 1, 0, 1, 1, 0, 0, 1]);
}

#[test]
fn relabel_follows_the_majority_with_inertia() {
    let mut g: Grid<u8> = Grid::filled(3, 3, TERRAIN_FOREST);
    g.set(1, 1, TERRAIN_WATER);
    let lk = vec![false; 9];
    let r = relabel_once(&g, &lk, (1, 1, 1, 1), 0, false);
    assert_eq!(*r.get(1, 1), TERRAIN_FOREST);
    // a huge inertia keeps every current class
    let keep = relabel_once(&g, &lk, (1, 1, 1, 1), 10_000, false);
    assert_eq!(keep.data, g.data);
    // locked cells become grass
    let mut lk2 = vec![false; 9];
    lk2[0] = true;
    let r2 = relabel_once(&g, &lk2, (1, 1, 1, 1), 250, true);
    assert_eq!(*r2.get(0, 0), TERRAIN_GRASSLAND);
    // with boundary_only, an interior cell of a uniform grid stays
    let m: Grid<u8> = Grid::filled(3, 3, TERRAIN_MOUNTAIN);
    let r3 = relabel_once(&m, &lk, (1, 1, 1, 1), 0, true);
    assert_eq!(r3.data, m.data);
}

#[test]
fn blending_keeps_locked_tiles_grass() {
    let tpl = template(64, 5, 20);
    let bases = ring_of_four();
    let shrines = shrines_of_four();
    let water: Grid<u8> = Grid::filled(64, 64, TERRAIN_WATER);
    let b = blend_terrain(&tpl, &bases, &shrines, &water, BlendConfig { iterations: 0, radii: (2, 3, 2, 3), inertia_permille: 250, boundary_only: false });
    let lk = locked_mask(64, 64, &bases, 5, &shrines, 3);
    for i in 0..(64 * 64) {
        assert_eq!(b.data[i], if lk[i] { TERRAIN_GRASSLAND } else { TERRAIN_WATER });
    }
    let c = copy_grid(&water);
    assert_eq!(c.data, water.data);
}

#[test]
fn objects_keep_their_spacing() {
    let tpl = template(64, 5, 20);
    let bases = ring_of_four();
    let shrines = shrines_of_four();
    let mut classes: Grid<u8> = Grid::filled(64, 64, TERRAIN_GRASSLAND);
    for y in 0..64 {
        for x in 0..32 {
            classes.set(x, y, TERRAIN_FOREST);
        }
    }
    let objs = generate_objects(&tpl, &classes, &bases, &shrines, 3);
    assert!(!objs.is_empty());
    let allowed = allowed_mask(64, 64, &bases, 5, &shrines, 3);
    for (i, a) in objs.iter().enumerate() {
        assert!(allowed[(a.pos.y * 64 + a.pos.x) as usize]);
        for b in objs.iter().skip(i + 1) {
            let ra = tpl.objects.types[a.kind as usize].radius;
            let rb = tpl.objects.types[b.kind as usize].radius;
            let g = ra.max(rb);
            let d = (a.pos.x - b.pos.x) * (a.pos.x - b.pos.x) + (a.pos.y - b.pos.y) * (a.pos.y - b.pos.y);
            assert!(d >= g * g);
        }
    }
    assert_eq!(type_order(&tpl.objects.types), vec![0, 1]);
}

#[test]
fn placement_rejects_close_objects() {
    let mut p = Placement::new(10, 10, 3);
    assert!(p.can_place(Point::new(5, 5), 3));
    p.push(Point::new(5, 5), 3, 0);
    assert!(!p.can_place(Point::new(7, 6), 1));
    assert!(p.can_place(Point::new(8, 5), 1));
    assert!(p.can_place(Point::new(0, 0), 0));
    assert_eq!(p.placed.len(), 1);
}

#[test]
fn allowed_mask_skips_zero_radius() {
    let m = allowed_mask(5, 5, &vec![Point::new(2, 2)], 0, &vec![Point::new(0, 0)], 1);
    assert!(m[2 * 5 + 2]);
    assert!(!m[0] && !m[1] && !m[5]);
    assert_eq!(m.iter().filter(|&&b| !b).count(), 3);
}

#[test]
fn lattice_hash_and_value_noise() {
    assert_eq!(hash_lattice(0, 0, 0), 0);
    assert_eq!(hash_lattice(1, 2, 42), 712924294);
    assert_eq!(hash_lattice(-1, -1, 7), 3814736227);
    // on a lattice point the noise is that point's value, mapped to [-1, 1]
    assert_eq!(value_noise(65536, 2 * 65536, 42), 2 * (712924294 >> 16) - 65536);
    assert_eq!(value_noise(0, 0, 0), -65536);
    for i in 0..50 {
        let v = value_noise(i * 12345 - 300000, i * 777, 9);
        assert!((-65536..=65536).contains(&v));
    }
    assert_eq!(fbm(65536, 2 * 65536, 42, 0, 500, 2000), 0);
    assert_eq!(fbm(65536, 2 * 65536, 42, 1, 500, 2000), 2 * (712924294 >> 16) - 65536);
    let f = fbm(123456, 654321, 3, 16, 1000, 4000);
    assert!((-65536..=65536).contains(&f));
}

#[test]
fn warped_blend_keeps_locked_tiles_grass() {
    let tpl = template(64, 5, 20);
    let bases = ring_of_four();
    let shrines = shrines_of_four();
    let mut g: Grid<u8> = Grid::filled(64, 64, TERRAIN_WATER);
    for y in 0..64 {
        for x in 0..20 {
            g.set(x, y, TERRAIN_MOUNTAIN);
        }
    }
    let f = FractalConfig { boundary_only: false, ..FractalConfig::default() };
    let r = blend_fractal(&tpl, &bases, &shrines, &g, f);
    let lk = locked_mask(64, 64, &bases, 5, &shrines, 3);
    for i in 0..(64 * 64) {
        assert!(r.data[i] <= 3);
        if lk[i] {
            assert_eq!(r.data[i], TERRAIN_GRASSLAND);
        }
    }
    // far from the boundary, cells keep their class
    assert_eq!(*r.get(50, 2), TERRAIN_WATER);
    assert_eq!(*r.get(2, 60), TERRAIN_MOUNTAIN);
    // without displacement, a uniform grid stays uniform
    let still = FractalConfig { warp_amp: 0, boundary_only: false, ..FractalConfig::default() };
    let u: Grid<u8> = Grid::filled(8, 8, TERRAIN_FOREST);
    let same = relabel_fractal_once(&u, &vec![false; 64], &still);
    assert_eq!(same.data, u.data);
    assert_eq!(warp(&still, 3, 4), (0, 0));
    let d = warp(&FractalConfig::default(), 10, 10);
    assert!(d.0.abs() <= 5 * 65536 && d.1.abs() <= 5 * 65536);
}

#[test]
fn forest_heavy_area_grows_forest() {
    let mut tpl = template(40, 2, 14);
    tpl.terrain.areas = vec![TerrainArea { source: AreaSource::Center, radius: 8, weights: weights(1, 3, 0, 0), scale: 1 }];
    let bases = vec![Point::new(34, 20), Point::new(6, 20)];
    let shrines = vec![Point::new(20, 2)];
    let p = paint_terrain(&tpl, &bases, &shrines, 99);
    let owned_forest = (0..(40 * 40) as usize).any(|i| p.owner[i] == 0 && p.classes.data[i] == TERRAIN_FOREST);
    assert!(owned_forest);
}

#[test]
fn water_only_area_grows_water() {
    let mut tpl = template(40, 2, 14);
    tpl.terrain.areas = vec![TerrainArea { source: AreaSource::Center, radius: 8, weights: weights(1, 0, 2, 0), scale: 1 }];
    let bases = vec![Point::new(34, 20), Point::new(6, 20)];
    let shrines = vec![Point::new(20, 2)];
    let p = paint_terrain(&tpl, &bases, &shrines, 5);
    assert!((0..(40 * 40) as usize).any(|i| p.owner[i] == 0 && p.classes.data[i] == TERRAIN_WATER));
    // no tile takes a class its area gives no weight
    assert!((0..(40 * 40) as usize).all(|i| p.classes.data[i] != TERRAIN_FOREST && p.classes.data[i] != TERRAIN_MOUNTAIN));
}
