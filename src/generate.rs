use vstd::prelude::*;
use crate::geom::Point;
use crate::grid::{Grid, board_ok, on_board};
use crate::bases::{BaseLocations, generate_bases};
use crate::ley::{LeyNetwork, generate_ley};
use crate::landscape::{generate_phase3_terrain_clumps, is_locked, painting_ok, TERRAIN_GRASSLAND};
use crate::blend::{blend_terrain, blend_iter, effective, locked_cells};
use crate::fractal::{blend_fractal, fractal_ok, fractal_iter};
use crate::template::TerrainArea;
use crate::objects::{PlacedObject, generate_objects, placed_ok, all_spaced, radii_ok, rule_active};
use crate::rng::RngSeq;
use crate::template::MapTemplate;

verus! {

/// Everything one map build produces.
#[derive(Debug)]
pub struct GeneratedMap {
    pub bases: BaseLocations,
    pub ley: LeyNetwork,
    pub classes: Grid<u8>,
    pub objects: Vec<PlacedObject>,
}

/// Builds a map from a template, the base centers and shrine positions on their
/// rings, and a seed: bases, ley lines, terrain painting, both blending stages,
/// objects.
/// Every tile of a locked zone ends as grass, and the objects are spaced and
/// outside the exclusion disks.
pub fn generate_map(tpl: &MapTemplate, base_centers: Vec<Point>, shrines: Vec<Point>, seed: u64) -> (r: GeneratedMap)
    requires
        base_centers@.len() >= 1,
        shrines@.len() >= 1,
        board_ok(tpl.size.0 as int, tpl.size.1 as int),
        tpl.terrain.areas@.len() <= i32::MAX,
        radii_ok(tpl.objects.types@),
        tpl.objects.types@.len() <= 0x1_0000,
        fractal_ok(tpl.fractal, tpl.size.0 as int, tpl.size.1 as int),
    ensures
        r.bases.base_centers@ == base_centers@,
        r.ley.shrines@ == shrines@,
        r.classes.wf(),
        r.classes.w == tpl.size.0,
        r.classes.h == tpl.size.1,
        forall|x: int, y: int| on_board(tpl.size.0 as int, tpl.size.1 as int, x, y)
            && is_locked(base_centers@, tpl.player_spawns.base_radius as int, shrines@, tpl.terrain.shrine_grass_radius as int, x, y)
            ==> #[trigger] r.classes.at(x, y) == TERRAIN_GRASSLAND,
        placed_ok(r.objects@, tpl.objects.types@, r.classes, base_centers@, tpl.player_spawns.base_radius as int, shrines@, tpl.terrain.shrine_grass_radius as int),
        all_spaced(r.objects@, tpl.objects.types@),
        ({
            let w = tpl.size.0 as int;
            let h = tpl.size.1 as int;
            let br = tpl.player_spawns.base_radius as int;
            let sr = tpl.terrain.shrine_grass_radius as int;
            let lk = locked_cells(base_centers@, br, shrines@, sr, w, h);
            exists|cl3: Seq<u8>, ow: Seq<i32>, ar: Seq<TerrainArea>|
                #[trigger] painting_ok(cl3, ow, ar, tpl.terrain.areas@, base_centers@, br, shrines@, sr, w, h)
                && r.classes.cells() == effective(
                    fractal_iter(
                        effective(blend_iter(cl3, lk, w, h, tpl.blend.radii, tpl.blend.inertia_permille as int, tpl.blend.boundary_only, tpl.blend.iterations as nat), lk),
                        lk, w, h, tpl.fractal, tpl.fractal.iterations as nat,
                    ),
                    lk,
                )
        }),
        (exists|t: int, k: int| rule_active(tpl.objects.types@, t, k, r.classes, base_centers@, tpl.player_spawns.base_radius as int, shrines@, tpl.terrain.shrine_grass_radius as int))
            ==> r.objects@.len() > 0,
{
    let seq = RngSeq::new(seed);
    let bases = generate_bases(tpl, base_centers);
    let ley = generate_ley(tpl.size, shrines, tpl.ley.connect_cycle, tpl.ley.connect_spokes);
    let painted = generate_phase3_terrain_clumps(tpl, &bases.base_centers, &ley.shrines, seq.phase_seed(3) as u32);
    let smooth = blend_terrain(tpl, &bases.base_centers, &ley.shrines, &painted, tpl.blend);
    let classes = blend_fractal(tpl, &bases.base_centers, &ley.shrines, &smooth, tpl.fractal);
    proof {
        let br = tpl.player_spawns.base_radius as int;
        let sr = tpl.terrain.shrine_grass_radius as int;
        let w = tpl.size.0 as int;
        let h = tpl.size.1 as int;
        let (ow, ar) = choose|ow: Seq<i32>, ar: Seq<TerrainArea>| #[trigger] painting_ok(painted.cells(), ow, ar, tpl.terrain.areas@, base_centers@, br, shrines@, sr, w, h);
        assert(painting_ok(painted.cells(), ow, ar, tpl.terrain.areas@, base_centers@, br, shrines@, sr, w, h));
    }
    let objects = generate_objects(tpl, &classes, &bases.base_centers, &ley.shrines, seq.phase_seed(5) as u32);
    GeneratedMap { bases, ley, classes, objects }
}

} // verus!
