use vstd::prelude::*;

verus! {

/// Where the bases go.
#[derive(Clone, Copy, Debug, PartialEq, Eq, Structural)]
pub struct PlayerSpawns {
    /// Distance from the map center to each base center.
    pub center_radius: i32,
    /// Height written into every base disk.
    pub elevation: i32,
    /// Radius (tiles) of each base disk.
    pub base_radius: i32,
}

/// Relative weights of the four terrain classes; negative weights count as zero.
#[derive(Clone, Copy, Debug, PartialEq, Eq, Structural)]
pub struct TerrainWeights {
    pub grassland: i32,
    pub forest: i32,
    pub water: i32,
    pub mountain: i32,
}

/// What a terrain area is centred on.
#[derive(Clone, Copy, Debug, PartialEq, Eq, Structural)]
pub enum AreaSource {
    /// One disk at the map center.
    Center,
    /// One disk around every base.
    Spawn,
}

/// A painting rule: the tiles within `radius` of its source take the weighted mix.
#[derive(Clone, Copy, Debug, PartialEq, Eq, Structural)]
pub struct TerrainArea {
    pub source: AreaSource,
    pub radius: i32,
    pub weights: TerrainWeights,
    /// Pull of this area; a scale of zero or less makes it pure grass.
    pub scale: i32,
}

/// Minimum and maximum clump radius (tiles) of each non-grass class.
#[derive(Clone, Copy, Debug)]
pub struct TerrainClumps {
    pub forest_patch: (i32, i32),
    pub water_patch: (i32, i32),
    pub mountain_patch: (i32, i32),
}

#[derive(Clone, Debug)]
pub struct TerrainRules {
    pub areas: Vec<TerrainArea>,
    pub shrine_grass_radius: i32,
    pub clumps: TerrainClumps,
}

#[derive(Clone, Copy, Debug, PartialEq, Eq, Structural)]
pub struct LeyConfig {
    pub shrines_per_base: usize,
    pub shrine_ring: i32,
    /// Angular offset of the shrine ring from the base ring, in degrees.
    pub offset_deg: i32,
    pub connect_cycle: bool,
    pub connect_spokes: bool,
}

/// Box-blur relabelling: iterations, blur radius per class (grass, forest, water,
/// mountain), a bonus in thousandths for keeping the current class, and whether
/// only boundary tiles are relabelled.
#[derive(Clone, Copy, Debug)]
pub struct BlendConfig {
    pub iterations: usize,
    pub radii: (i32, i32, i32, i32),
    pub inertia_permille: i32,
    pub boundary_only: bool,
}

/// Domain-warped relabelling: the blur settings plus the warp field. The warp
/// amplitude is in tiles; frequency, gain and lacunarity are in thousandths.
#[derive(Clone, Copy, Debug)]
pub struct FractalConfig {
    pub iterations: usize,
    pub radii: (i32, i32, i32, i32),
    pub inertia_permille: i32,
    pub boundary_only: bool,
    pub warp_amp: i32,
    pub warp_freq_permille: i32,
    pub warp_octaves: u32,
    pub warp_gain_permille: i32,
    pub warp_lacunarity_permille: i32,
    pub seed: u32,
}

/// The terrain class that a density rule applies to.
#[derive(Clone, Copy, Debug, PartialEq, Eq, Structural)]
pub enum Region {
    Grassland,
    Forest,
    Water,
    Mountain,
}

/// `count` objects for every `area` allowed tiles of a region.
#[derive(Clone, Copy, Debug, PartialEq, Eq, Structural)]
pub struct RegionDensity {
    pub region: Region,
    pub count: u32,
    pub area: u32,
}

/// One kind of object: its name, its spacing radius and its densities.
#[derive(Clone, Debug)]
pub struct ObjectTypeRule {
    pub name: String,
    pub radius: i32,
    pub per_region: Vec<RegionDensity>,
}

#[derive(Clone, Debug)]
pub struct ObjectsConfig {
    pub base_seed: u32,
    pub types: Vec<ObjectTypeRule>,
}

/// The declarative parameters of one map build.
#[derive(Debug)]
pub struct MapTemplate {
    pub size: (i32, i32),
    pub player_spawns: PlayerSpawns,
    pub terrain: TerrainRules,
    pub ley: LeyConfig,
    pub blend: BlendConfig,
    pub fractal: FractalConfig,
    pub objects: ObjectsConfig,
}

pub fn default_area_scale() -> (r: i32)
    ensures
        r == 1,
{
    1
}

pub fn default_clumps() -> (r: TerrainClumps)
    ensures
        r.forest_patch == (7i32, 16i32),
        r.water_patch == (6i32, 12i32),
        r.mountain_patch == (8i32, 18i32),
{
    TerrainClumps { forest_patch: (7, 16), water_patch: (6, 12), mountain_patch: (8, 18) }
}

pub fn default_shrine_grass_radius() -> (r: i32)
    ensures
        r == 12,
{
    12
}

pub fn d_ley_shrines_per_base() -> (r: usize)
    ensures
        r == 1,
{
    1
}

pub fn d_ley_shrine_ring() -> (r: i32)
    ensures
        r == 160,
{
    160
}

pub fn d_ley_offset_deg() -> (r: i32)
    ensures
        r == 15,
{
    15
}

pub fn d_ley_connect_cycle() -> (r: bool)
    ensures
        r,
{
    true
}

pub fn d_ley_connect_spokes() -> (r: bool)
    ensures
        r,
{
    true
}

pub fn d_blend_iterations() -> (r: usize)
    ensures
        r == 3,
{
    3
}

pub fn d_blend_radii() -> (r: (i32, i32, i32, i32))
    ensures
        r == (2i32, 3i32, 2i32, 3i32),
{
    (2, 3, 2, 3)
}

pub fn d_blend_inertia() -> (r: i32)
    ensures
        r == 250,
{
    250
}

pub fn d_blend_boundary() -> (r: bool)
    ensures
        r,
{
    true
}

pub fn d_fract_iterations() -> (r: usize)
    ensures
        r == 2,
{
    2
}

pub fn d_fract_radii() -> (r: (i32, i32, i32, i32))
    ensures
        r == (2i32, 3i32, 2i32, 3i32),
{
    (2, 3, 2, 3)
}

pub fn d_fract_inertia() -> (r: i32)
    ensures
        r == 200,
{
    200
}

pub fn d_fract_boundary() -> (r: bool)
    ensures
        r,
{
    true
}

pub fn d_warp_amp() -> (r: i32)
    ensures
        r == 5,
{
    5
}

pub fn d_warp_freq() -> (r: i32)
    ensures
        r == 50,
{
    50
}

pub fn d_warp_octaves() -> (r: u32)
    ensures
        r == 3,
{
    3
}

pub fn d_warp_gain() -> (r: i32)
    ensures
        r == 550,
{
    550
}

pub fn d_warp_lacunarity() -> (r: i32)
    ensures
        r == 2200,
{
    2200
}

pub fn d_warp_seed() -> (r: u32)
    ensures
        r == 42,
{
    42
}

impl Default for LeyConfig {
    fn default() -> (r: LeyConfig)
        ensures
            r.shrines_per_base == 1,
            r.shrine_ring == 160,
            r.offset_deg == 15,
            r.connect_cycle,
            r.connect_spokes,
    {
        LeyConfig {
            shrines_per_base: d_ley_shrines_per_base(),
            shrine_ring: d_ley_shrine_ring(),
            offset_deg: d_ley_offset_deg(),
            connect_cycle: d_ley_connect_cycle(),
            connect_spokes: d_ley_connect_spokes(),
        }
    }
}

impl Default for BlendConfig {
    fn default() -> (r: BlendConfig)
        ensures
            r.iterations == 3,
            r.radii == (2i32, 3i32, 2i32, 3i32),
            r.inertia_permille == 250,
            r.boundary_only,
    {
        BlendConfig {
            iterations: d_blend_iterations(),
            radii: d_blend_radii(),
            inertia_permille: d_blend_inertia(),
            boundary_only: d_blend_boundary(),
        }
    }
}

impl Default for FractalConfig {
    fn default() -> (r: FractalConfig)
        ensures
            r.iterations == 2,
            r.radii == (2i32, 3i32, 2i32, 3i32),
            r.inertia_permille == 200,
            r.boundary_only,
            r.warp_amp == 5,
            r.warp_freq_permille == 50,
            r.warp_octaves == 3,
            r.warp_gain_permille == 550,
            r.warp_lacunarity_permille == 2200,
            r.seed == 42,
    {
        FractalConfig {
            iterations: d_fract_iterations(),
            radii: d_fract_radii(),
            inertia_permille: d_fract_inertia(),
            boundary_only: d_fract_boundary(),
            warp_amp: d_warp_amp(),
            warp_freq_permille: d_warp_freq(),
            warp_octaves: d_warp_octaves(),
            warp_gain_permille: d_warp_gain(),
            warp_lacunarity_permille: d_warp_lacunarity(),
            seed: d_warp_seed(),
        }
    }
}

} // verus!
