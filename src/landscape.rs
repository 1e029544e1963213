use vstd::prelude::*;
use crate::geom::{Point, in_disk};
use crate::grid::{
    Grid, board_ok, on_board, cell_index, lemma_index_bounds, lemma_index_injective,
    lemma_index_inverse,
};
use crate::masks::{flag, mask_ok, circle_mask};
use crate::bases::{in_any_disk, disk_radius, disk_radius_of, union_of_disks};
use crate::rng::Rng64;
use crate::template::{AreaSource, MapTemplate, TerrainArea, TerrainWeights};

verus! {

pub const TERRAIN_GRASSLAND: u8 = 0;
pub const TERRAIN_FOREST: u8 = 1;
pub const TERRAIN_WATER: u8 = 2;
pub const TERRAIN_MOUNTAIN: u8 = 3;

/// Owner of a tile that lies in a locked grass zone.
pub const OWNER_LOCKED: i32 = -1;
/// Owner of a tile that no area has painted.
pub const OWNER_NONE: i32 = -2;

/// The hard grass zones: base disks (radius at least 1) and shrine disks
/// (radius at least 0).
pub open spec fn is_locked(bases: Seq<Point>, base_radius: int, shrines: Seq<Point>, shrine_radius: int, x: int, y: int) -> bool {
    in_any_disk(bases, disk_radius_of(base_radius), x, y)
        || in_any_disk(shrines, if shrine_radius < 0 { 0 } else { shrine_radius }, x, y)
}

/// The tile `(x, y)` lies in area `a`: within its radius of the map center, or of
/// any base.
pub open spec fn covers(a: TerrainArea, bases: Seq<Point>, w: int, h: int, x: int, y: int) -> bool {
    match a.source {
        AreaSource::Center => in_disk(Point { x: (w / 2) as i32, y: (h / 2) as i32 }, a.radius as int, x, y),
        AreaSource::Spawn => in_any_disk(bases, a.radius as int, x, y),
    }
}

/// Area `j` is the first area of `areas` that covers `(x, y)`.
pub open spec fn first_cover(areas: Seq<TerrainArea>, bases: Seq<Point>, w: int, h: int, j: int, x: int, y: int) -> bool {
    0 <= j < areas.len() && covers(areas[j], bases, w, h, x, y)
        && forall|i: int| 0 <= i < j ==> !covers(#[trigger] areas[i], bases, w, h, x, y)
}

/// Sort key: smaller radius first, a center area before a spawn area of equal radius.
pub open spec fn area_key(a: TerrainArea) -> int {
    2 * a.radius + match a.source {
        AreaSource::Center => 0int,
        AreaSource::Spawn => 1int,
    }
}

pub open spec fn sorted_by_key(s: Seq<TerrainArea>) -> bool {
    forall|i: int, j: int| 0 <= i < j < s.len() ==> area_key(#[trigger] s[i]) <= area_key(#[trigger] s[j])
}

/// One tile of a painting in progress, after the areas before `k` were painted
/// (and some tiles of area `k`): who decided the tile and what it holds.
pub open spec fn cell_ok(
    cl: Seq<u8>,
    pa: Seq<bool>,
    ow: Seq<i32>,
    lk: Seq<bool>,
    areas: Seq<TerrainArea>,
    bases: Seq<Point>,
    w: int,
    h: int,
    k: int,
    x: int,
    y: int,
) -> bool {
    let i = cell_index(w, x, y);
    &&& (ow[i] == OWNER_LOCKED) == lk[i]
    &&& ow[i] >= OWNER_NONE
    &&& ow[i] >= 0 ==> ow[i] <= k && !lk[i] && first_cover(areas, bases, w, h, ow[i] as int, x, y)
    &&& ow[i] == OWNER_NONE ==> forall|j: int| 0 <= j < k ==> !covers(#[trigger] areas[j], bases, w, h, x, y)
    &&& pa[i] == (ow[i] != OWNER_NONE)
    &&& cl[i] <= 3
    &&& cl[i] != TERRAIN_GRASSLAND ==> ow[i] >= 0 && mix_weight(areas[ow[i] as int], cl[i] as int) > 0
}

pub open spec fn state_ok(
    cl: Seq<u8>,
    pa: Seq<bool>,
    ow: Seq<i32>,
    lk: Seq<bool>,
    areas: Seq<TerrainArea>,
    bases: Seq<Point>,
    w: int,
    h: int,
    k: int,
) -> bool {
    &&& board_ok(w, h)
    &&& cl.len() == w * h
    &&& pa.len() == w * h
    &&& ow.len() == w * h
    &&& lk.len() == w * h
    &&& forall|x: int, y: int| on_board(w, h, x, y) ==> #[trigger] cell_ok(cl, pa, ow, lk, areas, bases, w, h, k, x, y)
}

/// Painting one unpainted tile of area `k`, which no earlier area covers, keeps
/// every tile in order.
proof fn lemma_paint_cell(
    cl: Seq<u8>,
    pa: Seq<bool>,
    ow: Seq<i32>,
    lk: Seq<bool>,
    areas: Seq<TerrainArea>,
    bases: Seq<Point>,
    w: int,
    h: int,
    k: int,
    x: int,
    y: int,
    id: u8,
)
    requires
        state_ok(cl, pa, ow, lk, areas, bases, w, h, k),
        on_board(w, h, x, y),
        0 <= k < areas.len(),
        areas.len() <= i32::MAX,
        covers(areas[k], bases, w, h, x, y),
        !pa[cell_index(w, x, y)],
        id <= 3,
        id == TERRAIN_GRASSLAND || mix_weight(areas[k], id as int) > 0,
    ensures
        state_ok(
            cl.update(cell_index(w, x, y), id),
            pa.update(cell_index(w, x, y), true),
            ow.update(cell_index(w, x, y), k as i32),
            lk,
            areas,
            bases,
            w,
            h,
            k,
        ),
{
    let i = cell_index(w, x, y);
    lemma_index_bounds(w, h, x, y);
    let cl2 = cl.update(i, id);
    let pa2 = pa.update(i, true);
    let ow2 = ow.update(i, k as i32);
    assert(cell_ok(cl, pa, ow, lk, areas, bases, w, h, k, x, y));
    assert(ow2[i] == k);
    assert forall|x2: int, y2: int| on_board(w, h, x2, y2) implies #[trigger] cell_ok(cl2, pa2, ow2, lk, areas, bases, w, h, k, x2, y2) by {
        lemma_index_bounds(w, h, x2, y2);
        assert(cell_ok(cl, pa, ow, lk, areas, bases, w, h, k, x2, y2));
        if cell_index(w, x2, y2) == i {
            lemma_index_injective(w, h, x2, y2, x, y);
        }
    }
}

/// The tiles of the hard grass zones around bases and shrines.
pub fn locked_mask(w: i32, h: i32, bases: &Vec<Point>, base_radius: i32, shrines: &Vec<Point>, shrine_radius: i32) -> (m: Vec<bool>)
    requires
        board_ok(w as int, h as int),
    ensures
        mask_ok(m@, w as int, h as int),
        forall|x: int, y: int| on_board(w as int, h as int, x, y) ==> #[trigger] flag(m@, w as int, x, y)
            == is_locked(bases@, base_radius as int, shrines@, shrine_radius as int, x, y),
{
    let br = disk_radius(base_radius);
    let sr = if shrine_radius < 0 { 0 } else { shrine_radius };
    let a = union_of_disks(w, h, bases, br);
    let b = union_of_disks(w, h, shrines, sr);
    let n = a.len();
    let mut m: Vec<bool> = Vec::with_capacity(n);
    let mut i: usize = 0;
    while i < n
        invariant
            n == a@.len(),
            a@.len() == b@.len(),
            i <= n,
            m@.len() == i,
            forall|j: int| 0 <= j < i ==> m@[j] == (a@[j] || b@[j]),
        decreases n - i,
    {
        m.push(a[i] || b[i]);
        i = i + 1;
    }
    assert forall|x: int, y: int| on_board(w as int, h as int, x, y) implies #[trigger] flag(m@, w as int, x, y)
        == is_locked(bases@, base_radius as int, shrines@, shrine_radius as int, x, y) by {
        lemma_index_bounds(w as int, h as int, x, y);
        assert(flag(a@, w as int, x, y) == in_any_disk(bases@, br as int, x, y));
        assert(flag(b@, w as int, x, y) == in_any_disk(shrines@, sr as int, x, y));
    }
    m
}

fn area_sort_key(a: &TerrainArea) -> (r: i64)
    ensures
        r == area_key(*a),
{
    a.radius as i64 * 2 + match a.source {
        AreaSource::Center => 0i64,
        AreaSource::Spawn => 1i64,
    }
}

/// The areas ordered by `area_key`, a permutation of the given ones.
pub fn sort_areas(areas: &Vec<TerrainArea>) -> (r: Vec<TerrainArea>)
    ensures
        r@.to_multiset() == areas@.to_multiset(),
        r@.len() == areas@.len(),
        sorted_by_key(r@),
{
    let mut out: Vec<TerrainArea> = Vec::new();
    let mut i: usize = 0;
    assert(out@ =~= areas@.take(0));
    while i < areas.len()
        invariant
            i <= areas@.len(),
            out@.len() == i,
            out@.to_multiset() == areas@.take(i as int).to_multiset(),
            sorted_by_key(out@),
        decreases areas@.len() - i,
    {
        let a = areas[i];
        let key = area_sort_key(&a);
        let mut p: usize = 0;
        while p < out.len() && area_sort_key(&out[p]) <= key
            invariant
                p <= out@.len(),
                sorted_by_key(out@),
                key == area_key(a),
                forall|q: int| 0 <= q < p ==> area_key(#[trigger] out@[q]) <= key,
            decreases out@.len() - p,
        {
            p = p + 1;
        }
        proof {
            if p < out@.len() {
                assert forall|q: int| p <= q < out@.len() implies area_key(#[trigger] out@[q]) > key by {
                    if q > p {
                        assert(area_key(out@[p as int]) <= area_key(out@[q]));
                    }
                }
            }
        }
        let ghost before = out@;
        out.insert(p, a);
        proof {
            assert(areas@.take(i + 1) == areas@.take(i as int).push(a));
            vstd::seq_lib::to_multiset_build(areas@.take(i as int), a);
            vstd::seq_lib::to_multiset_insert(before, p as int, a);
            assert forall|q1: int, q2: int| 0 <= q1 < q2 < out@.len() implies area_key(#[trigger] out@[q1]) <= area_key(#[trigger] out@[q2]) by {
                if q2 < p {
                } else if q2 == p {
                } else if q1 < p {
                    assert(out@[q2] == before[q2 - 1]);
                } else if q1 == p {
                    assert(out@[q2] == before[q2 - 1]);
                } else {
                    assert(out@[q2] == before[q2 - 1]);
                    assert(out@[q1] == before[q1 - 1]);
                }
            }
        }
        i = i + 1;
    }
    assert(areas@.take(areas@.len() as int) == areas@);
    out
}


/// A weight taken as zero when negative.
pub open spec fn nonneg(v: int) -> int {
    if v < 0 { 0 } else { v }
}

/// The weight of class `k` (0 grass, 1 forest, 2 water, 3 mountain), times the
/// area's scale.
pub open spec fn mix_weight(a: TerrainArea, k: int) -> int {
    nonneg(a.scale as int) * nonneg(
        if k == 0 {
            a.weights.grassland as int
        } else if k == 1 {
            a.weights.forest as int
        } else if k == 2 {
            a.weights.water as int
        } else {
            a.weights.mountain as int
        },
    )
}

pub open spec fn mix_total(a: TerrainArea) -> int {
    mix_weight(a, 0) + mix_weight(a, 1) + mix_weight(a, 2) + mix_weight(a, 3)
}

/// The number of tiles that class `k` should take out of `n` free tiles of area
/// `a`: its share of the weights times `n`, rounded half up; none when every
/// weight is zero (the area is then pure grass).
pub open spec fn target_of(a: TerrainArea, k: int, n: int) -> int {
    if mix_total(a) > 0 {
        (2 * mix_weight(a, k) * n + mix_total(a)) / (2 * mix_total(a))
    } else {
        0
    }
}

fn weight_of(v: i32, scale: i32) -> (r: i128)
    ensures
        r == nonneg(scale as int) * nonneg(v as int),
        0 <= r <= 0x4000_0000_0000_0000,
{
    let a: i128 = if v < 0 { 0 } else { v as i128 };
    let b: i128 = if scale < 0 { 0 } else { scale as i128 };
    assert(0 <= b * a <= 0x4000_0000_0000_0000) by (nonlinear_arith)
        requires 0 <= a <= 0x8000_0000, 0 <= b <= 0x8000_0000;
    b * a
}

proof fn lemma_mix_bounds(a: TerrainArea)
    ensures
        forall|k: int| 0 <= #[trigger] mix_weight(a, k) <= 0x4000_0000_0000_0000,
        0 <= mix_total(a) <= 0x1_0000_0000_0000_0000,
{
    assert forall|k: int| 0 <= #[trigger] mix_weight(a, k) <= 0x4000_0000_0000_0000 by {
        let s = nonneg(a.scale as int);
        let v = nonneg(
            if k == 0 {
                a.weights.grassland as int
            } else if k == 1 {
                a.weights.forest as int
            } else if k == 2 {
                a.weights.water as int
            } else {
                a.weights.mountain as int
            },
        );
        assert(0 <= s * v <= 0x4000_0000_0000_0000) by (nonlinear_arith)
            requires 0 <= s <= 0x8000_0000, 0 <= v <= 0x8000_0000;
    }
    assert(0 <= mix_weight(a, 0) <= 0x4000_0000_0000_0000);
    assert(0 <= mix_weight(a, 1) <= 0x4000_0000_0000_0000);
    assert(0 <= mix_weight(a, 2) <= 0x4000_0000_0000_0000);
    assert(0 <= mix_weight(a, 3) <= 0x4000_0000_0000_0000);
}

/// A class with no weight is owed no tiles.
proof fn lemma_target_needs_weight(a: TerrainArea, k: int, n: int)
    requires
        0 <= n,
        target_of(a, k, n) > 0,
    ensures
        mix_weight(a, k) > 0,
{
    lemma_mix_bounds(a);
    if mix_weight(a, k) == 0 && mix_total(a) > 0 {
        let t = mix_total(a);
        assert((2 * mix_weight(a, k) * n + t) / (2 * t) == 0) by (nonlinear_arith)
            requires mix_weight(a, k) == 0, t > 0;
    }
}

/// Forest, water and mountain targets for `n` free tiles of area `a`.
pub fn class_targets(a: &TerrainArea, n: usize) -> (r: (i128, i128, i128))
    requires
        n <= i32::MAX,
    ensures
        r.0 == target_of(*a, 1, n as int),
        r.1 == target_of(*a, 2, n as int),
        r.2 == target_of(*a, 3, n as int),
{
    let w0 = weight_of(a.weights.grassland, a.scale);
    let w1 = weight_of(a.weights.forest, a.scale);
    let w2 = weight_of(a.weights.water, a.scale);
    let w3 = weight_of(a.weights.mountain, a.scale);
    let total = w0 + w1 + w2 + w3;
    if total <= 0 {
        return (0, 0, 0);
    }
    let nn = n as i128;
    assert(0 <= 2 * w1 * nn <= 0x1_0000_0000_0000_0000_0000_0000) by (nonlinear_arith)
        requires 0 <= w1 <= 0x4000_0000_0000_0000, 0 <= nn <= 0x8000_0000;
    assert(0 <= 2 * w2 * nn <= 0x1_0000_0000_0000_0000_0000_0000) by (nonlinear_arith)
        requires 0 <= w2 <= 0x4000_0000_0000_0000, 0 <= nn <= 0x8000_0000;
    assert(0 <= 2 * w3 * nn <= 0x1_0000_0000_0000_0000_0000_0000) by (nonlinear_arith)
        requires 0 <= w3 <= 0x4000_0000_0000_0000, 0 <= nn <= 0x8000_0000;
    let t1 = (2 * w1 * nn + total) / (2 * total);
    let t2 = (2 * w2 * nn + total) / (2 * total);
    let t3 = (2 * w3 * nn + total) / (2 * total);
    (t1, t2, t3)
}

/// The offset `(dx, dy)` lies in the ellipse `(dx / (r ax))^2 + (dy / (r ay))^2 <= 1`,
/// with the stretches `ax` and `ay` in thousandths.
fn blob_contains(dx: i64, dy: i64, r: i64, ax: i64, ay: i64) -> (b: bool)
    requires
        0 <= r <= 0x8000_0000,
        -r <= dx <= r,
        -r <= dy <= r,
        0 <= ax <= 2000,
        0 <= ay <= 2000,
    ensures
        b == ((1000 * dx * ay) * (1000 * dx * ay) + (1000 * dy * ax) * (1000 * dy * ax) <= (r * ax * ay) * (r * ax * ay)),
{
    let dx = dx as i128;
    let dy = dy as i128;
    let r = r as i128;
    let ax = ax as i128;
    let ay = ay as i128;
    assert(-0x100_0000_0000_0000 <= 1000 * dx * ay <= 0x100_0000_0000_0000) by (nonlinear_arith)
        requires -0x8000_0000 <= dx <= 0x8000_0000, 0 <= ay <= 2000;
    assert(-0x100_0000_0000_0000 <= 1000 * dy * ax <= 0x100_0000_0000_0000) by (nonlinear_arith)
        requires -0x8000_0000 <= dy <= 0x8000_0000, 0 <= ax <= 2000;
    assert(0 <= r * ax * ay <= 0x100_0000_0000_0000) by (nonlinear_arith)
        requires 0 <= r <= 0x8000_0000, 0 <= ax <= 2000, 0 <= ay <= 2000;
    assert(0 <= r * ax <= 0x1000_0000_0000) by (nonlinear_arith)
        requires 0 <= r <= 0x8000_0000, 0 <= ax <= 2000;
    let u = 1000 * dx * ay;
    let v = 1000 * dy * ax;
    let q = r * ax * ay;
    assert(0 <= u * u <= 0x1_0000_0000_0000_0000_0000_0000_0000) by (nonlinear_arith)
        requires -0x100_0000_0000_0000 <= u <= 0x100_0000_0000_0000;
    assert(0 <= v * v <= 0x1_0000_0000_0000_0000_0000_0000_0000) by (nonlinear_arith)
        requires -0x100_0000_0000_0000 <= v <= 0x100_0000_0000_0000;
    assert(0 <= q * q <= 0x1_0000_0000_0000_0000_0000_0000_0000) by (nonlinear_arith)
        requires 0 <= q <= 0x100_0000_0000_0000;
    u * u + v * v <= q * q
}

/// The largest radius, at most `r` and at least 0, that keeps a square around
/// `c` on the board.
pub open spec fn clamp_radius_of(w: int, h: int, c: Point, r: int) -> int {
    let m1 = if r < c.x { r } else { c.x as int };
    let m2 = if m1 < w - 1 - c.x { m1 } else { w - 1 - c.x };
    let m3 = if m2 < c.y { m2 } else { c.y as int };
    let m4 = if m3 < h - 1 - c.y { m3 } else { h - 1 - c.y };
    if m4 < 0 { 0 } else { m4 }
}

pub fn clamp_radius_to_bounds(w: i32, h: i32, c: Point, r: i32) -> (out: i32)
    requires
        on_board(w as int, h as int, c.x as int, c.y as int),
    ensures
        out == clamp_radius_of(w as int, h as int, c, r as int),
        0 <= out,
        out <= c.x,
        out <= c.y,
        c.x + out < w,
        c.y + out < h,
{
    let m1 = if r < c.x { r } else { c.x };
    let m2 = if m1 < w - 1 - c.x { m1 } else { w - 1 - c.x };
    let m3 = if m2 < c.y { m2 } else { c.y };
    let m4 = if m3 < h - 1 - c.y { m3 } else { h - 1 - c.y };
    if m4 < 0 { 0 } else { m4 }
}

/// Stamps one blob of class `id` around `center`: a random radius in
/// `rmin ..= rmax` (at least 1, cut to the board), each axis stretched by a random
/// factor in `[0.85, 1.15]`. Only unpainted tiles of area `k` are painted; returns
/// how many were.
#[verifier::rlimit(40)]
fn stamp_blob(
    classes: &mut Grid<u8>,
    painted: &mut Vec<bool>,
    owner: &mut Vec<i32>,
    amask: &Vec<bool>,
    center: Point,
    rmin: i32,
    rmax: i32,
    id: u8,
    k: usize,
    rng: &mut Rng64,
    Ghost(lk): Ghost<Seq<bool>>,
    Ghost(areas): Ghost<Seq<TerrainArea>>,
    Ghost(bases): Ghost<Seq<Point>>,
) -> (placed: i128)
    requires
        old(classes).wf(),
        state_ok(old(classes).data@, old(painted)@, old(owner)@, lk, areas, bases, old(classes).w as int, old(classes).h as int, k as int),
        mask_ok(amask@, old(classes).w as int, old(classes).h as int),
        forall|x: int, y: int| on_board(old(classes).w as int, old(classes).h as int, x, y) ==> #[trigger] flag(amask@, old(classes).w as int, x, y)
            == covers(areas[k as int], bases, old(classes).w as int, old(classes).h as int, x, y),
        on_board(old(classes).w as int, old(classes).h as int, center.x as int, center.y as int),
        id <= 3,
        id == TERRAIN_GRASSLAND || mix_weight(areas[k as int], id as int) > 0,
        k < areas.len(),
        areas.len() <= i32::MAX,
    ensures
        final(classes).wf(),
        final(classes).w == old(classes).w,
        final(classes).h == old(classes).h,
        state_ok(final(classes).data@, final(painted)@, final(owner)@, lk, areas, bases, final(classes).w as int, final(classes).h as int, k as int),
        0 <= placed <= 0x4_0000_0000_0000_0000,
        forall|i: int| 0 <= i < old(painted)@.len() && #[trigger] old(painted)@[i]
            ==> final(classes).data@[i] == old(classes).data@[i] && final(owner)@[i] == old(owner)@[i] && final(painted)@[i],
        ({
            let c = cell_index(old(classes).w as int, center.x as int, center.y as int);
            amask@[c] && !old(painted)@[c] ==> final(classes).data@[c] == id && final(owner)@[c] == k && final(painted)@[c]
        }),
{
    let w = classes.w;
    let h = classes.h;
    let r0 = rng.range_i32(rmin, rmax);
    let r1 = if r0 < 1 { 1 } else { r0 };
    let r = clamp_radius_to_bounds(w, h, center, r1);
    let ax = 850 + rng.permille() * 300 / 1000;
    let ay = 850 + rng.permille() * 300 / 1000;
    let mut placed: i128 = 0;
    let ghost cl0 = classes.data@;
    let ghost pa0 = painted@;
    let ghost ow0 = owner@;
    let ghost ci = cell_index(w as int, center.x as int, center.y as int);
    proof { lemma_index_bounds(w as int, h as int, center.x as int, center.y as int); }
    let mut y: i32 = center.y - r;
    while y <= center.y + r
        invariant
            classes.wf(),
            classes.w == w,
            classes.h == h,
            state_ok(classes.data@, painted@, owner@, lk, areas, bases, w as int, h as int, k as int),
            mask_ok(amask@, w as int, h as int),
            forall|x: int, y: int| on_board(w as int, h as int, x, y) ==> #[trigger] flag(amask@, w as int, x, y)
                == covers(areas[k as int], bases, w as int, h as int, x, y),
            0 <= r,
            r <= center.x,
            r <= center.y,
            center.x + r < w,
            center.y + r < h,
            center.y - r <= y <= center.y + r + 1,
            850 <= ax <= 1150,
            850 <= ay <= 1150,
            id <= 3,
            id == TERRAIN_GRASSLAND || mix_weight(areas[k as int], id as int) > 0,
            k < areas.len(),
            areas.len() <= i32::MAX,
            0 <= placed <= (y - (center.y - r)) * 0x1_0000_0000,
            forall|i: int| 0 <= i < pa0.len() && #[trigger] pa0[i] ==> classes.data@[i] == cl0[i] && owner@[i] == ow0[i] && painted@[i],
            pa0.len() == w * h,
            ci == cell_index(w as int, center.x as int, center.y as int),
            0 <= ci < w * h,
            amask@[ci] && !pa0[ci] && y > center.y ==> classes.data@[ci] == id && owner@[ci] == k && painted@[ci],
            amask@[ci] && !pa0[ci] && y <= center.y ==> !painted@[ci],
        decreases center.y + r + 1 - y,
    {
        let mut x: i32 = center.x - r;
        while x <= center.x + r
            invariant
                classes.wf(),
                classes.w == w,
                classes.h == h,
                state_ok(classes.data@, painted@, owner@, lk, areas, bases, w as int, h as int, k as int),
                mask_ok(amask@, w as int, h as int),
                forall|x: int, y: int| on_board(w as int, h as int, x, y) ==> #[trigger] flag(amask@, w as int, x, y)
                    == covers(areas[k as int], bases, w as int, h as int, x, y),
                0 <= r,
                r <= center.x,
                r <= center.y,
                center.x + r < w,
                center.y + r < h,
                center.y - r <= y <= center.y + r,
                center.x - r <= x <= center.x + r + 1,
                850 <= ax <= 1150,
                850 <= ay <= 1150,
                id <= 3,
                id == TERRAIN_GRASSLAND || mix_weight(areas[k as int], id as int) > 0,
                k < areas.len(),
                areas.len() <= i32::MAX,
                0 <= placed <= (y - (center.y - r)) * 0x1_0000_0000 + (x - (center.x - r)),
                forall|i: int| 0 <= i < pa0.len() && #[trigger] pa0[i] ==> classes.data@[i] == cl0[i] && owner@[i] == ow0[i] && painted@[i],
                pa0.len() == w * h,
                ci == cell_index(w as int, center.x as int, center.y as int),
                0 <= ci < w * h,
                amask@[ci] && !pa0[ci] && (y > center.y || (y == center.y && x > center.x)) ==> classes.data@[ci] == id && owner@[ci] == k && painted@[ci],
                amask@[ci] && !pa0[ci] && (y < center.y || (y == center.y && x <= center.x)) ==> !painted@[ci],
            decreases center.x + r + 1 - x,
        {
            proof {
                lemma_index_bounds(w as int, h as int, x as int, y as int);
                if !(x == center.x && y == center.y) && cell_index(w as int, x as int, y as int) == ci {
                    lemma_index_injective(w as int, h as int, x as int, y as int, center.x as int, center.y as int);
                }
            }
            // the center itself always lies in its blob
            let inside = (x == center.x && y == center.y)
                || blob_contains((x - center.x) as i64, (y - center.y) as i64, r as i64, ax as i64, ay as i64);
            if inside {
                proof {
                    lemma_index_bounds(w as int, h as int, x as int, y as int);
                }
                let i = (y * w + x) as usize;
                if amask[i] && !painted[i] {
                    proof {
                        assert(flag(amask@, w as int, x as int, y as int));
                        lemma_paint_cell(classes.data@, painted@, owner@, lk, areas, bases, w as int, h as int, k as int, x as int, y as int, id);
                    }
                    let ghost cl1 = classes.data@;
                    let ghost pa1 = painted@;
                    let ghost ow1 = owner@;
                    classes.set(x, y, id);
                    painted.set(i, true);
                    owner.set(i, k as i32);
                    placed = placed + 1;
                    proof {
                        assert forall|j: int| 0 <= j < pa0.len() && #[trigger] pa0[j] implies classes.data@[j] == cl0[j] && owner@[j] == ow0[j] && painted@[j] by {
                            assert(pa1[j]);
                            assert(j != i);
                        }
                        if ci != i {
                            assert(classes.data@[ci] == cl1[ci] && owner@[ci] == ow1[ci] && painted@[ci] == pa1[ci]);
                        }
                    }
                }
            }
            x = x + 1;
        }
        y = y + 1;
    }
    placed
}

/// The indices of the unpainted tiles of an area.
fn free_tiles(amask: &Vec<bool>, painted: &Vec<bool>) -> (r: Vec<usize>)
    requires
        amask@.len() == painted@.len(),
    ensures
        forall|j: int| 0 <= j < r@.len() ==> #[trigger] r@[j] < amask@.len(),
        forall|j: int| 0 <= j < r@.len() ==> amask@[#[trigger] r@[j] as int] && !painted@[r@[j] as int],
        r@.len() <= amask@.len(),
        (exists|i: int| 0 <= i < amask@.len() && amask@[i] && !painted@[i]) ==> r@.len() > 0,
{
    let mut out: Vec<usize> = Vec::new();
    let mut i: usize = 0;
    while i < amask.len()
        invariant
            amask@.len() == painted@.len(),
            i <= amask@.len(),
            out@.len() <= i,
            forall|j: int| 0 <= j < out@.len() ==> #[trigger] out@[j] < i,
            forall|j: int| 0 <= j < out@.len() ==> amask@[#[trigger] out@[j] as int] && !painted@[out@[j] as int],
            (exists|t: int| 0 <= t < i && amask@[t] && !painted@[t]) ==> out@.len() > 0,
        decreases amask@.len() - i,
    {
        if amask[i] && !painted[i] {
            out.push(i);
        }
        i = i + 1;
    }
    out
}

/// Places clumps of class `id` until `target` tiles are placed or 4000 tries are
/// spent; centers are drawn from `avail`, which is compacted from time to time.
fn place_class(
    classes: &mut Grid<u8>,
    painted: &mut Vec<bool>,
    owner: &mut Vec<i32>,
    amask: &Vec<bool>,
    avail: &mut Vec<usize>,
    patch: (i32, i32),
    id: u8,
    target: i128,
    k: usize,
    rng: &mut Rng64,
    Ghost(lk): Ghost<Seq<bool>>,
    Ghost(areas): Ghost<Seq<TerrainArea>>,
    Ghost(bases): Ghost<Seq<Point>>,
)
    requires
        old(classes).wf(),
        state_ok(old(classes).data@, old(painted)@, old(owner)@, lk, areas, bases, old(classes).w as int, old(classes).h as int, k as int),
        mask_ok(amask@, old(classes).w as int, old(classes).h as int),
        forall|x: int, y: int| on_board(old(classes).w as int, old(classes).h as int, x, y) ==> #[trigger] flag(amask@, old(classes).w as int, x, y)
            == covers(areas[k as int], bases, old(classes).w as int, old(classes).h as int, x, y),
        forall|j: int| 0 <= j < old(avail)@.len() ==> #[trigger] old(avail)@[j] < amask@.len(),
        id <= 3,
        target > 0 ==> mix_weight(areas[k as int], id as int) > 0,
        k < areas.len(),
        areas.len() <= i32::MAX,
        0 <= target <= 0x1_0000_0000_0000_0000_0000_0000,
    ensures
        final(classes).wf(),
        final(classes).w == old(classes).w,
        final(classes).h == old(classes).h,
        state_ok(final(classes).data@, final(painted)@, final(owner)@, lk, areas, bases, final(classes).w as int, final(classes).h as int, k as int),
        forall|j: int| 0 <= j < final(avail)@.len() ==> #[trigger] final(avail)@[j] < amask@.len(),
        forall|i: int| 0 <= i < old(painted)@.len() && #[trigger] old(painted)@[i]
            ==> final(classes).data@[i] == old(classes).data@[i] && final(owner)@[i] == old(owner)@[i] && final(painted)@[i],
        (target > 0 && old(avail)@.len() > 0
            && forall|j: int| 0 <= j < old(avail)@.len() ==> amask@[#[trigger] old(avail)@[j] as int] && !old(painted)@[old(avail)@[j] as int])
            ==> exists|i: int| 0 <= i < old(classes).w * old(classes).h && #[trigger] final(painted)@[i] && final(owner)@[i] == k && final(classes).data@[i] == id,
        target == 0 ==> final(classes).data@ == old(classes).data@ && final(painted)@ == old(painted)@
            && final(owner)@ == old(owner)@ && final(avail)@ == old(avail)@,
{
    let w = classes.w;
    let h = classes.h;
    let ghost cl0 = classes.data@;
    let ghost pa0 = painted@;
    let ghost ow0 = owner@;
    let ghost av0 = avail@;
    let ghost first = target > 0 && av0.len() > 0 && forall|j: int| 0 <= j < av0.len() ==> amask@[#[trigger] av0[j] as int] && !pa0[av0[j] as int];
    let mut left = target;
    let mut tries: u32 = 0;
    while left > 0 && tries < 4000 && avail.len() > 0
        invariant
            classes.wf(),
            classes.w == w,
            classes.h == h,
            state_ok(classes.data@, painted@, owner@, lk, areas, bases, w as int, h as int, k as int),
            mask_ok(amask@, w as int, h as int),
            forall|x: int, y: int| on_board(w as int, h as int, x, y) ==> #[trigger] flag(amask@, w as int, x, y)
                == covers(areas[k as int], bases, w as int, h as int, x, y),
            forall|j: int| 0 <= j < avail@.len() ==> #[trigger] avail@[j] < amask@.len(),
            id <= 3,
            target > 0 ==> mix_weight(areas[k as int], id as int) > 0,
            left <= target,
            k < areas.len(),
            areas.len() <= i32::MAX,
            -0x4_0000_0000_0000_0000 <= left <= 0x1_0000_0000_0000_0000_0000_0000,
            av0 == old(avail)@,
            pa0 == old(painted)@,
            cl0 == old(classes).data@,
            ow0 == old(owner)@,
            target == 0 ==> classes.data@ == cl0 && painted@ == pa0 && owner@ == ow0 && avail@ == av0,
            first == (target > 0 && av0.len() > 0 && forall|j: int| 0 <= j < av0.len() ==> amask@[#[trigger] av0[j] as int] && !pa0[av0[j] as int]),
            tries <= 4000,
            pa0.len() == w * h,
            painted@.len() == w * h,
            forall|i: int| 0 <= i < pa0.len() && #[trigger] pa0[i] ==> classes.data@[i] == cl0[i] && owner@[i] == ow0[i] && painted@[i],
            first ==> (exists|i: int| 0 <= i < w * h && #[trigger] painted@[i] && owner@[i] == k && classes.data@[i] == id)
                || (tries == 0 && avail@ == av0 && painted@ == pa0 && left > 0),
        decreases 4000 - tries,
    {
        let ghost fresh = tries == 0 && avail@ == av0 && painted@ == pa0;
        tries = tries + 1;
        let j = rng.choose_idx(avail.len());
        let i = avail[j];
        proof {
            lemma_index_inverse(w as int, h as int, i as int);
        }
        let c = Point { x: (i % w as usize) as i32, y: (i / w as usize) as i32 };
        let ghost cl1 = classes.data@;
        let ghost pa1 = painted@;
        let ghost ow1 = owner@;
        let ghost had = exists|q: int| 0 <= q < w * h && #[trigger] pa1[q] && ow1[q] == k && cl1[q] == id;
        let placed = stamp_blob(classes, painted, owner, amask, c, patch.0, patch.1, id, k, rng, Ghost(lk), Ghost(areas), Ghost(bases));
        proof {
            assert(cell_index(w as int, c.x as int, c.y as int) == i);
            assert forall|q: int| 0 <= q < pa0.len() && #[trigger] pa0[q] implies classes.data@[q] == cl0[q] && owner@[q] == ow0[q] && painted@[q] by {
                assert(pa1[q]);
            }
            if first {
                if had {
                    let q = choose|q: int| 0 <= q < w * h && #[trigger] pa1[q] && ow1[q] == k && cl1[q] == id;
                    assert(painted@[q] && owner@[q] == k && classes.data@[q] == id);
                } else {
                    assert(fresh);
                    assert(av0[j as int] == i);
                    assert(amask@[av0[j as int] as int] && !pa0[av0[j as int] as int]);
                    assert(amask@[i as int] && !pa1[i as int]);
                    assert(painted@[i as int] && owner@[i as int] == k && classes.data@[i as int] == id);
                }
            }
        }
        if placed == 0 {
            continue;
        }
        left = left - placed;
        if tries % 16 == 0 {
            *avail = free_tiles(amask, painted);
        }
    }
    proof {
        if target > 0 && old(avail)@.len() > 0
            && forall|j: int| 0 <= j < old(avail)@.len() ==> amask@[#[trigger] old(avail)@[j] as int] && !old(painted)@[old(avail)@[j] as int] {
            assert(first);
            assert(exists|i: int| 0 <= i < w * h && #[trigger] painted@[i] && owner@[i] == k && classes.data@[i] == id);
        }
    }
}

/// Area `k` asks for class `c` (1 forest, 2 water, 3 mountain) at least half of
/// its mix, gives no weight to the non-grass classes painted before `c`, and
/// has a tile that no lock and no earlier area claims.
pub open spec fn class_owed(areas: Seq<TerrainArea>, bases: Seq<Point>, base_radius: int, shrines: Seq<Point>, shrine_radius: int, w: int, h: int, k: int, c: int) -> bool {
    &&& 1 <= c <= 3
    &&& 0 < mix_total(areas[k]) <= 2 * mix_weight(areas[k], c)
    &&& forall|c2: int| 1 <= c2 < c ==> #[trigger] mix_weight(areas[k], c2) == 0
    &&& exists|x: int, y: int| on_board(w, h, x, y) && #[trigger] first_cover(areas, bases, w, h, k, x, y)
        && !is_locked(bases, base_radius, shrines, shrine_radius, x, y)
}

/// Some tile painted by area `k` has class `c`.
pub open spec fn class_at(cl: Seq<u8>, pa: Seq<bool>, ow: Seq<i32>, n: int, k: int, c: int) -> bool {
    exists|i: int| 0 <= i < n && #[trigger] pa[i] && ow[i] == k && cl[i] == c
}

/// Some tile owned by area `k` has class `c`.
pub open spec fn class_owned(cl: Seq<u8>, ow: Seq<i32>, n: int, k: int, c: int) -> bool {
    exists|i: int| 0 <= i < n && #[trigger] ow[i] == k && cl[i] == c
}

/// Every tile painted in the first state keeps its class and owner, and stays
/// painted, in the second.
pub open spec fn keeps(cl0: Seq<u8>, pa0: Seq<bool>, ow0: Seq<i32>, cl1: Seq<u8>, pa1: Seq<bool>, ow1: Seq<i32>, n: int) -> bool {
    forall|i: int| 0 <= i < n && #[trigger] pa0[i] ==> cl1[i] == cl0[i] && ow1[i] == ow0[i] && pa1[i]
}

proof fn lemma_keeps_class(cl0: Seq<u8>, pa0: Seq<bool>, ow0: Seq<i32>, cl1: Seq<u8>, pa1: Seq<bool>, ow1: Seq<i32>, n: int, k: int, c: int)
    requires
        keeps(cl0, pa0, ow0, cl1, pa1, ow1, n),
        class_at(cl0, pa0, ow0, n, k, c),
    ensures
        class_at(cl1, pa1, ow1, n, k, c),
{
    let i = choose|i: int| 0 <= i < n && #[trigger] pa0[i] && ow0[i] == k && cl0[i] == c;
    assert(pa1[i] && ow1[i] == k && cl1[i] == c);
}

proof fn lemma_keeps_trans(
    cl0: Seq<u8>, pa0: Seq<bool>, ow0: Seq<i32>,
    cl1: Seq<u8>, pa1: Seq<bool>, ow1: Seq<i32>,
    cl2: Seq<u8>, pa2: Seq<bool>, ow2: Seq<i32>,
    n: int,
)
    requires
        keeps(cl0, pa0, ow0, cl1, pa1, ow1, n),
        keeps(cl1, pa1, ow1, cl2, pa2, ow2, n),
    ensures
        keeps(cl0, pa0, ow0, cl2, pa2, ow2, n),
{
    assert forall|i: int| 0 <= i < n && #[trigger] pa0[i] implies cl2[i] == cl0[i] && ow2[i] == ow0[i] && pa2[i] by {
        assert(pa1[i]);
    }
}

/// A class grid `cl` (row-major, `w` by `h`) is a Phase 3 painting with owners
/// `ow` and area order `areas` (the given areas, sorted): each tile's owner is
/// the lock, the first area in that order covering it, or none when no area
/// covers it; classes are valid; non-grass tiles belong to an area; and an area
/// that asks for at least half forest and has a free tile owns a forest tile.
pub open spec fn painting_ok(
    cl: Seq<u8>,
    ow: Seq<i32>,
    areas: Seq<TerrainArea>,
    given: Seq<TerrainArea>,
    bases: Seq<Point>,
    base_radius: int,
    shrines: Seq<Point>,
    shrine_radius: int,
    w: int,
    h: int,
) -> bool {
    &&& areas.to_multiset() == given.to_multiset()
    &&& sorted_by_key(areas)
    &&& cl.len() == w * h
    &&& ow.len() == w * h
    &&& forall|x: int, y: int| on_board(w, h, x, y) ==> {
        let o = #[trigger] ow[cell_index(w, x, y)];
        let c = cl[cell_index(w, x, y)];
        &&& (o == OWNER_LOCKED) == is_locked(bases, base_radius, shrines, shrine_radius, x, y)
        &&& o >= OWNER_NONE
        &&& o >= 0 ==> first_cover(areas, bases, w, h, o as int, x, y)
        &&& o == OWNER_NONE ==> forall|j: int| 0 <= j < areas.len() ==> !covers(#[trigger] areas[j], bases, w, h, x, y)
        &&& c <= 3
        &&& c != TERRAIN_GRASSLAND ==> o >= 0 && mix_weight(areas[o as int], c as int) > 0
    }
    &&& forall|k: int, c: int| 0 <= k < areas.len() && class_owed(areas, bases, base_radius, shrines, shrine_radius, w, h, k, c)
        ==> #[trigger] class_owned(cl, ow, w * h, k, c)
}

/// Phase 3 as painted: the class grid, the owner of each tile (`OWNER_LOCKED`,
/// the index in `areas` of the area that painted it, or `OWNER_NONE`) and the
/// areas in the order they were painted.
#[derive(Debug)]
pub struct PaintedTerrain {
    pub classes: Grid<u8>,
    pub owner: Vec<i32>,
    pub areas: Vec<TerrainArea>,
}


/// Once every tile of area `k` is painted, the painting is in order for the
/// areas up to and including `k`.
proof fn lemma_area_done(
    cl: Seq<u8>,
    pa: Seq<bool>,
    ow: Seq<i32>,
    lk: Seq<bool>,
    areas: Seq<TerrainArea>,
    bases: Seq<Point>,
    w: int,
    h: int,
    k: int,
    amask: Seq<bool>,
)
    requires
        state_ok(cl, pa, ow, lk, areas, bases, w, h, k),
        0 <= k < areas.len(),
        mask_ok(amask, w, h),
        forall|x: int, y: int| on_board(w, h, x, y) ==> #[trigger] flag(amask, w, x, y) == covers(areas[k], bases, w, h, x, y),
        forall|x: int, y: int| on_board(w, h, x, y) && #[trigger] flag(amask, w, x, y) ==> pa[cell_index(w, x, y)],
    ensures
        state_ok(cl, pa, ow, lk, areas, bases, w, h, k + 1),
{
    assert forall|x: int, y: int| on_board(w, h, x, y) implies #[trigger] cell_ok(cl, pa, ow, lk, areas, bases, w, h, k + 1, x, y) by {
        assert(cell_ok(cl, pa, ow, lk, areas, bases, w, h, k, x, y));
        assert(flag(amask, w, x, y) == covers(areas[k], bases, w, h, x, y));
    }
}

/// Phase 3: paints every tile a terrain class. Locked tiles stay grass; the areas
/// are taken in `sort_areas` order and each paints only tiles that no earlier area
/// (and no lock) claimed: clumps of forest, water and mountain up to their targets,
/// then grass on whatever of the area is left.
pub fn paint_terrain(tpl: &MapTemplate, base_centers: &Vec<Point>, shrines: &Vec<Point>, seed: u32) -> (r: PaintedTerrain)
    requires
        board_ok(tpl.size.0 as int, tpl.size.1 as int),
        tpl.terrain.areas@.len() <= i32::MAX,
    ensures
        r.classes.wf(),
        r.classes.w == tpl.size.0,
        r.classes.h == tpl.size.1,
        r.areas@.to_multiset() == tpl.terrain.areas@.to_multiset(),
        sorted_by_key(r.areas@),
        r.owner@.len() == tpl.size.0 * tpl.size.1,
        forall|x: int, y: int| on_board(tpl.size.0 as int, tpl.size.1 as int, x, y) ==> {
            let o = #[trigger] r.owner@[cell_index(tpl.size.0 as int, x, y)];
            let locked = is_locked(base_centers@, tpl.player_spawns.base_radius as int, shrines@, tpl.terrain.shrine_grass_radius as int, x, y);
            &&& (o == OWNER_LOCKED) == locked
            &&& o >= OWNER_NONE
            &&& o >= 0 ==> first_cover(r.areas@, base_centers@, tpl.size.0 as int, tpl.size.1 as int, o as int, x, y)
            &&& o == OWNER_NONE ==> forall|j: int| 0 <= j < r.areas@.len() ==> !covers(#[trigger] r.areas@[j], base_centers@, tpl.size.0 as int, tpl.size.1 as int, x, y)
            &&& r.classes.at(x, y) <= 3
            &&& r.classes.at(x, y) != TERRAIN_GRASSLAND ==> o >= 0 && mix_weight(r.areas@[o as int], r.classes.at(x, y) as int) > 0
        },
        forall|k: int, c: int| 0 <= k < r.areas@.len()
            && class_owed(r.areas@, base_centers@, tpl.player_spawns.base_radius as int, shrines@, tpl.terrain.shrine_grass_radius as int, tpl.size.0 as int, tpl.size.1 as int, k, c)
            ==> #[trigger] class_owned(r.classes.cells(), r.owner@, tpl.size.0 * tpl.size.1, k, c),
        painting_ok(r.classes.cells(), r.owner@, r.areas@, tpl.terrain.areas@, base_centers@, tpl.player_spawns.base_radius as int,
            shrines@, tpl.terrain.shrine_grass_radius as int, tpl.size.0 as int, tpl.size.1 as int),
{
    let (w, h) = tpl.size;
    let ghost br = tpl.player_spawns.base_radius as int;
    let ghost sr = tpl.terrain.shrine_grass_radius as int;
    let mut classes: Grid<u8> = Grid::filled(w, h, TERRAIN_GRASSLAND);
    let lk = locked_mask(w, h, base_centers, tpl.player_spawns.base_radius, shrines, tpl.terrain.shrine_grass_radius);
    let n = lk.len();
    let mut painted: Vec<bool> = Vec::with_capacity(n);
    let mut owner: Vec<i32> = Vec::with_capacity(n);
    let mut i: usize = 0;
    while i < n
        invariant
            n == lk@.len(),
            i <= n,
            painted@.len() == i,
            owner@.len() == i,
            forall|j: int| 0 <= j < i ==> painted@[j] == lk@[j],
            forall|j: int| 0 <= j < i ==> owner@[j] == if lk@[j] { OWNER_LOCKED } else { OWNER_NONE },
        decreases n - i,
    {
        painted.push(lk[i]);
        owner.push(if lk[i] { OWNER_LOCKED } else { OWNER_NONE });
        i = i + 1;
    }
    let areas = sort_areas(&tpl.terrain.areas);
    let ghost bases = base_centers@;
    proof {
        assert forall|x: int, y: int| on_board(w as int, h as int, x, y) implies #[trigger] cell_ok(classes.data@, painted@, owner@, lk@, areas@, bases, w as int, h as int, 0, x, y) by {
            lemma_index_bounds(w as int, h as int, x, y);
            assert(classes.at(x, y) == TERRAIN_GRASSLAND);
        }
    }
    let clumps = tpl.terrain.clumps;
    let mut rng = Rng64::new(seed as u64 ^ 0xA53C_9E37u64);
    let mut k: usize = 0;
    while k < areas.len()
        invariant
            k <= areas@.len(),
            areas@.len() <= i32::MAX,
            classes.wf(),
            classes.w == w,
            classes.h == h,
            board_ok(w as int, h as int),
            bases == base_centers@,
            state_ok(classes.data@, painted@, owner@, lk@, areas@, bases, w as int, h as int, k as int),
            br == tpl.player_spawns.base_radius as int,
            sr == tpl.terrain.shrine_grass_radius as int,
            forall|x: int, y: int| on_board(w as int, h as int, x, y) ==> #[trigger] flag(lk@, w as int, x, y)
                == is_locked(base_centers@, br, shrines@, sr, x, y),
            forall|i: int| 0 <= i < w * h ==> #[trigger] owner@[i] < k,
            forall|kk: int, c: int| 0 <= kk < k && class_owed(areas@, bases, br, shrines@, sr, w as int, h as int, kk, c)
                ==> #[trigger] class_at(classes.data@, painted@, owner@, w * h, kk, c),
        decreases areas@.len() - k,
    {
        let a = areas[k];
        assert(a == areas@[k as int]);
        let amask = match a.source {
            AreaSource::Center => {
                let c = Point { x: w / 2, y: h / 2 };
                let m = circle_mask(w, h, c, a.radius);
                assert(c == Point { x: (w / 2) as i32, y: (h / 2) as i32 });
                assert forall|x: int, y: int| on_board(w as int, h as int, x, y) implies #[trigger] flag(m@, w as int, x, y)
                    == covers(a, bases, w as int, h as int, x, y) by {
                    assert(flag(m@, w as int, x, y) == in_disk(c, a.radius as int, x, y));
                }
                m
            },
            AreaSource::Spawn => {
                let m = union_of_disks(w, h, base_centers, a.radius);
                assert forall|x: int, y: int| on_board(w as int, h as int, x, y) implies #[trigger] flag(m@, w as int, x, y)
                    == covers(a, bases, w as int, h as int, x, y) by {
                    assert(flag(m@, w as int, x, y) == in_any_disk(base_centers@, a.radius as int, x, y));
                    assert(a.source == AreaSource::Spawn);
                }
                m
            },
        };
        let ghost cl_s = classes.data@;
        let ghost pa_s = painted@;
        let ghost ow_s = owner@;
        let mut avail = free_tiles(&amask, &painted);
        proof {
            if exists|x: int, y: int| on_board(w as int, h as int, x, y) && #[trigger] first_cover(areas@, bases, w as int, h as int, k as int, x, y)
                && !is_locked(bases, br, shrines@, sr, x, y) {
                let (x, y) = choose|x: int, y: int| on_board(w as int, h as int, x, y) && #[trigger] first_cover(areas@, bases, w as int, h as int, k as int, x, y)
                    && !is_locked(bases, br, shrines@, sr, x, y);
                lemma_index_bounds(w as int, h as int, x, y);
                let c = cell_index(w as int, x, y);
                assert(cell_ok(classes.data@, painted@, owner@, lk@, areas@, bases, w as int, h as int, k as int, x, y));
                assert(flag(lk@, w as int, x, y) == is_locked(base_centers@, br, shrines@, sr, x, y));
                assert(owner@[c] < k);
                if owner@[c] >= 0 {
                    assert(first_cover(areas@, bases, w as int, h as int, owner@[c] as int, x, y));
                    assert(covers(areas@[owner@[c] as int], bases, w as int, h as int, x, y));
                }
                assert(!painted@[c]);
                assert(flag(amask@, w as int, x, y));
                assert(amask@[c] && !painted@[c]);
                assert(avail@.len() > 0);
            }
        }
        let ghost had_free = avail@.len() > 0;
        if avail.len() > 0 {
            let (tf, tw, tm) = class_targets(&a, avail.len());
            proof {
                lemma_mix_bounds(a);
                if tf > 0 { lemma_target_needs_weight(a, 1, avail@.len() as int); }
                if tw > 0 { lemma_target_needs_weight(a, 2, avail@.len() as int); }
                if tm > 0 { lemma_target_needs_weight(a, 3, avail@.len() as int); }
                let tot = mix_total(a);
                let nn = avail@.len() as int;
                assert forall|kk: int| 1 <= kk <= 3 implies 0 <= #[trigger] target_of(a, kk, nn) <= 0x1_0000_0000_0000_0000_0000_0000 by {
                    if tot > 0 {
                        let wk = mix_weight(a, kk);
                        assert(0 <= wk <= 0x4000_0000_0000_0000);
                        assert(0 <= (2 * wk * nn + tot) / (2 * tot) <= 2 * wk * nn + tot) by (nonlinear_arith)
                            requires 0 <= wk, 0 < tot, 0 <= nn;
                        assert(2 * wk * nn <= 0x8000_0000_0000_0000_0000_0000) by (nonlinear_arith)
                            requires 0 <= wk <= 0x4000_0000_0000_0000, 0 <= nn <= 0x8000_0000;
                    }
                }
                assert(0 <= target_of(a, 1, nn) <= 0x1_0000_0000_0000_0000_0000_0000);
                assert(0 <= target_of(a, 2, nn) <= 0x1_0000_0000_0000_0000_0000_0000);
                assert(0 <= target_of(a, 3, nn) <= 0x1_0000_0000_0000_0000_0000_0000);
            }
            let ghost cl_a = classes.data@;
            let ghost pa_a = painted@;
            let ghost ow_a = owner@;
            let ghost av_a = avail@;
            proof {
                let tot = mix_total(a);
                let nn = avail@.len() as int;
                assert(a == areas@[k as int]);
                if class_owed(areas@, bases, br, shrines@, sr, w as int, h as int, k as int, 1) {
                    let wc = mix_weight(a, 1);
                    assert(tf >= 1) by (nonlinear_arith)
                        requires tf == (2 * wc * nn + tot) / (2 * tot), 2 * wc >= tot, tot > 0, nn >= 1;
                }
                if class_owed(areas@, bases, br, shrines@, sr, w as int, h as int, k as int, 2) {
                    let wc = mix_weight(a, 2);
                    assert(tw >= 1) by (nonlinear_arith)
                        requires tw == (2 * wc * nn + tot) / (2 * tot), 2 * wc >= tot, tot > 0, nn >= 1;
                }
                if class_owed(areas@, bases, br, shrines@, sr, w as int, h as int, k as int, 3) {
                    let wc = mix_weight(a, 3);
                    assert(tm >= 1) by (nonlinear_arith)
                        requires tm == (2 * wc * nn + tot) / (2 * tot), 2 * wc >= tot, tot > 0, nn >= 1;
                }
                if class_owed(areas@, bases, br, shrines@, sr, w as int, h as int, k as int, 2) || class_owed(areas@, bases, br, shrines@, sr, w as int, h as int, k as int, 3) {
                    assert(mix_weight(areas@[k as int], 1) == 0);
                    assert(tf == 0);
                }
                if class_owed(areas@, bases, br, shrines@, sr, w as int, h as int, k as int, 3) {
                    assert(mix_weight(areas@[k as int], 2) == 0);
                    assert(tw == 0);
                }
            }
            place_class(&mut classes, &mut painted, &mut owner, &amask, &mut avail, clumps.forest_patch, TERRAIN_FOREST, tf, k, &mut rng, Ghost(lk@), Ghost(areas@), Ghost(bases));
            let ghost cl_b = classes.data@;
            let ghost pa_b = painted@;
            let ghost ow_b = owner@;
            let ghost av_b = avail@;
            proof {
                assert(keeps(cl_a, pa_a, ow_a, cl_b, pa_b, ow_b, w * h));
                if class_owed(areas@, bases, br, shrines@, sr, w as int, h as int, k as int, 1) {
                    assert(class_at(cl_b, pa_b, ow_b, w * h, k as int, 1));
                }
            }
            place_class(&mut classes, &mut painted, &mut owner, &amask, &mut avail, clumps.water_patch, TERRAIN_WATER, tw, k, &mut rng, Ghost(lk@), Ghost(areas@), Ghost(bases));
            let ghost cl_c = classes.data@;
            let ghost pa_c = painted@;
            let ghost ow_c = owner@;
            proof {
                assert(keeps(cl_b, pa_b, ow_b, cl_c, pa_c, ow_c, w * h));
                if class_owed(areas@, bases, br, shrines@, sr, w as int, h as int, k as int, 2) {
                    assert(pa_b == pa_a && av_b == av_a);
                    assert(class_at(cl_c, pa_c, ow_c, w * h, k as int, 2));
                }
            }
            place_class(&mut classes, &mut painted, &mut owner, &amask, &mut avail, clumps.mountain_patch, TERRAIN_MOUNTAIN, tm, k, &mut rng, Ghost(lk@), Ghost(areas@), Ghost(bases));
            proof {
                assert(keeps(cl_c, pa_c, ow_c, classes.data@, painted@, owner@, w * h));
                if class_owed(areas@, bases, br, shrines@, sr, w as int, h as int, k as int, 3) {
                    assert(pa_b == pa_a && av_b == av_a);
                    assert(class_at(classes.data@, painted@, owner@, w * h, k as int, 3));
                }
                lemma_keeps_trans(cl_a, pa_a, ow_a, cl_b, pa_b, ow_b, cl_c, pa_c, ow_c, w * h);
                lemma_keeps_trans(cl_a, pa_a, ow_a, cl_c, pa_c, ow_c, classes.data@, painted@, owner@, w * h);
                lemma_keeps_trans(cl_b, pa_b, ow_b, cl_c, pa_c, ow_c, classes.data@, painted@, owner@, w * h);
                if class_owed(areas@, bases, br, shrines@, sr, w as int, h as int, k as int, 1) {
                    lemma_keeps_class(cl_b, pa_b, ow_b, classes.data@, painted@, owner@, w * h, k as int, 1);
                }
                if class_owed(areas@, bases, br, shrines@, sr, w as int, h as int, k as int, 2) {
                    lemma_keeps_class(cl_c, pa_c, ow_c, classes.data@, painted@, owner@, w * h, k as int, 2);
                }
            }
        }
        let ghost cl_f = classes.data@;
        let ghost pa_f = painted@;
        let ghost ow_f = owner@;
        proof {
            assert(keeps(cl_s, pa_s, ow_s, cl_f, pa_f, ow_f, w * h));
            assert forall|c: int| class_owed(areas@, bases, br, shrines@, sr, w as int, h as int, k as int, c) implies #[trigger] class_at(cl_f, pa_f, ow_f, w * h, k as int, c) by {
                assert(had_free);
            }
        }
        // whatever of the area is still unpainted becomes grass
        let mut y: i32 = 0;
        while y < h
            invariant
                0 <= y <= h,
                k < areas@.len(),
                areas@.len() <= i32::MAX,
                classes.wf(),
                classes.w == w,
                classes.h == h,
                board_ok(w as int, h as int),
                state_ok(classes.data@, painted@, owner@, lk@, areas@, bases, w as int, h as int, k as int),
                mask_ok(amask@, w as int, h as int),
                forall|x: int, y: int| on_board(w as int, h as int, x, y) ==> #[trigger] flag(amask@, w as int, x, y)
                    == covers(areas@[k as int], bases, w as int, h as int, x, y),
                forall|x2: int, y2: int| on_board(w as int, h as int, x2, y2) && y2 < y && #[trigger] flag(amask@, w as int, x2, y2)
                    ==> painted@[cell_index(w as int, x2, y2)],
                keeps(cl_f, pa_f, ow_f, classes.data@, painted@, owner@, w * h),
            decreases h - y,
        {
            let mut x: i32 = 0;
            while x < w
                invariant
                    0 <= y < h,
                    0 <= x <= w,
                    k < areas@.len(),
                    areas@.len() <= i32::MAX,
                    classes.wf(),
                    classes.w == w,
                    classes.h == h,
                    board_ok(w as int, h as int),
                    state_ok(classes.data@, painted@, owner@, lk@, areas@, bases, w as int, h as int, k as int),
                    mask_ok(amask@, w as int, h as int),
                    forall|x: int, y: int| on_board(w as int, h as int, x, y) ==> #[trigger] flag(amask@, w as int, x, y)
                        == covers(areas@[k as int], bases, w as int, h as int, x, y),
                    forall|x2: int, y2: int| on_board(w as int, h as int, x2, y2) && (y2 < y || (y2 == y && x2 < x)) && #[trigger] flag(amask@, w as int, x2, y2)
                        ==> painted@[cell_index(w as int, x2, y2)],
                    keeps(cl_f, pa_f, ow_f, classes.data@, painted@, owner@, w * h),
                decreases w - x,
            {
                proof {
                    lemma_index_bounds(w as int, h as int, x as int, y as int);
                }
                let i = (y * w + x) as usize;
                if amask[i] && !painted[i] {
                    proof {
                        assert(flag(amask@, w as int, x as int, y as int));
                        lemma_paint_cell(classes.data@, painted@, owner@, lk@, areas@, bases, w as int, h as int, k as int, x as int, y as int, TERRAIN_GRASSLAND);
                    }
                    let ghost before = painted@;
                    let ghost cl1 = classes.data@;
                    let ghost ow1 = owner@;
                    classes.set(x, y, TERRAIN_GRASSLAND);
                    painted.set(i, true);
                    owner.set(i, k as i32);
                    proof {
                        assert forall|j: int| 0 <= j < w * h && #[trigger] pa_f[j] implies classes.data@[j] == cl_f[j] && owner@[j] == ow_f[j] && painted@[j] by {
                            assert(before[j]);
                            assert(j != i);
                            assert(cl1[j] == cl_f[j] && ow1[j] == ow_f[j]);
                        }
                    }
                    proof {
                        assert forall|x2: int, y2: int| on_board(w as int, h as int, x2, y2) && (y2 < y || (y2 == y && x2 <= x)) && #[trigger] flag(amask@, w as int, x2, y2)
                            implies painted@[cell_index(w as int, x2, y2)] by {
                            lemma_index_bounds(w as int, h as int, x2, y2);
                        }
                    }
                }
                x = x + 1;
            }
            y = y + 1;
        }
        proof {
            lemma_keeps_trans(cl_s, pa_s, ow_s, cl_f, pa_f, ow_f, classes.data@, painted@, owner@, w * h);
            assert forall|kk: int, c: int| 0 <= kk < k + 1 && class_owed(areas@, bases, br, shrines@, sr, w as int, h as int, kk, c)
                implies #[trigger] class_at(classes.data@, painted@, owner@, w * h, kk, c) by {
                if kk < k {
                    lemma_keeps_class(cl_s, pa_s, ow_s, classes.data@, painted@, owner@, w * h, kk, c);
                } else {
                    lemma_keeps_class(cl_f, pa_f, ow_f, classes.data@, painted@, owner@, w * h, kk, c);
                }
            }
            assert forall|i: int| 0 <= i < w * h implies #[trigger] owner@[i] < k + 1 by {
                lemma_index_inverse(w as int, h as int, i);
                assert(cell_ok(classes.data@, painted@, owner@, lk@, areas@, bases, w as int, h as int, k as int, i % (w as int), i / (w as int)));
            }
            lemma_area_done(classes.data@, painted@, owner@, lk@, areas@, bases, w as int, h as int, k as int, amask@);
        }
        k = k + 1;
    }
    proof {
        assert forall|x: int, y: int| on_board(w as int, h as int, x, y) implies {
            let o = #[trigger] owner@[cell_index(w as int, x, y)];
            let locked = is_locked(base_centers@, tpl.player_spawns.base_radius as int, shrines@, tpl.terrain.shrine_grass_radius as int, x, y);
            &&& (o == OWNER_LOCKED) == locked
            &&& o >= OWNER_NONE
            &&& o >= 0 ==> first_cover(areas@, base_centers@, w as int, h as int, o as int, x, y)
            &&& o == OWNER_NONE ==> forall|j: int| 0 <= j < areas@.len() ==> !covers(#[trigger] areas@[j], base_centers@, w as int, h as int, x, y)
            &&& classes.at(x, y) <= 3
            &&& classes.at(x, y) != TERRAIN_GRASSLAND ==> o >= 0 && mix_weight(areas@[o as int], classes.at(x, y) as int) > 0
        } by {
            assert(cell_ok(classes.data@, painted@, owner@, lk@, areas@, bases, w as int, h as int, areas@.len() as int, x, y));
            assert(flag(lk@, w as int, x, y) == is_locked(base_centers@, tpl.player_spawns.base_radius as int, shrines@, tpl.terrain.shrine_grass_radius as int, x, y));
        }
    }
    proof {
        assert forall|kk: int, c: int| 0 <= kk < areas@.len()
            && class_owed(areas@, base_centers@, tpl.player_spawns.base_radius as int, shrines@, tpl.terrain.shrine_grass_radius as int, w as int, h as int, kk, c)
            implies #[trigger] class_owned(classes.cells(), owner@, w * h, kk, c) by {
            assert(class_at(classes.data@, painted@, owner@, w * h, kk, c));
            let i = choose|i: int| 0 <= i < w * h && #[trigger] painted@[i] && owner@[i] == kk && classes.data@[i] == c;
            assert(owner@[i] == kk && classes.cells()[i] == c);
        }
    }
    PaintedTerrain { classes, owner, areas }
}

/// Phase 3, the class grid alone.
pub fn generate_phase3_terrain_clumps(tpl: &MapTemplate, base_centers: &Vec<Point>, shrines: &Vec<Point>, seed: u32) -> (r: Grid<u8>)
    requires
        board_ok(tpl.size.0 as int, tpl.size.1 as int),
        tpl.terrain.areas@.len() <= i32::MAX,
    ensures
        r.wf(),
        r.w == tpl.size.0,
        r.h == tpl.size.1,
        forall|x: int, y: int| on_board(tpl.size.0 as int, tpl.size.1 as int, x, y) ==> #[trigger] r.at(x, y) <= 3,
        forall|x: int, y: int| on_board(tpl.size.0 as int, tpl.size.1 as int, x, y)
            && is_locked(base_centers@, tpl.player_spawns.base_radius as int, shrines@, tpl.terrain.shrine_grass_radius as int, x, y)
            ==> #[trigger] r.at(x, y) == TERRAIN_GRASSLAND,
        forall|x: int, y: int| on_board(tpl.size.0 as int, tpl.size.1 as int, x, y) && #[trigger] r.at(x, y) != TERRAIN_GRASSLAND
            ==> exists|j: int| 0 <= j < tpl.terrain.areas@.len()
                && covers(#[trigger] tpl.terrain.areas@[j], base_centers@, tpl.size.0 as int, tpl.size.1 as int, x, y),
        exists|ow: Seq<i32>, ar: Seq<TerrainArea>| #[trigger] painting_ok(r.cells(), ow, ar, tpl.terrain.areas@, base_centers@,
            tpl.player_spawns.base_radius as int, shrines@, tpl.terrain.shrine_grass_radius as int, tpl.size.0 as int, tpl.size.1 as int),
{
    let p = paint_terrain(tpl, base_centers, shrines, seed);
    proof {
        assert(painting_ok(p.classes.cells(), p.owner@, p.areas@, tpl.terrain.areas@, base_centers@,
            tpl.player_spawns.base_radius as int, shrines@, tpl.terrain.shrine_grass_radius as int, tpl.size.0 as int, tpl.size.1 as int));
        let w = tpl.size.0 as int;
        let h = tpl.size.1 as int;
        assert forall|x: int, y: int| on_board(w, h, x, y) && #[trigger] p.classes.at(x, y) != TERRAIN_GRASSLAND
            implies exists|j: int| 0 <= j < tpl.terrain.areas@.len()
                && covers(#[trigger] tpl.terrain.areas@[j], base_centers@, w, h, x, y) by {
            let o = p.owner@[cell_index(w, x, y)];
            assert(first_cover(p.areas@, base_centers@, w, h, o as int, x, y));
            let a = p.areas@[o as int];
            assert(p.areas@.contains(a));
            vstd::seq_lib::to_multiset_contains(p.areas@, a);
            vstd::seq_lib::to_multiset_contains(tpl.terrain.areas@, a);
            assert(tpl.terrain.areas@.contains(a));
            let j = choose|j: int| 0 <= j < tpl.terrain.areas@.len() && tpl.terrain.areas@[j] == a;
            assert(covers(tpl.terrain.areas@[j], base_centers@, w, h, x, y));
        }
        assert forall|x: int, y: int| on_board(w, h, x, y) && is_locked(base_centers@, tpl.player_spawns.base_radius as int, shrines@, tpl.terrain.shrine_grass_radius as int, x, y)
            implies #[trigger] p.classes.at(x, y) == TERRAIN_GRASSLAND by {
            let o = p.owner@[cell_index(w, x, y)];
        }
        assert forall|x: int, y: int| on_board(w, h, x, y) implies #[trigger] p.classes.at(x, y) <= 3 by {
            let o = p.owner@[cell_index(w, x, y)];
        }
    }
    p.classes
}

} // verus!
