use vstd::prelude::*;
use crate::geom::{Point, dist2, in_disk, distance2};
use crate::grid::{Grid, board_ok, on_board, cell_index, lemma_index_bounds, lemma_index_inverse};
use crate::masks::{flag, mask_ok, new_mask, paint_disk};
use crate::rng::Rng64;
use crate::template::{MapTemplate, ObjectTypeRule, Region};
use crate::landscape::{TERRAIN_GRASSLAND, TERRAIN_FOREST, TERRAIN_WATER, TERRAIN_MOUNTAIN};

verus! {

/// One placed object: its tile and its index in the template's object types.
#[derive(Clone, Copy, Debug, PartialEq, Eq, Structural)]
pub struct PlacedObject {
    pub pos: Point,
    pub kind: u16,
}

/// The spacing two objects of radii `ra` and `rb` need: the larger radius.
pub open spec fn min_gap(ra: int, rb: int) -> int {
    if ra < rb { rb } else { ra }
}

/// Objects at `a` and `b` with radii `ra` and `rb` are far enough apart.
pub open spec fn spaced(a: Point, ra: int, b: Point, rb: int) -> bool {
    dist2(a.x as int, a.y as int, b.x as int, b.y as int) >= min_gap(ra, rb) * min_gap(ra, rb)
}

/// `(x, y)` lies in an exclusion disk: within a positive radius of a base or a shrine.
pub open spec fn excluded(bases: Seq<Point>, base_radius: int, shrines: Seq<Point>, shrine_radius: int, x: int, y: int) -> bool {
    (base_radius > 0 && exists|i: int| 0 <= i < bases.len() && in_disk(#[trigger] bases[i], base_radius, x, y))
        || (shrine_radius > 0 && exists|i: int| 0 <= i < shrines.len() && in_disk(#[trigger] shrines[i], shrine_radius, x, y))
}

/// The terrain class byte of a region.
pub open spec fn region_class(r: Region) -> u8 {
    match r {
        Region::Grassland => TERRAIN_GRASSLAND,
        Region::Forest => TERRAIN_FOREST,
        Region::Water => TERRAIN_WATER,
        Region::Mountain => TERRAIN_MOUNTAIN,
    }
}

/// Object radii that placement can work with.
pub open spec fn radii_ok(types: Seq<ObjectTypeRule>) -> bool {
    forall|i: int| 0 <= i < types.len() ==> 0 <= #[trigger] types[i].radius <= 0x4000_0000
}

/// Sets to false every cell within `r` of one of `centers`, when `r > 0`.
fn exclude_disks(m: &mut Vec<bool>, w: i32, h: i32, centers: &Vec<Point>, r: i32)
    requires
        mask_ok(old(m)@, w as int, h as int),
    ensures
        mask_ok(final(m)@, w as int, h as int),
        forall|x: int, y: int| on_board(w as int, h as int, x, y) ==> #[trigger] flag(final(m)@, w as int, x, y)
            == (flag(old(m)@, w as int, x, y) && !(r > 0 && exists|i: int| 0 <= i < centers@.len() && in_disk(#[trigger] centers@[i], r as int, x, y))),
{
    if r <= 0 {
        return;
    }
    let ghost m0 = m@;
    let mut i: usize = 0;
    while i < centers.len()
        invariant
            r > 0,
            i <= centers@.len(),
            mask_ok(m@, w as int, h as int),
            forall|x: int, y: int| on_board(w as int, h as int, x, y) ==> #[trigger] flag(m@, w as int, x, y)
                == (flag(m0, w as int, x, y) && !(exists|j: int| 0 <= j < i && in_disk(#[trigger] centers@[j], r as int, x, y))),
        decreases centers@.len() - i,
    {
        paint_disk(m, w, h, centers[i], r, false);
        proof {
            assert forall|x: int, y: int| on_board(w as int, h as int, x, y) implies #[trigger] flag(m@, w as int, x, y)
                == (flag(m0, w as int, x, y) && !(exists|j: int| 0 <= j < i + 1 && in_disk(#[trigger] centers@[j], r as int, x, y))) by {
                if in_disk(centers@[i as int], r as int, x, y) {
                    assert(0 <= i < i + 1 && in_disk(centers@[i as int], r as int, x, y));
                }
            }
        }
        i = i + 1;
    }
}

/// The tiles where objects may go: every tile outside the exclusion disks.
pub fn allowed_mask(w: i32, h: i32, bases: &Vec<Point>, base_radius: i32, shrines: &Vec<Point>, shrine_radius: i32) -> (m: Vec<bool>)
    requires
        board_ok(w as int, h as int),
    ensures
        mask_ok(m@, w as int, h as int),
        forall|x: int, y: int| on_board(w as int, h as int, x, y) ==> #[trigger] flag(m@, w as int, x, y)
            == !excluded(bases@, base_radius as int, shrines@, shrine_radius as int, x, y),
{
    let mut m = new_mask(w, h, true);
    exclude_disks(&mut m, w, h, bases, base_radius);
    exclude_disks(&mut m, w, h, shrines, shrine_radius);
    m
}

/// The bucket of a coordinate, for buckets `cell` tiles wide.
pub open spec fn bucket_of(v: int, cell: int) -> int {
    v / cell
}

/// Two coordinates less than `cell` apart fall in the same or adjacent buckets.
proof fn lemma_near_buckets(a: int, b: int, cell: int)
    requires
        0 <= a,
        0 <= b,
        0 < cell,
        a - b < cell,
        b - a < cell,
    ensures
        bucket_of(a, cell) - bucket_of(b, cell) <= 1,
        bucket_of(b, cell) - bucket_of(a, cell) <= 1,
{
    let qa = a / cell;
    let qb = b / cell;
    assert(qa * cell <= a < qa * cell + cell) by (nonlinear_arith)
        requires 0 <= a, 0 < cell, qa == a / cell;
    assert(qb * cell <= b < qb * cell + cell) by (nonlinear_arith)
        requires 0 <= b, 0 < cell, qb == b / cell;
    if qa - qb >= 2 {
        assert(qa * cell >= qb * cell + 2 * cell) by (nonlinear_arith)
            requires qa - qb >= 2, 0 < cell;
    }
    if qb - qa >= 2 {
        assert(qb * cell >= qa * cell + 2 * cell) by (nonlinear_arith)
            requires qb - qa >= 2, 0 < cell;
    }
}

/// Bucket `b` lists object `j`.
pub open spec fn lists(b: Seq<usize>, j: int) -> bool {
    exists|t: int| 0 <= t < b.len() && b[t] as int == j
}

/// Placed objects with a uniform bucket grid over them, `cell` tiles per bucket.
pub struct Placement {
    pub w: i32,
    pub h: i32,
    pub cell: i32,
    pub bw: i32,
    pub bh: i32,
    pub buckets: Vec<Vec<usize>>,
    pub placed: Vec<PlacedObject>,
    pub radii: Vec<i32>,
}

impl Placement {
    /// Every object is on the board with a radius at most `cell`, filed in the
    /// bucket of its tile; every bucket entry names a placed object.
    pub open spec fn wf(&self) -> bool {
        &&& board_ok(self.w as int, self.h as int)
        &&& 1 <= self.cell <= 0x4000_0000
        &&& self.bw == (self.w + self.cell - 1) / (self.cell as int)
        &&& self.bh == (self.h + self.cell - 1) / (self.cell as int)
        &&& board_ok(self.bw as int, self.bh as int)
        &&& self.buckets@.len() == self.bw * self.bh
        &&& self.radii@.len() == self.placed@.len()
        &&& forall|j: int| 0 <= j < self.placed@.len() ==> {
            let p = #[trigger] self.placed@[j].pos;
            &&& on_board(self.w as int, self.h as int, p.x as int, p.y as int)
            &&& 0 <= self.radii@[j] <= self.cell
            &&& lists(self.buckets@[cell_index(self.bw as int, bucket_of(p.x as int, self.cell as int), bucket_of(p.y as int, self.cell as int))]@, j)
        }
        &&& forall|b: int, t: int| 0 <= b < self.buckets@.len() && 0 <= t < self.buckets@[b]@.len()
            ==> #[trigger] self.buckets@[b]@[t] < self.placed@.len()
    }

    /// Every two placed objects are spaced.
    pub open spec fn spacing_ok(&self) -> bool {
        forall|i: int, j: int| 0 <= i < j < self.placed@.len() ==> spaced(
            #[trigger] self.placed@[i].pos,
            self.radii@[i] as int,
            #[trigger] self.placed@[j].pos,
            self.radii@[j] as int,
        )
    }

    pub fn new(w: i32, h: i32, cell: i32) -> (r: Placement)
        requires
            board_ok(w as int, h as int),
            1 <= cell <= 0x4000_0000,
        ensures
            r.wf(),
            r.spacing_ok(),
            r.placed@.len() == 0,
            r.w == w,
            r.h == h,
            r.cell == cell,
    {
        let bw64: i64 = (w as i64 + cell as i64 - 1) / cell as i64;
        let bh64: i64 = (h as i64 + cell as i64 - 1) / cell as i64;
        assert(0 <= bw64 <= w) by (nonlinear_arith)
            requires bw64 == (w + cell - 1) / (cell as int), 1 <= cell, 0 <= w;
        assert(0 <= bh64 <= h) by (nonlinear_arith)
            requires bh64 == (h + cell - 1) / (cell as int), 1 <= cell, 0 <= h;
        let bw = bw64 as i32;
        let bh = bh64 as i32;
        proof {
            assert(bw <= w || w == 0) by (nonlinear_arith)
                requires bw == (w + cell - 1) / (cell as int), 1 <= cell, 0 <= w;
            assert(bh <= h || h == 0) by (nonlinear_arith)
                requires bh == (h + cell - 1) / (cell as int), 1 <= cell, 0 <= h;
            assert(0 <= bw) by (nonlinear_arith)
                requires bw == (w + cell - 1) / (cell as int), 1 <= cell, 0 <= w;
            assert(0 <= bh) by (nonlinear_arith)
                requires bh == (h + cell - 1) / (cell as int), 1 <= cell, 0 <= h;
            if w == 0 {
                assert(bw == 0) by (nonlinear_arith)
                    requires bw == (w + cell - 1) / (cell as int), 1 <= cell, w == 0;
            }
            if h == 0 {
                assert(bh == 0) by (nonlinear_arith)
                    requires bh == (h + cell - 1) / (cell as int), 1 <= cell, h == 0;
            }
            assert(bw * bh <= w * h) by (nonlinear_arith)
                requires 0 <= bw <= w, 0 <= bh <= h;
        }
        let n = (bw * bh) as usize;
        let mut buckets: Vec<Vec<usize>> = Vec::with_capacity(n);
        let mut i: usize = 0;
        while i < n
            invariant
                i <= n,
                buckets@.len() == i,
                forall|b: int| 0 <= b < i ==> (#[trigger] buckets@[b])@.len() == 0,
            decreases n - i,
        {
            buckets.push(Vec::new());
            i = i + 1;
        }
        Placement { w, h, cell, bw, bh, buckets, placed: Vec::new(), radii: Vec::new() }
    }

    fn bucket_index(&self, bx: i32, by: i32) -> (r: usize)
        requires
            self.wf(),
            on_board(self.bw as int, self.bh as int, bx as int, by as int),
        ensures
            r == cell_index(self.bw as int, bx as int, by as int),
            r < self.buckets@.len(),
    {
        proof {
            lemma_index_bounds(self.bw as int, self.bh as int, bx as int, by as int);
        }
        (by * self.bw + bx) as usize
    }

    proof fn lemma_bucket_on_board(&self, x: int, y: int)
        requires
            self.wf(),
            on_board(self.w as int, self.h as int, x, y),
        ensures
            on_board(self.bw as int, self.bh as int, bucket_of(x, self.cell as int), bucket_of(y, self.cell as int)),
    {
        let c = self.cell as int;
        let w = self.w as int;
        let h = self.h as int;
        assert(0 <= x / c < (w + c - 1) / c) by (nonlinear_arith)
            requires 0 <= x < w, 1 <= c;
        assert(0 <= y / c < (h + c - 1) / c) by (nonlinear_arith)
            requires 0 <= y < h, 1 <= c;
    }

    /// An object of radius `r` at `p` would be spaced from every placed object.
    /// Only the 3 by 3 buckets around `p` are scanned.
    pub fn can_place(&self, p: Point, r: i32) -> (ok: bool)
        requires
            self.wf(),
            on_board(self.w as int, self.h as int, p.x as int, p.y as int),
            0 <= r <= self.cell,
        ensures
            ok == forall|j: int| 0 <= j < self.placed@.len() ==> spaced(p, r as int, #[trigger] self.placed@[j].pos, self.radii@[j] as int),
    {
        proof {
            self.lemma_bucket_on_board(p.x as int, p.y as int);
        }
        let bx = p.x / self.cell;
        let by = p.y / self.cell;
        let bx0 = if bx - 1 > 0 { bx - 1 } else { 0 };
        let by0 = if by - 1 > 0 { by - 1 } else { 0 };
        let bx1 = if bx + 1 < self.bw - 1 { bx + 1 } else { self.bw - 1 };
        let by1 = if by + 1 < self.bh - 1 { by + 1 } else { self.bh - 1 };
        let mut yy = by0;
        while yy <= by1
            invariant
                self.wf(),
                0 <= r <= self.cell,
                bx == bucket_of(p.x as int, self.cell as int),
                by == bucket_of(p.y as int, self.cell as int),
                on_board(self.bw as int, self.bh as int, bx as int, by as int),
                bx0 == (if bx - 1 > 0 { bx - 1 } else { 0 }),
                by0 == (if by - 1 > 0 { by - 1 } else { 0 }),
                bx1 == (if bx + 1 < self.bw - 1 { bx + 1 } else { self.bw - 1 }),
                by1 == (if by + 1 < self.bh - 1 { by + 1 } else { self.bh - 1 }),
                by0 <= yy <= by1 + 1,
                forall|j: int| 0 <= j < self.placed@.len() && by0 <= bucket_of(#[trigger] self.placed@[j].pos.y as int, self.cell as int) < yy
                    && bx0 <= bucket_of(self.placed@[j].pos.x as int, self.cell as int) <= bx1
                    ==> spaced(p, r as int, self.placed@[j].pos, self.radii@[j] as int),
            decreases by1 + 1 - yy,
        {
            let mut xx = bx0;
            while xx <= bx1
                invariant
                    self.wf(),
                    0 <= r <= self.cell,
                    bx == bucket_of(p.x as int, self.cell as int),
                    by == bucket_of(p.y as int, self.cell as int),
                    on_board(self.bw as int, self.bh as int, bx as int, by as int),
                    bx0 == (if bx - 1 > 0 { bx - 1 } else { 0 }),
                    by0 == (if by - 1 > 0 { by - 1 } else { 0 }),
                    bx1 == (if bx + 1 < self.bw - 1 { bx + 1 } else { self.bw - 1 }),
                    by1 == (if by + 1 < self.bh - 1 { by + 1 } else { self.bh - 1 }),
                    by0 <= yy <= by1,
                    bx0 <= xx <= bx1 + 1,
                    forall|j: int| 0 <= j < self.placed@.len() && by0 <= bucket_of(#[trigger] self.placed@[j].pos.y as int, self.cell as int) <= yy
                        && bx0 <= bucket_of(self.placed@[j].pos.x as int, self.cell as int) <= bx1
                        && (bucket_of(self.placed@[j].pos.y as int, self.cell as int) < yy
                            || bucket_of(self.placed@[j].pos.x as int, self.cell as int) < xx)
                        ==> spaced(p, r as int, self.placed@[j].pos, self.radii@[j] as int),
                decreases bx1 + 1 - xx,
            {
                let bi = self.bucket_index(xx, yy);
                let bucket = &self.buckets[bi];
                let mut t: usize = 0;
                while t < bucket.len()
                    invariant
                        self.wf(),
                        0 <= r <= self.cell,
                        bi == cell_index(self.bw as int, xx as int, yy as int),
                        bi < self.buckets@.len(),
                        *bucket == self.buckets@[bi as int],
                        t <= bucket@.len(),
                        forall|u: int| 0 <= u < t ==> spaced(p, r as int, self.placed@[#[trigger] bucket@[u] as int].pos, self.radii@[bucket@[u] as int] as int),
                    decreases bucket@.len() - t,
                {
                    let pi = bucket[t];
                    let q = self.placed[pi].pos;
                    let rq = self.radii[pi];
                    let dmin: i128 = if r < rq { rq as i128 } else { r as i128 };
                    assert(0 <= dmin * dmin <= 0x1000_0000_0000_0000) by (nonlinear_arith)
                        requires 0 <= dmin <= 0x4000_0000;
                    if distance2(p, q) < dmin * dmin {
                        return false;
                    }
                    t = t + 1;
                }
                proof {
                    assert forall|j: int| 0 <= j < self.placed@.len()
                        && bucket_of(#[trigger] self.placed@[j].pos.y as int, self.cell as int) == yy
                        && bucket_of(self.placed@[j].pos.x as int, self.cell as int) == xx
                        implies spaced(p, r as int, self.placed@[j].pos, self.radii@[j] as int) by {
                        let q = self.placed@[j].pos;
                        let c = self.cell as int;
                        self.lemma_bucket_on_board(q.x as int, q.y as int);
                        lemma_index_bounds(self.bw as int, self.bh as int, xx as int, yy as int);
                        assert(lists(self.buckets@[cell_index(self.bw as int, bucket_of(q.x as int, c), bucket_of(q.y as int, c))]@, j));
                        assert(cell_index(self.bw as int, bucket_of(q.x as int, c), bucket_of(q.y as int, c)) == bi);
                        assert(lists(bucket@, j));
                        let u = choose|u: int| 0 <= u < bucket@.len() && bucket@[u] as int == j;
                        assert(0 <= u < t);
                        assert(spaced(p, r as int, self.placed@[bucket@[u] as int].pos, self.radii@[bucket@[u] as int] as int));
                        assert(bucket@[u] as int == j);
                    }
                }
                xx = xx + 1;
            }
            yy = yy + 1;
        }
        proof {
            assert forall|j: int| 0 <= j < self.placed@.len() implies spaced(p, r as int, #[trigger] self.placed@[j].pos, self.radii@[j] as int) by {
                let q = self.placed@[j].pos;
                let c = self.cell as int;
                let dx = p.x - q.x;
                let dy = p.y - q.y;
                let g = min_gap(r as int, self.radii@[j] as int);
                if !spaced(p, r as int, q, self.radii@[j] as int) {
                    assert(0 <= g <= c);
                    assert(dx * dx < g * g && dy * dy < g * g) by (nonlinear_arith)
                        requires dx * dx + dy * dy < g * g;
                    assert(dx < g && -dx < g && dy < g && -dy < g) by (nonlinear_arith)
                        requires dx * dx < g * g, dy * dy < g * g, 0 <= g;
                    lemma_near_buckets(p.x as int, q.x as int, c);
                    lemma_near_buckets(p.y as int, q.y as int, c);
                    self.lemma_bucket_on_board(q.x as int, q.y as int);
                }
            }
        }
        true
    }

    /// Files an object of radius `r` at `p`, which `can_place` accepted.
    pub fn push(&mut self, p: Point, r: i32, kind: u16)
        requires
            old(self).wf(),
            old(self).spacing_ok(),
            on_board(old(self).w as int, old(self).h as int, p.x as int, p.y as int),
            0 <= r <= old(self).cell,
            forall|j: int| 0 <= j < old(self).placed@.len() ==> spaced(p, r as int, #[trigger] old(self).placed@[j].pos, old(self).radii@[j] as int),
        ensures
            final(self).wf(),
            final(self).spacing_ok(),
            final(self).w == old(self).w,
            final(self).h == old(self).h,
            final(self).cell == old(self).cell,
            final(self).placed@ == old(self).placed@.push(PlacedObject { pos: p, kind }),
            final(self).radii@ == old(self).radii@.push(r),
    {
        proof {
            self.lemma_bucket_on_board(p.x as int, p.y as int);
        }
        let bi = self.bucket_index(p.x / self.cell, p.y / self.cell);
        let n = self.placed.len();
        let ghost old_self = *self;
        self.buckets[bi].push(n);
        self.placed.push(PlacedObject { pos: p, kind });
        self.radii.push(r);
        proof {
            assert(self.buckets@[bi as int]@ == old_self.buckets@[bi as int]@.push(n));
            assert(forall|b: int| 0 <= b < self.buckets@.len() && b != bi ==> #[trigger] self.buckets@[b] == old_self.buckets@[b]);
            assert forall|j: int| 0 <= j < self.placed@.len() implies {
                let q = #[trigger] self.placed@[j].pos;
                &&& on_board(self.w as int, self.h as int, q.x as int, q.y as int)
                &&& 0 <= self.radii@[j] <= self.cell
                &&& lists(self.buckets@[cell_index(self.bw as int, bucket_of(q.x as int, self.cell as int), bucket_of(q.y as int, self.cell as int))]@, j)
            } by {
                if j < n {
                    let q = old_self.placed@[j].pos;
                    assert(self.placed@[j] == old_self.placed@[j]);
                    assert(self.radii@[j] == old_self.radii@[j]);
                    let b = cell_index(self.bw as int, bucket_of(q.x as int, self.cell as int), bucket_of(q.y as int, self.cell as int));
                    assert(lists(old_self.buckets@[b]@, j));
                    old_self.lemma_bucket_on_board(q.x as int, q.y as int);
                    lemma_index_bounds(self.bw as int, self.bh as int, bucket_of(q.x as int, self.cell as int), bucket_of(q.y as int, self.cell as int));
                    if b == bi {
                        let u = choose|u: int| 0 <= u < old_self.buckets@[b]@.len() && old_self.buckets@[b]@[u] as int == j;
                        assert(self.buckets@[b]@[u] as int == j);
                    }
                } else {
                    assert(self.buckets@[bi as int]@[self.buckets@[bi as int]@.len() - 1] as int == j);
                    assert(self.placed@[j].pos == p);
                }
            }
            assert forall|b: int, t: int| 0 <= b < self.buckets@.len() && 0 <= t < self.buckets@[b]@.len()
                implies #[trigger] self.buckets@[b]@[t] < self.placed@.len() by {
                if b == bi && t < old_self.buckets@[b]@.len() {
                    assert(self.buckets@[b]@[t] == old_self.buckets@[b]@[t]);
                }
            }
            assert forall|i: int, j: int| 0 <= i < j < self.placed@.len() implies spaced(
                #[trigger] self.placed@[i].pos,
                self.radii@[i] as int,
                #[trigger] self.placed@[j].pos,
                self.radii@[j] as int,
            ) by {
                if j == n {
                    assert(spaced(p, r as int, old_self.placed@[i].pos, old_self.radii@[i] as int));
                    let a = p;
                    let b = old_self.placed@[i].pos;
                    assert(dist2(a.x as int, a.y as int, b.x as int, b.y as int) == dist2(b.x as int, b.y as int, a.x as int, a.y as int)) by (nonlinear_arith);
                } else {
                    assert(old_self.placed@[i] == self.placed@[i]);
                    assert(old_self.placed@[j] == self.placed@[j]);
                }
            }
        }
    }
}


/// The allowed tiles of terrain class `class`, as row-major indices.
pub fn region_tiles(classes: &Grid<u8>, allowed: &Vec<bool>, class: u8) -> (r: Vec<usize>)
    requires
        classes.wf(),
        mask_ok(allowed@, classes.w as int, classes.h as int),
    ensures
        forall|j: int| 0 <= j < r@.len() ==> {
            let i = #[trigger] r@[j] as int;
            &&& 0 <= i < classes.w * classes.h
            &&& allowed@[i]
            &&& classes.cells()[i] == class
        },
        (exists|i: int| 0 <= i < classes.w * classes.h && allowed@[i] && classes.cells()[i] == class) ==> r@.len() > 0,
        r@.len() == count_class(allowed@, classes.cells(), class, classes.w * classes.h),
{
    let n = allowed.len();
    let mut out: Vec<usize> = Vec::new();
    let mut i: usize = 0;
    while i < n
        invariant
            n == allowed@.len(),
            n == classes.cells().len(),
            classes.wf(),
            i <= n,
            forall|j: int| 0 <= j < out@.len() ==> {
                let t = #[trigger] out@[j] as int;
                &&& 0 <= t < i
                &&& allowed@[t]
                &&& classes.cells()[t] == class
            },
            (exists|t: int| 0 <= t < i && allowed@[t] && classes.cells()[t] == class) ==> out@.len() > 0,
            out@.len() == count_class(allowed@, classes.cells(), class, i as int),
        decreases n - i,
    {
        if allowed[i] && classes.data[i] == class {
            out.push(i);
        }
        i = i + 1;
    }
    out
}

/// Object types by descending radius; equal radii keep their template order.
pub open spec fn desc_by_radius(order: Seq<usize>, types: Seq<ObjectTypeRule>) -> bool {
    forall|i: int, j: int| 0 <= i < j < order.len() ==> types[#[trigger] order[i] as int].radius >= types[#[trigger] order[j] as int].radius
}

pub fn type_order(types: &Vec<ObjectTypeRule>) -> (order: Vec<usize>)
    ensures
        order@.len() == types@.len(),
        order@.to_multiset() == Seq::new(types@.len(), |i: int| i as usize).to_multiset(),
        forall|j: int| 0 <= j < order@.len() ==> #[trigger] order@[j] < types@.len(),
        desc_by_radius(order@, types@),
{
    let n = types.len();
    let ghost all = Seq::new(n as nat, |i: int| i as usize);
    let mut out: Vec<usize> = Vec::new();
    let mut i: usize = 0;
    assert(out@ =~= all.take(0));
    while i < n
        invariant
            n == types@.len(),
            all == Seq::new(n as nat, |i: int| i as usize),
            i <= n,
            out@.len() == i,
            out@.to_multiset() == all.take(i as int).to_multiset(),
            forall|j: int| 0 <= j < out@.len() ==> #[trigger] out@[j] < i,
            desc_by_radius(out@, types@),
        decreases n - i,
    {
        let key = types[i].radius;
        let mut p: usize = 0;
        while p < out.len() && types[out[p]].radius >= key
            invariant
                n == types@.len(),
                i < n,
                p <= out@.len(),
                forall|j: int| 0 <= j < out@.len() ==> #[trigger] out@[j] < i,
                desc_by_radius(out@, types@),
                key == types@[i as int].radius,
                forall|q: int| 0 <= q < p ==> types@[#[trigger] out@[q] as int].radius >= key,
            decreases out@.len() - p,
        {
            p = p + 1;
        }
        proof {
            if p < out@.len() {
                assert forall|q: int| p <= q < out@.len() implies types@[#[trigger] out@[q] as int].radius < key by {
                    if q > p {
                        assert(types@[out@[p as int] as int].radius >= types@[out@[q] as int].radius);
                    }
                }
            }
        }
        let ghost before = out@;
        out.insert(p, i);
        proof {
            assert(all.take(i + 1) == all.take(i as int).push(i));
            vstd::seq_lib::to_multiset_build(all.take(i as int), i);
            vstd::seq_lib::to_multiset_insert(before, p as int, i);
            assert forall|q1: int, q2: int| 0 <= q1 < q2 < out@.len() implies types@[#[trigger] out@[q1] as int].radius >= types@[#[trigger] out@[q2] as int].radius by {
                if q2 < p {
                } else if q2 == p {
                } else if q1 < p {
                    assert(out@[q2] == before[q2 - 1]);
                } else if q1 == p {
                    assert(out@[q2] == before[q2 - 1]);
                } else {
                    assert(out@[q2] == before[q2 - 1]);
                    assert(out@[q1] == before[q1 - 1]);
                }
            }
            assert forall|j: int| 0 <= j < out@.len() implies #[trigger] out@[j] < i + 1 by {
                if j < p {
                    assert(out@[j] == before[j]);
                } else if j > p {
                    assert(out@[j] == before[j - 1]);
                }
            }
        }
        i = i + 1;
    }
    assert(all.take(n as int) == all);
    out
}

/// The number of objects that `count` per `area` tiles asks for on `n` tiles,
/// rounded half up; none when `area` is 0.
pub open spec fn density_target(count: int, area: int, n: int) -> int {
    if area > 0 { (2 * count * n + area) / (2 * area) } else { 0 }
}

/// The cells, among the first `n`, that are allowed and of class `c`.
pub open spec fn count_class(al: Seq<bool>, cells: Seq<u8>, c: u8, n: int) -> int
    decreases n,
{
    if n <= 0 { 0 } else { count_class(al, cells, c, n - 1) + if al[n - 1] && cells[n - 1] == c { 1int } else { 0int } }
}

/// Whether each cell lies outside the exclusion disks, row-major.
pub open spec fn allowed_seq(bases: Seq<Point>, base_radius: int, shrines: Seq<Point>, shrine_radius: int, w: int, h: int) -> Seq<bool> {
    Seq::new((w * h) as nat, |i: int| !excluded(bases, base_radius, shrines, shrine_radius, i % w, i / w))
}

/// The objects rule `k` of type `t` asks for: its density times the allowed
/// tiles of its region, rounded half up.
pub open spec fn rule_budget(types: Seq<ObjectTypeRule>, t: int, k: int, cells: Seq<u8>, al: Seq<bool>) -> int {
    let rr = types[t].per_region@[k];
    density_target(rr.count as int, rr.area as int, count_class(al, cells, region_class(rr.region), cells.len() as int))
}

/// The objects the first `m` rules of type `t` ask for together.
pub open spec fn type_budget(types: Seq<ObjectTypeRule>, t: int, m: int, cells: Seq<u8>, al: Seq<bool>) -> int
    decreases m,
{
    if m <= 0 { 0 } else { type_budget(types, t, m - 1, cells, al) + rule_budget(types, t, m - 1, cells, al) }
}

/// How many of `r` are of type `t`.
pub open spec fn kind_count(r: Seq<PlacedObject>, t: int) -> int
    decreases r.len(),
{
    if r.len() == 0 { 0 } else { kind_count(r.drop_last(), t) + if r.last().kind as int == t { 1int } else { 0int } }
}

proof fn lemma_count_class_nonneg(al: Seq<bool>, cells: Seq<u8>, c: u8, n: int)
    ensures
        count_class(al, cells, c, n) >= 0,
    decreases n,
{
    if n > 0 {
        lemma_count_class_nonneg(al, cells, c, n - 1);
    }
}

/// Rule `k` of type `t` asks for at least one object per two tiles, and its
/// region has an allowed tile.
pub open spec fn rule_active(
    types: Seq<ObjectTypeRule>,
    t: int,
    k: int,
    classes: Grid<u8>,
    bases: Seq<Point>,
    base_radius: int,
    shrines: Seq<Point>,
    shrine_radius: int,
) -> bool {
    let rr = types[t].per_region@[k];
    &&& 0 <= t < types.len()
    &&& 0 <= k < types[t].per_region@.len()
    &&& rr.area > 0
    &&& 2 * rr.count >= rr.area
    &&& exists|x: int, y: int| on_board(classes.w as int, classes.h as int, x, y)
        && !excluded(bases, base_radius, shrines, shrine_radius, x, y)
        && #[trigger] classes.at(x, y) == region_class(rr.region)
}

/// Every placed object is a valid type on an allowed tile of a region that its
/// type has a density for.
pub open spec fn placed_ok(
    r: Seq<PlacedObject>,
    types: Seq<ObjectTypeRule>,
    classes: Grid<u8>,
    bases: Seq<Point>,
    base_radius: int,
    shrines: Seq<Point>,
    shrine_radius: int,
) -> bool {
    forall|j: int| 0 <= j < r.len() ==> {
        let o = #[trigger] r[j];
        &&& (o.kind as int) < types.len()
        &&& on_board(classes.w as int, classes.h as int, o.pos.x as int, o.pos.y as int)
        &&& !excluded(bases, base_radius, shrines, shrine_radius, o.pos.x as int, o.pos.y as int)
        &&& exists|k: int| 0 <= k < types[o.kind as int].per_region@.len()
            && region_class((#[trigger] types[o.kind as int].per_region@[k]).region) == classes.at(o.pos.x as int, o.pos.y as int)
            && types[o.kind as int].per_region@[k].count > 0 && types[o.kind as int].per_region@[k].area > 0
    }
}

/// Every two placed objects stand at least the larger of their radii apart.
pub open spec fn all_spaced(r: Seq<PlacedObject>, types: Seq<ObjectTypeRule>) -> bool {
    forall|i: int, j: int| 0 <= i < j < r.len() ==> spaced(
        (#[trigger] r[i]).pos,
        types[r[i].kind as int].radius as int,
        (#[trigger] r[j]).pos,
        types[r[j].kind as int].radius as int,
    )
}

/// Phase 5: scatters objects. Types go by descending radius; for each of a
/// type's density rules, random allowed tiles of the rule's region are tried,
/// up to 50 tries per wanted object, and a tile is taken only when the object
/// would be spaced from every object placed so far.
pub fn generate_objects(
    tpl: &MapTemplate,
    classes: &Grid<u8>,
    base_centers: &Vec<Point>,
    shrines: &Vec<Point>,
    extra_seed: u32,
) -> (r: Vec<PlacedObject>)
    requires
        classes.wf(),
        radii_ok(tpl.objects.types@),
        tpl.objects.types@.len() <= 0x1_0000,
    ensures
        placed_ok(r@, tpl.objects.types@, *classes, base_centers@, tpl.player_spawns.base_radius as int, shrines@, tpl.terrain.shrine_grass_radius as int),
        all_spaced(r@, tpl.objects.types@),
        forall|t: int| 0 <= t < tpl.objects.types@.len() ==> #[trigger] kind_count(r@, t) <= type_budget(
            tpl.objects.types@, t, tpl.objects.types@[t].per_region@.len() as int, classes.cells(),
            allowed_seq(base_centers@, tpl.player_spawns.base_radius as int, shrines@, tpl.terrain.shrine_grass_radius as int, classes.w as int, classes.h as int),
        ),
        forall|a: int, b: int| 0 <= a < b < r@.len()
            ==> tpl.objects.types@[(#[trigger] r@[a]).kind as int].radius >= tpl.objects.types@[(#[trigger] r@[b]).kind as int].radius,
        (exists|t: int, k: int| rule_active(tpl.objects.types@, t, k, *classes, base_centers@, tpl.player_spawns.base_radius as int, shrines@, tpl.terrain.shrine_grass_radius as int))
            ==> r@.len() > 0,
{
    let w = classes.w;
    let h = classes.h;
    let ghost types = tpl.objects.types@;
    let ghost br = tpl.player_spawns.base_radius as int;
    let ghost sr = tpl.terrain.shrine_grass_radius as int;
    let allowed = allowed_mask(w, h, base_centers, tpl.player_spawns.base_radius, shrines, tpl.terrain.shrine_grass_radius);
    let tiles_grass = region_tiles(classes, &allowed, TERRAIN_GRASSLAND);
    let tiles_forest = region_tiles(classes, &allowed, TERRAIN_FOREST);
    let tiles_water = region_tiles(classes, &allowed, TERRAIN_WATER);
    let tiles_mountain = region_tiles(classes, &allowed, TERRAIN_MOUNTAIN);
    let mut max_r: i32 = 1;
    let mut t: usize = 0;
    while t < tpl.objects.types.len()
        invariant
            types == tpl.objects.types@,
            radii_ok(types),
            t <= types.len(),
            1 <= max_r <= 0x4000_0000,
            forall|q: int| 0 <= q < t ==> (#[trigger] types[q]).radius <= max_r,
        decreases types.len() - t,
    {
        if tpl.objects.types[t].radius > max_r {
            max_r = tpl.objects.types[t].radius;
        }
        t = t + 1;
    }
    let mut placement = Placement::new(w, h, max_r);
    let mut rng = Rng64::new(((tpl.objects.base_seed as u64) << 32u64) ^ (extra_seed as u64));
    let order = type_order(&tpl.objects.types);
    let ghost cells = classes.cells();
    proof {
        let all = Seq::new(types.len(), |i: int| i as usize);
        assert(all.no_duplicates());
        all.lemma_multiset_has_no_duplicates();
        order@.lemma_multiset_has_no_duplicates_conv();
        if w > 0 {
            assert forall|i: int| 0 <= i < w * h implies #[trigger] allowed@[i] == allowed_seq(base_centers@, br, shrines@, sr, w as int, h as int)[i] by {
                lemma_index_inverse(w as int, h as int, i);
                assert(flag(allowed@, w as int, i % (w as int), i / (w as int)) == allowed@[i]);
            }
        }
        assert(allowed@ =~= allowed_seq(base_centers@, br, shrines@, sr, w as int, h as int));
    }
    let mut oi: usize = 0;
    while oi < order.len()
        invariant
            types == tpl.objects.types@,
            radii_ok(types),
            types.len() <= 0x1_0000,
            forall|q: int| 0 <= q < types.len() ==> (#[trigger] types[q]).radius <= max_r,
            forall|j: int| 0 <= j < order@.len() ==> #[trigger] order@[j] < types.len(),
            classes.wf(),
            w == classes.w,
            h == classes.h,
            mask_ok(allowed@, w as int, h as int),
            forall|x: int, y: int| on_board(w as int, h as int, x, y) ==> #[trigger] flag(allowed@, w as int, x, y)
                == !excluded(base_centers@, br, shrines@, sr, x, y),
            br == tpl.player_spawns.base_radius as int,
            sr == tpl.terrain.shrine_grass_radius as int,
            placement.wf(),
            placement.spacing_ok(),
            placement.w == w,
            placement.h == h,
            placement.cell == max_r,
            placement.placed@.len() == placement.radii@.len(),
            forall|j: int| 0 <= j < placement.placed@.len() ==> placement.radii@[j] == types[(#[trigger] placement.placed@[j]).kind as int].radius,
            placed_ok(placement.placed@, types, *classes, base_centers@, br, shrines@, sr),
            forall|j: int| 0 <= j < tiles_grass@.len() ==> {
                let i = #[trigger] tiles_grass@[j] as int;
                0 <= i < w * h && allowed@[i] && classes.cells()[i] == TERRAIN_GRASSLAND
            },
            forall|j: int| 0 <= j < tiles_forest@.len() ==> {
                let i = #[trigger] tiles_forest@[j] as int;
                0 <= i < w * h && allowed@[i] && classes.cells()[i] == TERRAIN_FOREST
            },
            forall|j: int| 0 <= j < tiles_water@.len() ==> {
                let i = #[trigger] tiles_water@[j] as int;
                0 <= i < w * h && allowed@[i] && classes.cells()[i] == TERRAIN_WATER
            },
            forall|j: int| 0 <= j < tiles_mountain@.len() ==> {
                let i = #[trigger] tiles_mountain@[j] as int;
                0 <= i < w * h && allowed@[i] && classes.cells()[i] == TERRAIN_MOUNTAIN
            },
            (exists|i: int| 0 <= i < w * h && allowed@[i] && classes.cells()[i] == TERRAIN_GRASSLAND) ==> tiles_grass@.len() > 0,
            (exists|i: int| 0 <= i < w * h && allowed@[i] && classes.cells()[i] == TERRAIN_FOREST) ==> tiles_forest@.len() > 0,
            (exists|i: int| 0 <= i < w * h && allowed@[i] && classes.cells()[i] == TERRAIN_WATER) ==> tiles_water@.len() > 0,
            (exists|i: int| 0 <= i < w * h && allowed@[i] && classes.cells()[i] == TERRAIN_MOUNTAIN) ==> tiles_mountain@.len() > 0,
            forall|a: int, b: int| 0 <= a < b < placement.placed@.len()
                ==> types[(#[trigger] placement.placed@[a]).kind as int].radius >= types[(#[trigger] placement.placed@[b]).kind as int].radius,
            forall|a: int, q: int| 0 <= a < placement.placed@.len() && oi <= q < order@.len()
                ==> types[(#[trigger] placement.placed@[a]).kind as int].radius >= types[#[trigger] order@[q] as int].radius,
            desc_by_radius(order@, types),
            order@.no_duplicates(),
            cells == classes.cells(),
            tiles_grass@.len() == count_class(allowed@, cells, TERRAIN_GRASSLAND, w * h),
            tiles_forest@.len() == count_class(allowed@, cells, TERRAIN_FOREST, w * h),
            tiles_water@.len() == count_class(allowed@, cells, TERRAIN_WATER, w * h),
            tiles_mountain@.len() == count_class(allowed@, cells, TERRAIN_MOUNTAIN, w * h),
            forall|q: int| 0 <= q < oi ==> #[trigger] kind_count(placement.placed@, order@[q] as int)
                <= type_budget(types, order@[q] as int, types[order@[q] as int].per_region@.len() as int, cells, allowed@),
            forall|q: int| oi <= q < order@.len() ==> #[trigger] kind_count(placement.placed@, order@[q] as int) == 0,
            order@.len() == types.len(),
            placement.placed@.len() > 0 || forall|q: int, k: int| 0 <= q < oi ==> !#[trigger] rule_active(types, order@[q] as int, k, *classes, base_centers@, br, shrines@, sr),
        decreases order@.len() - oi,
    {
        let ti = order[oi];
        let tr = &tpl.objects.types[ti];
        let mut ri: usize = 0;
        while ri < tr.per_region.len()
            invariant
                types == tpl.objects.types@,
                radii_ok(types),
                types.len() <= 0x1_0000,
                ti < types.len(),
                *tr == types[ti as int],
                forall|q: int| 0 <= q < types.len() ==> (#[trigger] types[q]).radius <= max_r,
                classes.wf(),
                w == classes.w,
                h == classes.h,
                mask_ok(allowed@, w as int, h as int),
                forall|x: int, y: int| on_board(w as int, h as int, x, y) ==> #[trigger] flag(allowed@, w as int, x, y)
                    == !excluded(base_centers@, br, shrines@, sr, x, y),
                br == tpl.player_spawns.base_radius as int,
                sr == tpl.terrain.shrine_grass_radius as int,
                placement.wf(),
                placement.spacing_ok(),
                placement.w == w,
                placement.h == h,
                placement.cell == max_r,
                forall|j: int| 0 <= j < placement.placed@.len() ==> placement.radii@[j] == types[(#[trigger] placement.placed@[j]).kind as int].radius,
                placed_ok(placement.placed@, types, *classes, base_centers@, br, shrines@, sr),
                forall|j: int| 0 <= j < tiles_grass@.len() ==> {
                    let i = #[trigger] tiles_grass@[j] as int;
                    0 <= i < w * h && allowed@[i] && classes.cells()[i] == TERRAIN_GRASSLAND
                },
                forall|j: int| 0 <= j < tiles_forest@.len() ==> {
                    let i = #[trigger] tiles_forest@[j] as int;
                    0 <= i < w * h && allowed@[i] && classes.cells()[i] == TERRAIN_FOREST
                },
                forall|j: int| 0 <= j < tiles_water@.len() ==> {
                    let i = #[trigger] tiles_water@[j] as int;
                    0 <= i < w * h && allowed@[i] && classes.cells()[i] == TERRAIN_WATER
                },
                forall|j: int| 0 <= j < tiles_mountain@.len() ==> {
                    let i = #[trigger] tiles_mountain@[j] as int;
                    0 <= i < w * h && allowed@[i] && classes.cells()[i] == TERRAIN_MOUNTAIN
                },
                (exists|i: int| 0 <= i < w * h && allowed@[i] && classes.cells()[i] == TERRAIN_GRASSLAND) ==> tiles_grass@.len() > 0,
                (exists|i: int| 0 <= i < w * h && allowed@[i] && classes.cells()[i] == TERRAIN_FOREST) ==> tiles_forest@.len() > 0,
                (exists|i: int| 0 <= i < w * h && allowed@[i] && classes.cells()[i] == TERRAIN_WATER) ==> tiles_water@.len() > 0,
                (exists|i: int| 0 <= i < w * h && allowed@[i] && classes.cells()[i] == TERRAIN_MOUNTAIN) ==> tiles_mountain@.len() > 0,
                forall|a: int, b: int| 0 <= a < b < placement.placed@.len()
                    ==> types[(#[trigger] placement.placed@[a]).kind as int].radius >= types[(#[trigger] placement.placed@[b]).kind as int].radius,
                forall|a: int, q: int| 0 <= a < placement.placed@.len() && oi <= q < order@.len()
                    ==> types[(#[trigger] placement.placed@[a]).kind as int].radius >= types[#[trigger] order@[q] as int].radius,
                desc_by_radius(order@, types),
                order@.no_duplicates(),
                cells == classes.cells(),
                tiles_grass@.len() == count_class(allowed@, cells, TERRAIN_GRASSLAND, w * h),
                tiles_forest@.len() == count_class(allowed@, cells, TERRAIN_FOREST, w * h),
                tiles_water@.len() == count_class(allowed@, cells, TERRAIN_WATER, w * h),
                tiles_mountain@.len() == count_class(allowed@, cells, TERRAIN_MOUNTAIN, w * h),
            tiles_grass@.len() == count_class(allowed@, cells, TERRAIN_GRASSLAND, w * h),
            tiles_forest@.len() == count_class(allowed@, cells, TERRAIN_FOREST, w * h),
            tiles_water@.len() == count_class(allowed@, cells, TERRAIN_WATER, w * h),
            tiles_mountain@.len() == count_class(allowed@, cells, TERRAIN_MOUNTAIN, w * h),
                forall|q: int| 0 <= q < oi ==> #[trigger] kind_count(placement.placed@, order@[q] as int)
                    <= type_budget(types, order@[q] as int, types[order@[q] as int].per_region@.len() as int, cells, allowed@),
                forall|q: int| oi < q < order@.len() ==> #[trigger] kind_count(placement.placed@, order@[q] as int) == 0,
                kind_count(placement.placed@, ti as int) <= type_budget(types, ti as int, ri as int, cells, allowed@),
                ri <= tr.per_region@.len(),
                order@.len() == types.len(),
                oi < order@.len(),
                ti == order@[oi as int],
                placement.placed@.len() > 0 || ((forall|q: int, k: int| 0 <= q < oi ==> !#[trigger] rule_active(types, order@[q] as int, k, *classes, base_centers@, br, shrines@, sr))
                    && forall|k: int| 0 <= k < ri ==> !#[trigger] rule_active(types, ti as int, k, *classes, base_centers@, br, shrines@, sr)),
            decreases tr.per_region@.len() - ri,
        {
            let rr = tr.per_region[ri];
            let class = match rr.region {
                Region::Grassland => TERRAIN_GRASSLAND,
                Region::Forest => TERRAIN_FOREST,
                Region::Water => TERRAIN_WATER,
                Region::Mountain => TERRAIN_MOUNTAIN,
            };
            let tiles = match rr.region {
                Region::Grassland => &tiles_grass,
                Region::Forest => &tiles_forest,
                Region::Water => &tiles_water,
                Region::Mountain => &tiles_mountain,
            };
            assert(forall|j: int| 0 <= j < tiles@.len() ==> {
                let i = #[trigger] tiles@[j] as int;
                0 <= i < w * h && allowed@[i] && classes.cells()[i] == class
            });
            assert(class == region_class(rr.region));
            assert(tiles@.len() == count_class(allowed@, cells, class, w * h));
            assert(rr == types[ti as int].per_region@[ri as int]);
            let ghost kc0 = kind_count(placement.placed@, ti as int);
            proof {
                if rule_active(types, ti as int, ri as int, *classes, base_centers@, br, shrines@, sr) {
                    let (x, y) = choose|x: int, y: int| on_board(classes.w as int, classes.h as int, x, y)
                        && !excluded(base_centers@, br, shrines@, sr, x, y)
                        && #[trigger] classes.at(x, y) == region_class(rr.region);
                    lemma_index_bounds(w as int, h as int, x, y);
                    assert(flag(allowed@, w as int, x, y));
                    assert(allowed@[cell_index(w as int, x, y)] && classes.cells()[cell_index(w as int, x, y)] == class);
                    assert(tiles@.len() > 0);
                }
            }
            let ghost placed_before = placement.placed@.len();
            if tiles.len() > 0 && rr.area > 0 {
                let n = tiles.len() as u128;
                let c2: u128 = 2 * rr.count as u128;
                assert(c2 * n <= 0x2_0000_0000_0000_0000_0000_0000) by (nonlinear_arith)
                    requires c2 <= 0x1_ffff_fffe, n <= 0xffff_ffff_ffff_ffff;
                let target0: u128 = (c2 * n + rr.area as u128) / (2 * rr.area as u128);
                assert(target0 <= c2 * n + rr.area as u128) by (nonlinear_arith)
                    requires target0 == (c2 * n + rr.area as u128) / (2 * rr.area as u128), rr.area > 0;
                proof {
                    if 2 * rr.count >= rr.area {
                        assert(target0 >= 1) by (nonlinear_arith)
                            requires target0 == (c2 * n + rr.area as u128) / (2 * rr.area as u128), c2 == 2 * rr.count, 2 * rr.count >= rr.area, n >= 1, rr.area > 0;
                    }
                }
                proof {
                    if rr.count == 0 {
                        assert(target0 == 0) by (nonlinear_arith)
                            requires target0 == (c2 * n + rr.area as u128) / (2 * rr.area as u128), c2 == 0, rr.area > 0;
                    }
                }
                let max_attempts: u128 = target0 * 50;
                let mut target: u128 = target0;
                let mut attempts: u128 = 0;
                while target > 0 && attempts < max_attempts
                    invariant
                        types == tpl.objects.types@,
                        radii_ok(types),
                        types.len() <= 0x1_0000,
                        ti < types.len(),
                        *tr == types[ti as int],
                        0 <= ri < tr.per_region@.len(),
                        rr == tr.per_region@[ri as int],
                        class == region_class(rr.region),
                        forall|q: int| 0 <= q < types.len() ==> (#[trigger] types[q]).radius <= max_r,
                        classes.wf(),
                        w == classes.w,
                        h == classes.h,
                        mask_ok(allowed@, w as int, h as int),
                        forall|x: int, y: int| on_board(w as int, h as int, x, y) ==> #[trigger] flag(allowed@, w as int, x, y)
                            == !excluded(base_centers@, br, shrines@, sr, x, y),
                        placement.wf(),
                        placement.spacing_ok(),
                        placement.w == w,
                        placement.h == h,
                        placement.cell == max_r,
                        forall|j: int| 0 <= j < placement.placed@.len() ==> placement.radii@[j] == types[(#[trigger] placement.placed@[j]).kind as int].radius,
                        placed_ok(placement.placed@, types, *classes, base_centers@, br, shrines@, sr),
                        tiles@.len() > 0,
                        forall|j: int| 0 <= j < tiles@.len() ==> {
                            let i = #[trigger] tiles@[j] as int;
                            0 <= i < w * h && allowed@[i] && classes.cells()[i] == class
                        },
                        max_attempts <= 0x100_0000_0000_0000_0000_0000_0000,
                        attempts <= max_attempts,
                        forall|a: int, b: int| 0 <= a < b < placement.placed@.len()
                            ==> types[(#[trigger] placement.placed@[a]).kind as int].radius >= types[(#[trigger] placement.placed@[b]).kind as int].radius,
                        forall|a: int, q: int| 0 <= a < placement.placed@.len() && oi <= q < order@.len()
                            ==> types[(#[trigger] placement.placed@[a]).kind as int].radius >= types[#[trigger] order@[q] as int].radius,
                        desc_by_radius(order@, types),
                        oi < order@.len(),
                        ti == order@[oi as int],
                        order@.no_duplicates(),
                        cells == classes.cells(),
                        tiles_grass@.len() == count_class(allowed@, cells, TERRAIN_GRASSLAND, w * h),
                        tiles_forest@.len() == count_class(allowed@, cells, TERRAIN_FOREST, w * h),
                        tiles_water@.len() == count_class(allowed@, cells, TERRAIN_WATER, w * h),
                        tiles_mountain@.len() == count_class(allowed@, cells, TERRAIN_MOUNTAIN, w * h),
                tiles_grass@.len() == count_class(allowed@, cells, TERRAIN_GRASSLAND, w * h),
                tiles_forest@.len() == count_class(allowed@, cells, TERRAIN_FOREST, w * h),
                tiles_water@.len() == count_class(allowed@, cells, TERRAIN_WATER, w * h),
                tiles_mountain@.len() == count_class(allowed@, cells, TERRAIN_MOUNTAIN, w * h),
            tiles_grass@.len() == count_class(allowed@, cells, TERRAIN_GRASSLAND, w * h),
            tiles_forest@.len() == count_class(allowed@, cells, TERRAIN_FOREST, w * h),
            tiles_water@.len() == count_class(allowed@, cells, TERRAIN_WATER, w * h),
            tiles_mountain@.len() == count_class(allowed@, cells, TERRAIN_MOUNTAIN, w * h),
                        forall|q: int| 0 <= q < oi ==> #[trigger] kind_count(placement.placed@, order@[q] as int)
                            <= type_budget(types, order@[q] as int, types[order@[q] as int].per_region@.len() as int, cells, allowed@),
                        forall|q: int| oi < q < order@.len() ==> #[trigger] kind_count(placement.placed@, order@[q] as int) == 0,
                        kind_count(placement.placed@, ti as int) + target <= type_budget(types, ti as int, ri as int, cells, allowed@) + target0,
                        max_attempts == target0 * 50,
                        target <= target0,
                        target0 > 0 ==> rr.count > 0,
                        rr.area > 0,
                        placement.placed@.len() >= placed_before,
                        placement.placed@.len() > 0 || (attempts == 0 && target == target0),
                    decreases max_attempts - attempts,
                {
                    attempts = attempts + 1;
                    let pick = tiles[rng.range_usize(tiles.len())];
                    proof {
                        lemma_index_inverse(w as int, h as int, pick as int);
                    }
                    let x = (pick % w as usize) as i32;
                    let y = (pick / w as usize) as i32;
                    let p = Point { x, y };
                    proof {
                        assert(allowed@[pick as int]);
                    }
                    if !allowed[pick] {
                        continue;
                    }
                    let ok = placement.can_place(p, tr.radius);
                    proof {
                        if placement.placed@.len() == 0 {
                            assert(ok);
                        }
                    }
                    if ok {
                        let ghost before = placement.placed@;
                        placement.push(p, tr.radius, ti as u16);
                        proof {
                            assert(flag(allowed@, w as int, x as int, y as int));
                            assert(classes.at(x as int, y as int) == class);
                            assert forall|j: int| 0 <= j < placement.placed@.len() implies {
                                let o = #[trigger] placement.placed@[j];
                                &&& (o.kind as int) < types.len()
                                &&& on_board(classes.w as int, classes.h as int, o.pos.x as int, o.pos.y as int)
                                &&& !excluded(base_centers@, br, shrines@, sr, o.pos.x as int, o.pos.y as int)
                                &&& exists|k: int| 0 <= k < types[o.kind as int].per_region@.len()
                                    && region_class((#[trigger] types[o.kind as int].per_region@[k]).region) == classes.at(o.pos.x as int, o.pos.y as int)
                                    && types[o.kind as int].per_region@[k].count > 0 && types[o.kind as int].per_region@[k].area > 0
                            } by {
                                if j < before.len() {
                                    assert(placement.placed@[j] == before[j]);
                                } else {
                                    let o = placement.placed@[j];
                                    assert(o == PlacedObject { pos: p, kind: ti as u16 });
                                    assert(o.kind as int == ti);
                                    assert(types[ti as int].per_region@[ri as int] == rr);
                                    assert(region_class(types[o.kind as int].per_region@[ri as int].region) == classes.at(o.pos.x as int, o.pos.y as int));
                                }
                            }
                        }
                        proof {
                            let o = PlacedObject { pos: p, kind: ti as u16 };
                            assert(placement.placed@.drop_last() == before);
                            assert(placement.placed@.last() == o);
                            assert(o.kind as int == ti);
                            assert(kind_count(placement.placed@, ti as int) == kind_count(before, ti as int) + 1);
                            assert forall|q: int| 0 <= q < order@.len() && q != oi implies #[trigger] kind_count(placement.placed@, order@[q] as int)
                                == kind_count(before, order@[q] as int) by {
                                assert(order@[q] != order@[oi as int]);
                            }
                        }
                        target = target - 1;
                    }
                }
                proof {
                    assert(target0 as int == rule_budget(types, ti as int, ri as int, cells, allowed@));
                }
            } else {
                proof {
                    let n2 = count_class(allowed@, cells, class, w * h);
                    assert(0 <= n2) by {
                        lemma_count_class_nonneg(allowed@, cells, class, w * h);
                    }
                    if rr.area > 0 {
                        assert(0 <= (2 * (rr.count as int) * n2 + rr.area) / (2 * (rr.area as int))) by (nonlinear_arith)
                            requires 0 <= n2, rr.area > 0;
                    }
                    assert(rule_budget(types, ti as int, ri as int, cells, allowed@) >= 0);
                }
            }
            ri = ri + 1;
        }
        proof {
            assert(ri as int == types[ti as int].per_region@.len());
            assert forall|q: int| 0 <= q < oi + 1 implies #[trigger] kind_count(placement.placed@, order@[q] as int)
                <= type_budget(types, order@[q] as int, types[order@[q] as int].per_region@.len() as int, cells, allowed@) by {
                if q == oi {
                    assert(order@[q] == ti);
                }
            }
        }
        oi = oi + 1;
    }
    proof {
        assert forall|i: int, j: int| 0 <= i < j < placement.placed@.len() implies spaced(
            (#[trigger] placement.placed@[i]).pos,
            types[placement.placed@[i].kind as int].radius as int,
            (#[trigger] placement.placed@[j]).pos,
            types[placement.placed@[j].kind as int].radius as int,
        ) by {
            assert(spaced(placement.placed@[i].pos, placement.radii@[i] as int, placement.placed@[j].pos, placement.radii@[j] as int));
        }
    }
    proof {
        if exists|t: int, k: int| rule_active(types, t, k, *classes, base_centers@, br, shrines@, sr) {
            let (t, k) = choose|t: int, k: int| rule_active(types, t, k, *classes, base_centers@, br, shrines@, sr);
            if placement.placed@.len() == 0 {
                let all = Seq::new(types.len(), |i: int| i as usize);
                assert(all[t] == t as usize);
                assert(all.contains(t as usize));
                vstd::seq_lib::to_multiset_contains(all, t as usize);
                vstd::seq_lib::to_multiset_contains(order@, t as usize);
                let q = choose|q: int| 0 <= q < order@.len() && order@[q] == t as usize;
                assert(!rule_active(types, order@[q] as int, k, *classes, base_centers@, br, shrines@, sr));
            }
        }
    }
    proof {
        assert forall|t: int| 0 <= t < types.len() implies #[trigger] kind_count(placement.placed@, t) <= type_budget(
            types, t, types[t].per_region@.len() as int, classes.cells(),
            allowed_seq(base_centers@, br, shrines@, sr, w as int, h as int),
        ) by {
            let all = Seq::new(types.len(), |i: int| i as usize);
            assert(all[t] == t as usize);
            assert(all.contains(t as usize));
            vstd::seq_lib::to_multiset_contains(all, t as usize);
            vstd::seq_lib::to_multiset_contains(order@, t as usize);
            let q = choose|q: int| 0 <= q < order@.len() && order@[q] == t as usize;
            assert(kind_count(placement.placed@, order@[q] as int)
                <= type_budget(types, order@[q] as int, types[order@[q] as int].per_region@.len() as int, cells, allowed@));
        }
    }
    placement.placed
}

} // verus!
