use vstd::prelude::*;
use crate::grid::{Grid, board_ok, on_board, cell_index, lemma_index_bounds, lemma_index_injective};
use crate::masks::{flag, mask_ok};
use crate::landscape::{TERRAIN_GRASSLAND, locked_mask, is_locked};
use crate::geom::Point;
use crate::template::{MapTemplate, BlendConfig};
use crate::grid::lemma_index_inverse;

verus! {

/// Cells of row `y` with `x` in `x0 .. x1` whose class is `k`.
pub open spec fn row_cnt(e: Seq<u8>, w: int, y: int, x0: int, x1: int, k: u8) -> int
    decreases x1 - x0,
{
    if x1 <= x0 {
        0
    } else {
        row_cnt(e, w, y, x0, x1 - 1, k) + if e[cell_index(w, x1 - 1, y)] == k { 1int } else { 0int }
    }
}

/// Cells of the window `x0 .. x1` by `y0 .. y1` whose class is `k`.
pub open spec fn win_cnt(e: Seq<u8>, w: int, x0: int, x1: int, y0: int, y1: int, k: u8) -> int
    decreases y1 - y0,
{
    if y1 <= y0 {
        0
    } else {
        win_cnt(e, w, x0, x1, y0, y1 - 1, k) + row_cnt(e, w, y1 - 1, x0, x1, k)
    }
}

/// The sum of column `x` of `hs` over rows `y0 .. y1`.
pub open spec fn col_sum(hs: Seq<i64>, w: int, x: int, y0: int, y1: int) -> int
    decreases y1 - y0,
{
    if y1 <= y0 {
        0
    } else {
        col_sum(hs, w, x, y0, y1 - 1) + hs[cell_index(w, x, y1 - 1)]
    }
}

proof fn lemma_row_split(e: Seq<u8>, w: int, y: int, a: int, b: int, c: int, k: u8)
    requires
        a <= b <= c,
    ensures
        row_cnt(e, w, y, a, c, k) == row_cnt(e, w, y, a, b, k) + row_cnt(e, w, y, b, c, k),
    decreases c - b,
{
    if c > b {
        lemma_row_split(e, w, y, a, b, c - 1, k);
    }
}

proof fn lemma_row_bounds(e: Seq<u8>, w: int, y: int, a: int, b: int, k: u8)
    requires
        a <= b,
    ensures
        0 <= row_cnt(e, w, y, a, b, k) <= b - a,
    decreases b - a,
{
    if b > a {
        lemma_row_bounds(e, w, y, a, b - 1, k);
    }
}

proof fn lemma_col_split(hs: Seq<i64>, w: int, x: int, a: int, b: int, c: int)
    requires
        a <= b <= c,
    ensures
        col_sum(hs, w, x, a, c) == col_sum(hs, w, x, a, b) + col_sum(hs, w, x, b, c),
    decreases c - b,
{
    if c > b {
        lemma_col_split(hs, w, x, a, b, c - 1);
    }
}

proof fn lemma_col_is_win(hs: Seq<i64>, e: Seq<u8>, w: int, x: int, x0: int, x1: int, y0: int, y1: int, k: u8)
    requires
        y0 <= y1,
        forall|y: int| y0 <= y < y1 ==> hs[cell_index(w, x, y)] == row_cnt(e, w, y, x0, x1, k),
    ensures
        col_sum(hs, w, x, y0, y1) == win_cnt(e, w, x0, x1, y0, y1, k),
    decreases y1 - y0,
{
    if y1 > y0 {
        lemma_col_is_win(hs, e, w, x, x0, x1, y0, y1 - 1, k);
    }
}

/// The window of radius `r` (taken as 0 when negative) around `v`, cut to `0 .. n`:
/// its first coordinate and one past its last.
pub open spec fn lo_of(v: int, r: int) -> int {
    let rr = if r < 0 { 0 } else { r };
    if v - rr < 0 { 0 } else { v - rr }
}

pub open spec fn hi_of(v: int, r: int, n: int) -> int {
    let rr = if r < 0 { 0 } else { r };
    if v + rr > n - 1 { n } else { v + rr + 1 }
}

/// The number of class-`k` cells in the window of radius `r` around `(x, y)`.
pub open spec fn window_count(e: Seq<u8>, w: int, h: int, x: int, y: int, r: int, k: u8) -> int {
    win_cnt(e, w, lo_of(x, r), hi_of(x, r, w), lo_of(y, r), hi_of(y, r, h), k)
}

/// The number of cells in the window of radius `r` around `(x, y)`.
pub open spec fn window_area(w: int, h: int, x: int, y: int, r: int) -> int {
    (hi_of(x, r, w) - lo_of(x, r)) * (hi_of(y, r, h) - lo_of(y, r))
}

/// For every cell, how many cells of class `k` lie in its window of radius `r`:
/// an exact box filter (times the window's area), by separable prefix sums.
pub fn window_counts(e: &Vec<u8>, w: i32, h: i32, r: i32, k: u8) -> (out: Vec<i64>)
    requires
        board_ok(w as int, h as int),
        e@.len() == w * h,
    ensures
        out@.len() == w * h,
        forall|x: int, y: int| on_board(w as int, h as int, x, y) ==> #[trigger] out@[cell_index(w as int, x, y)]
            == window_count(e@, w as int, h as int, x, y, r as int, k),
{
    let rr: i64 = if r < 0 { 0 } else { r as i64 };
    let n = (w * h) as usize;
    // horizontal pass: counts over each cell's row window
    let mut hs: Vec<i64> = Vec::with_capacity(n);
    let mut y: i32 = 0;
    while y < h
        invariant
            board_ok(w as int, h as int),
            e@.len() == w * h,
            n == w * h,
            rr == (if r < 0 { 0 } else { r as int }),
            0 <= y <= h,
            hs@.len() == y * w,
            forall|x2: int, y2: int| on_board(w as int, h as int, x2, y2) && y2 < y ==> #[trigger] hs@[cell_index(w as int, x2, y2)]
                == row_cnt(e@, w as int, y2, lo_of(x2, r as int), hi_of(x2, r as int, w as int), k),
            forall|j: int| 0 <= j < hs@.len() ==> 0 <= #[trigger] hs@[j] <= w,
        decreases h - y,
    {
        let mut pre: Vec<i64> = Vec::with_capacity(w as usize + 1);
        pre.push(0);
        let mut x: i32 = 0;
        while x < w
            invariant
                board_ok(w as int, h as int),
                e@.len() == w * h,
                0 <= y < h,
                0 <= x <= w,
                pre@.len() == x + 1,
                forall|j: int| 0 <= j <= x ==> #[trigger] pre@[j] == row_cnt(e@, w as int, y as int, 0, j, k),
            decreases w - x,
        {
            proof { lemma_index_bounds(w as int, h as int, x as int, y as int); }
            let one: i64 = if e[(y * w + x) as usize] == k { 1 } else { 0 };
            proof { lemma_row_bounds(e@, w as int, y as int, 0, x as int, k); }
            pre.push(pre[x as usize] + one);
            x = x + 1;
        }
        let ghost row_start = hs@.len();
        let mut x: i32 = 0;
        while x < w
            invariant
                board_ok(w as int, h as int),
                e@.len() == w * h,
                rr == (if r < 0 { 0 } else { r as int }),
                0 <= y < h,
                0 <= x <= w,
                pre@.len() == w + 1,
                forall|j: int| 0 <= j <= w ==> #[trigger] pre@[j] == row_cnt(e@, w as int, y as int, 0, j, k),
                row_start == y * w,
                hs@.len() == y * w + x,
                forall|x2: int, y2: int| on_board(w as int, h as int, x2, y2) && y2 < y ==> #[trigger] hs@[cell_index(w as int, x2, y2)]
                    == row_cnt(e@, w as int, y2, lo_of(x2, r as int), hi_of(x2, r as int, w as int), k),
                forall|x2: int| 0 <= x2 < x ==> #[trigger] hs@[y * w + x2]
                    == row_cnt(e@, w as int, y as int, lo_of(x2, r as int), hi_of(x2, r as int, w as int), k),
                forall|j: int| 0 <= j < hs@.len() ==> 0 <= #[trigger] hs@[j] <= w,
            decreases w - x,
        {
            let xl: i64 = if x as i64 - rr < 0 { 0 } else { x as i64 - rr };
            let xh: i64 = if x as i64 + rr > w as i64 - 1 { w as i64 } else { x as i64 + rr + 1 };
            proof {
                lemma_row_split(e@, w as int, y as int, 0, xl as int, xh as int, k);
                lemma_row_bounds(e@, w as int, y as int, xl as int, xh as int, k);
            }
            let v = pre[xh as usize] - pre[xl as usize];
            proof {
                lemma_index_bounds(w as int, h as int, x as int, y as int);
                assert forall|x2: int, y2: int| on_board(w as int, h as int, x2, y2) && y2 < y implies #[trigger] hs@.push(v)[cell_index(w as int, x2, y2)]
                    == row_cnt(e@, w as int, y2, lo_of(x2, r as int), hi_of(x2, r as int, w as int), k) by {
                    lemma_index_bounds(w as int, h as int, x2, y2);
                    assert(cell_index(w as int, x2, y2) < y * w) by (nonlinear_arith)
                        requires 0 <= x2 < w, 0 <= y2 < y;
                }
            }
            hs.push(v);
            x = x + 1;
        }
        proof {
            assert forall|x2: int, y2: int| on_board(w as int, h as int, x2, y2) && y2 < y + 1 implies #[trigger] hs@[cell_index(w as int, x2, y2)]
                == row_cnt(e@, w as int, y2, lo_of(x2, r as int), hi_of(x2, r as int, w as int), k) by {
                if y2 == y {
                    assert(hs@[y * w + x2] == row_cnt(e@, w as int, y as int, lo_of(x2, r as int), hi_of(x2, r as int, w as int), k));
                }
            }
            assert(hs@.len() == (y + 1) * w) by (nonlinear_arith)
                requires hs@.len() == y * w + w;
        }
        y = y + 1;
    }
    assert(h * w == w * h) by (nonlinear_arith);
    // vertical pass: sums of the row counts over each cell's column window
    let mut out: Vec<i64> = Vec::with_capacity(n);
    let mut i: usize = 0;
    while i < n
        invariant
            i <= n,
            out@.len() == i,
            forall|j: int| 0 <= j < i ==> out@[j] == 0,
        decreases n - i,
    {
        out.push(0);
        i = i + 1;
    }
    let mut x: i32 = 0;
    while x < w
        invariant
            board_ok(w as int, h as int),
            e@.len() == w * h,
            n == w * h,
            hs@.len() == w * h,
            rr == (if r < 0 { 0 } else { r as int }),
            0 <= x <= w,
            out@.len() == w * h,
            forall|x2: int, y2: int| on_board(w as int, h as int, x2, y2) ==> #[trigger] hs@[cell_index(w as int, x2, y2)]
                == row_cnt(e@, w as int, y2, lo_of(x2, r as int), hi_of(x2, r as int, w as int), k),
            forall|j: int| 0 <= j < hs@.len() ==> 0 <= #[trigger] hs@[j] <= w,
            forall|x2: int, y2: int| on_board(w as int, h as int, x2, y2) && x2 < x ==> #[trigger] out@[cell_index(w as int, x2, y2)]
                == window_count(e@, w as int, h as int, x2, y2, r as int, k),
        decreases w - x,
    {
        let mut pre: Vec<i64> = Vec::with_capacity(h as usize + 1);
        pre.push(0);
        let mut y: i32 = 0;
        while y < h
            invariant
                board_ok(w as int, h as int),
                hs@.len() == w * h,
                0 <= x < w,
                0 <= y <= h,
                pre@.len() == y + 1,
                forall|j: int| 0 <= j < hs@.len() ==> 0 <= #[trigger] hs@[j] <= w,
                forall|j: int| 0 <= j <= y ==> #[trigger] pre@[j] == col_sum(hs@, w as int, x as int, 0, j),
                forall|j: int| 0 <= j <= y ==> 0 <= #[trigger] pre@[j] <= j * w,
            decreases h - y,
        {
            proof {
                lemma_index_bounds(w as int, h as int, x as int, y as int);
                assert((y + 1) * w <= h * w) by (nonlinear_arith)
                    requires y < h, 0 <= w;
                assert(y * w + w == (y + 1) * w) by (nonlinear_arith);
            }
            let v = pre[y as usize] + hs[(y * w + x) as usize];
            pre.push(v);
            y = y + 1;
        }
        proof {
            assert forall|j: int| 0 <= j <= h implies 0 <= #[trigger] pre@[j] <= w * h by {
                assert(j * w <= h * w) by (nonlinear_arith)
                    requires j <= h, 0 <= w;
                assert(h * w == w * h) by (nonlinear_arith);
            }
        }
        let mut y: i32 = 0;
        while y < h
            invariant
                board_ok(w as int, h as int),
                e@.len() == w * h,
                hs@.len() == w * h,
                rr == (if r < 0 { 0 } else { r as int }),
                0 <= x < w,
                0 <= y <= h,
                out@.len() == w * h,
                pre@.len() == h + 1,
                forall|j: int| 0 <= j <= h ==> #[trigger] pre@[j] == col_sum(hs@, w as int, x as int, 0, j),
                forall|j: int| 0 <= j <= h ==> 0 <= #[trigger] pre@[j] <= w * h,
                forall|x2: int, y2: int| on_board(w as int, h as int, x2, y2) ==> #[trigger] hs@[cell_index(w as int, x2, y2)]
                    == row_cnt(e@, w as int, y2, lo_of(x2, r as int), hi_of(x2, r as int, w as int), k),
                forall|x2: int, y2: int| on_board(w as int, h as int, x2, y2) && (x2 < x || (x2 == x && y2 < y)) ==> #[trigger] out@[cell_index(w as int, x2, y2)]
                    == window_count(e@, w as int, h as int, x2, y2, r as int, k),
            decreases h - y,
        {
            let yl: i64 = if y as i64 - rr < 0 { 0 } else { y as i64 - rr };
            let yh: i64 = if y as i64 + rr > h as i64 - 1 { h as i64 } else { y as i64 + rr + 1 };
            proof {
                lemma_col_split(hs@, w as int, x as int, 0, yl as int, yh as int);
                assert forall|y3: int| yl <= y3 < yh implies hs@[cell_index(w as int, x as int, y3)]
                    == row_cnt(e@, w as int, y3, lo_of(x as int, r as int), hi_of(x as int, r as int, w as int), k) by {
                    assert(on_board(w as int, h as int, x as int, y3));
                }
                lemma_col_is_win(hs@, e@, w as int, x as int, lo_of(x as int, r as int), hi_of(x as int, r as int, w as int), yl as int, yh as int, k);
                lemma_index_bounds(w as int, h as int, x as int, y as int);
            }
            let v = pre[yh as usize] - pre[yl as usize];
            let ghost before = out@;
            out.set((y * w + x) as usize, v);
            proof {
                assert forall|x2: int, y2: int| on_board(w as int, h as int, x2, y2) && (x2 < x || (x2 == x && y2 < y + 1)) implies #[trigger] out@[cell_index(w as int, x2, y2)]
                    == window_count(e@, w as int, h as int, x2, y2, r as int, k) by {
                    lemma_index_bounds(w as int, h as int, x2, y2);
                    if cell_index(w as int, x2, y2) == cell_index(w as int, x as int, y as int) {
                        lemma_index_injective(w as int, h as int, x2, y2, x as int, y as int);
                    }
                }
            }
            y = y + 1;
        }
        x = x + 1;
    }
    out
}


proof fn lemma_win_bounds(e: Seq<u8>, w: int, x0: int, x1: int, y0: int, y1: int, k: u8)
    requires
        x0 <= x1,
        y0 <= y1,
    ensures
        0 <= win_cnt(e, w, x0, x1, y0, y1, k) <= (y1 - y0) * (x1 - x0),
    decreases y1 - y0,
{
    if y1 > y0 {
        lemma_win_bounds(e, w, x0, x1, y0, y1 - 1, k);
        lemma_row_bounds(e, w, y1 - 1, x0, x1, k);
        assert((y1 - 1 - y0) * (x1 - x0) + (x1 - x0) == (y1 - y0) * (x1 - x0)) by (nonlinear_arith);
    }
}

pub proof fn lemma_window_bounds(e: Seq<u8>, w: int, h: int, x: int, y: int, r: int, k: u8)
    requires
        on_board(w, h, x, y),
        board_ok(w, h),
    ensures
        0 <= window_count(e, w, h, x, y, r, k) <= window_area(w, h, x, y, r),
        1 <= window_area(w, h, x, y, r) <= w * h,
{
    lemma_win_bounds(e, w, lo_of(x, r), hi_of(x, r, w), lo_of(y, r), hi_of(y, r, h), k);
    let a = hi_of(x, r, w) - lo_of(x, r);
    let b = hi_of(y, r, h) - lo_of(y, r);
    assert(b * a == a * b) by (nonlinear_arith);
    assert(1 <= a * b <= w * h) by (nonlinear_arith)
        requires 1 <= a <= w, 1 <= b <= h;
}

/// The classes with locked tiles counted as grass.
pub open spec fn effective(cl: Seq<u8>, lk: Seq<bool>) -> Seq<u8> {
    Seq::new(cl.len(), |i: int| if lk[i] { TERRAIN_GRASSLAND } else { cl[i] })
}

pub open spec fn radius_of(radii: (i32, i32, i32, i32), k: int) -> int {
    if k == 0 { radii.0 as int } else if k == 1 { radii.1 as int } else if k == 2 { radii.2 as int } else { radii.3 as int }
}

/// The affinity of class `k` at `(x, y)` as a fraction (numerator, denominator):
/// the share of class-`k` cells in its window, plus `inertia` thousandths when `k`
/// is the cell's current class.
pub open spec fn score_of(e: Seq<u8>, w: int, h: int, x: int, y: int, radii: (i32, i32, i32, i32), k: int, cur: int, inertia: int) -> (int, int) {
    let r = radius_of(radii, k);
    let cnt = window_count(e, w, h, x, y, r, k as u8);
    let area = window_area(w, h, x, y, r);
    (1000 * cnt + (if k == cur { inertia * area } else { 0 }), 1000 * area)
}

pub open spec fn beats(a: (int, int), b: (int, int)) -> bool {
    a.0 * b.1 > b.0 * a.1
}

/// The class with the highest affinity; the lower class wins a tie.
pub open spec fn best_class(e: Seq<u8>, w: int, h: int, x: int, y: int, radii: (i32, i32, i32, i32), cur: int, inertia: int) -> u8 {
    let s0 = score_of(e, w, h, x, y, radii, 0, cur, inertia);
    let s1 = score_of(e, w, h, x, y, radii, 1, cur, inertia);
    let s2 = score_of(e, w, h, x, y, radii, 2, cur, inertia);
    let s3 = score_of(e, w, h, x, y, radii, 3, cur, inertia);
    let b1: int = if beats(s1, s0) { 1 } else { 0 };
    let sb1 = if b1 == 1 { s1 } else { s0 };
    let b2: int = if beats(s2, sb1) { 2 } else { b1 };
    let sb2 = if b2 == 2 { s2 } else { sb1 };
    let b3: int = if beats(s3, sb2) { 3 } else { b2 };
    b3 as u8
}

/// Some 4-neighbour of `(x, y)` holds another class.
pub open spec fn boundary(cl: Seq<u8>, w: int, h: int, x: int, y: int) -> bool {
    let c = cl[cell_index(w, x, y)];
    (x > 0 && cl[cell_index(w, x - 1, y)] != c) || (x < w - 1 && cl[cell_index(w, x + 1, y)] != c)
        || (y > 0 && cl[cell_index(w, x, y - 1)] != c) || (y < h - 1 && cl[cell_index(w, x, y + 1)] != c)
}

/// A cell's class after one relabelling round: locked cells are grass; with
/// `boundary_only`, interior cells keep their class; the others take the class of
/// highest affinity.
pub open spec fn blend_cell(cl: Seq<u8>, lk: Seq<bool>, w: int, h: int, radii: (i32, i32, i32, i32), inertia: int, boundary_only: bool, x: int, y: int) -> u8 {
    let i = cell_index(w, x, y);
    if lk[i] {
        TERRAIN_GRASSLAND
    } else if boundary_only && !boundary(cl, w, h, x, y) {
        cl[i]
    } else {
        best_class(effective(cl, lk), w, h, x, y, radii, cl[i] as int, inertia)
    }
}

pub open spec fn blend_step(cl: Seq<u8>, lk: Seq<bool>, w: int, h: int, radii: (i32, i32, i32, i32), inertia: int, boundary_only: bool) -> Seq<u8> {
    Seq::new((w * h) as nat, |i: int| blend_cell(cl, lk, w, h, radii, inertia, boundary_only, i % w, i / w))
}

/// The classes after `n` relabelling rounds.
pub open spec fn blend_iter(cl: Seq<u8>, lk: Seq<bool>, w: int, h: int, radii: (i32, i32, i32, i32), inertia: int, boundary_only: bool, n: nat) -> Seq<u8>
    decreases n,
{
    if n == 0 {
        cl
    } else {
        blend_step(blend_iter(cl, lk, w, h, radii, inertia, boundary_only, (n - 1) as nat), lk, w, h, radii, inertia, boundary_only)
    }
}

fn score(cnt: i64, area: i64, is_cur: bool, inertia: i32) -> (r: (i128, i128))
    requires
        0 <= cnt <= area,
        1 <= area <= 0x8000_0000,
    ensures
        r.0 == 1000 * cnt + (if is_cur { inertia * area } else { 0 }),
        r.1 == 1000 * area,
        -0x1_0000_0000_0000_0000 <= r.0 <= 0x1_0000_0000_0000_0000,
        1 <= r.1 <= 0x1_0000_0000_0000,
{
    assert(-0x4000_0000_0000_0000 <= inertia as i128 * area as i128 <= 0x4000_0000_0000_0000) by (nonlinear_arith)
        requires -0x8000_0000 <= inertia <= 0x8000_0000, 1 <= area <= 0x8000_0000;
    let bonus: i128 = if is_cur { inertia as i128 * area as i128 } else { 0 };
    (1000 * cnt as i128 + bonus, 1000 * area as i128)
}

fn beats_exec(a: (i128, i128), b: (i128, i128)) -> (r: bool)
    requires
        -0x1_0000_0000_0000_0000 <= a.0 <= 0x1_0000_0000_0000_0000,
        -0x1_0000_0000_0000_0000 <= b.0 <= 0x1_0000_0000_0000_0000,
        1 <= a.1 <= 0x1_0000_0000_0000,
        1 <= b.1 <= 0x1_0000_0000_0000,
    ensures
        r == beats((a.0 as int, a.1 as int), (b.0 as int, b.1 as int)),
{
    assert(-0x1_0000_0000_0000_0000_0000_0000_0000 <= a.0 * b.1 <= 0x1_0000_0000_0000_0000_0000_0000_0000) by (nonlinear_arith)
        requires -0x1_0000_0000_0000_0000 <= a.0 <= 0x1_0000_0000_0000_0000, 1 <= b.1 <= 0x1_0000_0000_0000;
    assert(-0x1_0000_0000_0000_0000_0000_0000_0000 <= b.0 * a.1 <= 0x1_0000_0000_0000_0000_0000_0000_0000) by (nonlinear_arith)
        requires -0x1_0000_0000_0000_0000 <= b.0 <= 0x1_0000_0000_0000_0000, 1 <= a.1 <= 0x1_0000_0000_0000;
    a.0 * b.1 > b.0 * a.1
}


pub(crate) fn effective_classes(cl: &Grid<u8>, lk: &Vec<bool>) -> (e: Vec<u8>)
    requires
        cl.wf(),
        lk@.len() == cl.cells().len(),
    ensures
        e@ == effective(cl.cells(), lk@),
{
    let n = cl.data.len();
    let mut e: Vec<u8> = Vec::with_capacity(n);
    let mut i: usize = 0;
    while i < n
        invariant
            n == cl.cells().len(),
            lk@.len() == n,
            i <= n,
            e@.len() == i,
            forall|j: int| 0 <= j < i ==> #[trigger] e@[j] == (if lk@[j] { TERRAIN_GRASSLAND } else { cl.cells()[j] }),
        decreases n - i,
    {
        e.push(if lk[i] { TERRAIN_GRASSLAND } else { cl.data[i] });
        i = i + 1;
    }
    assert(e@ =~= effective(cl.cells(), lk@));
    e
}

pub(crate) fn window_area_exec(w: i32, h: i32, x: i32, y: i32, r: i32) -> (a: i64)
    requires
        board_ok(w as int, h as int),
        on_board(w as int, h as int, x as int, y as int),
    ensures
        a == window_area(w as int, h as int, x as int, y as int, r as int),
        1 <= a <= w * h,
{
    let rr: i64 = if r < 0 { 0 } else { r as i64 };
    let xl: i64 = if x as i64 - rr < 0 { 0 } else { x as i64 - rr };
    let xh: i64 = if x as i64 + rr > w as i64 - 1 { w as i64 } else { x as i64 + rr + 1 };
    let yl: i64 = if y as i64 - rr < 0 { 0 } else { y as i64 - rr };
    let yh: i64 = if y as i64 + rr > h as i64 - 1 { h as i64 } else { y as i64 + rr + 1 };
    proof {
        lemma_window_bounds(Seq::<u8>::empty(), w as int, h as int, x as int, y as int, r as int, 0);
    }
    assert(1 <= (xh - xl) * (yh - yl) <= w * h);
    (xh - xl) * (yh - yl)
}

pub(crate) fn is_boundary(cl: &Grid<u8>, x: i32, y: i32) -> (b: bool)
    requires
        cl.wf(),
        on_board(cl.w as int, cl.h as int, x as int, y as int),
    ensures
        b == boundary(cl.cells(), cl.w as int, cl.h as int, x as int, y as int),
{
    let c = *cl.get(x, y);
    if x > 0 && *cl.get(x - 1, y) != c {
        return true;
    }
    if x < cl.w - 1 && *cl.get(x + 1, y) != c {
        return true;
    }
    if y > 0 && *cl.get(x, y - 1) != c {
        return true;
    }
    if y < cl.h - 1 && *cl.get(x, y + 1) != c {
        return true;
    }
    false
}

/// One relabelling round over the whole grid (see `blend_cell`).
pub fn relabel_once(cl: &Grid<u8>, lk: &Vec<bool>, radii: (i32, i32, i32, i32), inertia: i32, boundary_only: bool) -> (r: Grid<u8>)
    requires
        cl.wf(),
        lk@.len() == cl.cells().len(),
    ensures
        r.wf(),
        r.w == cl.w,
        r.h == cl.h,
        r.cells() == blend_step(cl.cells(), lk@, cl.w as int, cl.h as int, radii, inertia as int, boundary_only),
{
    let w = cl.w;
    let h = cl.h;
    let e = effective_classes(cl, lk);
    let c0 = window_counts(&e, w, h, radii.0, 0);
    let c1 = window_counts(&e, w, h, radii.1, 1);
    let c2 = window_counts(&e, w, h, radii.2, 2);
    let c3 = window_counts(&e, w, h, radii.3, 3);
    let mut out: Grid<u8> = Grid::filled(w, h, TERRAIN_GRASSLAND);
    let ghost ee = e@;
    let mut y: i32 = 0;
    while y < h
        invariant
            cl.wf(),
            w == cl.w,
            h == cl.h,
            lk@.len() == w * h,
            ee == effective(cl.cells(), lk@),
            e@ == ee,
            out.wf(),
            out.w == w,
            out.h == h,
            0 <= y <= h,
            forall|x2: int, y2: int| on_board(w as int, h as int, x2, y2) ==> #[trigger] c0@[cell_index(w as int, x2, y2)] == window_count(ee, w as int, h as int, x2, y2, radii.0 as int, 0),
            forall|x2: int, y2: int| on_board(w as int, h as int, x2, y2) ==> #[trigger] c1@[cell_index(w as int, x2, y2)] == window_count(ee, w as int, h as int, x2, y2, radii.1 as int, 1),
            forall|x2: int, y2: int| on_board(w as int, h as int, x2, y2) ==> #[trigger] c2@[cell_index(w as int, x2, y2)] == window_count(ee, w as int, h as int, x2, y2, radii.2 as int, 2),
            forall|x2: int, y2: int| on_board(w as int, h as int, x2, y2) ==> #[trigger] c3@[cell_index(w as int, x2, y2)] == window_count(ee, w as int, h as int, x2, y2, radii.3 as int, 3),
            c0@.len() == w * h,
            c1@.len() == w * h,
            c2@.len() == w * h,
            c3@.len() == w * h,
            forall|x2: int, y2: int| on_board(w as int, h as int, x2, y2) && y2 < y ==> #[trigger] out.at(x2, y2)
                == blend_cell(cl.cells(), lk@, w as int, h as int, radii, inertia as int, boundary_only, x2, y2),
        decreases h - y,
    {
        let mut x: i32 = 0;
        while x < w
            invariant
                cl.wf(),
                w == cl.w,
                h == cl.h,
                lk@.len() == w * h,
                ee == effective(cl.cells(), lk@),
                out.wf(),
                out.w == w,
                out.h == h,
                0 <= y < h,
                0 <= x <= w,
                forall|x2: int, y2: int| on_board(w as int, h as int, x2, y2) ==> #[trigger] c0@[cell_index(w as int, x2, y2)] == window_count(ee, w as int, h as int, x2, y2, radii.0 as int, 0),
                forall|x2: int, y2: int| on_board(w as int, h as int, x2, y2) ==> #[trigger] c1@[cell_index(w as int, x2, y2)] == window_count(ee, w as int, h as int, x2, y2, radii.1 as int, 1),
                forall|x2: int, y2: int| on_board(w as int, h as int, x2, y2) ==> #[trigger] c2@[cell_index(w as int, x2, y2)] == window_count(ee, w as int, h as int, x2, y2, radii.2 as int, 2),
                forall|x2: int, y2: int| on_board(w as int, h as int, x2, y2) ==> #[trigger] c3@[cell_index(w as int, x2, y2)] == window_count(ee, w as int, h as int, x2, y2, radii.3 as int, 3),
                c0@.len() == w * h,
                c1@.len() == w * h,
                c2@.len() == w * h,
                c3@.len() == w * h,
                forall|x2: int, y2: int| on_board(w as int, h as int, x2, y2) && (y2 < y || (y2 == y && x2 < x)) ==> #[trigger] out.at(x2, y2)
                    == blend_cell(cl.cells(), lk@, w as int, h as int, radii, inertia as int, boundary_only, x2, y2),
            decreases w - x,
        {
            proof {
                lemma_index_bounds(w as int, h as int, x as int, y as int);
            }
            let i = (y * w + x) as usize;
            let cur = cl.data[i];
            let v: u8 = if lk[i] {
                TERRAIN_GRASSLAND
            } else if boundary_only && !is_boundary(cl, x, y) {
                cur
            } else {
                proof {
                    lemma_window_bounds(ee, w as int, h as int, x as int, y as int, radii.0 as int, 0);
                    lemma_window_bounds(ee, w as int, h as int, x as int, y as int, radii.1 as int, 1);
                    lemma_window_bounds(ee, w as int, h as int, x as int, y as int, radii.2 as int, 2);
                    lemma_window_bounds(ee, w as int, h as int, x as int, y as int, radii.3 as int, 3);
                    assert(c0@[i as int] == window_count(ee, w as int, h as int, x as int, y as int, radii.0 as int, 0));
                    assert(c1@[i as int] == window_count(ee, w as int, h as int, x as int, y as int, radii.1 as int, 1));
                    assert(c2@[i as int] == window_count(ee, w as int, h as int, x as int, y as int, radii.2 as int, 2));
                    assert(c3@[i as int] == window_count(ee, w as int, h as int, x as int, y as int, radii.3 as int, 3));
                }
                let s0 = score(c0[i], window_area_exec(w, h, x, y, radii.0), cur == 0, inertia);
                let s1 = score(c1[i], window_area_exec(w, h, x, y, radii.1), cur == 1, inertia);
                let s2 = score(c2[i], window_area_exec(w, h, x, y, radii.2), cur == 2, inertia);
                let s3 = score(c3[i], window_area_exec(w, h, x, y, radii.3), cur == 3, inertia);
                let mut best: u8 = 0;
                let mut bs = s0;
                if beats_exec(s1, bs) {
                    best = 1;
                    bs = s1;
                }
                if beats_exec(s2, bs) {
                    best = 2;
                    bs = s2;
                }
                if beats_exec(s3, bs) {
                    best = 3;
                }
                best
            };
            proof {
                assert(v == blend_cell(cl.cells(), lk@, w as int, h as int, radii, inertia as int, boundary_only, x as int, y as int));
            }
            let ghost before = out;
            out.set(x, y, v);
            proof {
                assert forall|x2: int, y2: int| on_board(w as int, h as int, x2, y2) && (y2 < y || (y2 == y && x2 < x + 1)) implies #[trigger] out.at(x2, y2)
                    == blend_cell(cl.cells(), lk@, w as int, h as int, radii, inertia as int, boundary_only, x2, y2) by {
                    lemma_index_bounds(w as int, h as int, x2, y2);
                    if cell_index(w as int, x2, y2) == cell_index(w as int, x as int, y as int) {
                        lemma_index_injective(w as int, h as int, x2, y2, x as int, y as int);
                    } else {
                        assert(out.at(x2, y2) == before.at(x2, y2));
                    }
                }
            }
            x = x + 1;
        }
        y = y + 1;
    }
    proof {
        if w > 0 {
            assert forall|i: int| 0 <= i < w * h implies #[trigger] out.cells()[i]
                == blend_step(cl.cells(), lk@, w as int, h as int, radii, inertia as int, boundary_only)[i] by {
                lemma_index_inverse(w as int, h as int, i);
                let x2 = i % (w as int);
                let y2 = i / (w as int);
                assert(out.at(x2, y2) == blend_cell(cl.cells(), lk@, w as int, h as int, radii, inertia as int, boundary_only, x2, y2));
                assert(out.at(x2, y2) == out.cells()[i]);
            }
        } else {
            assert(w * h == 0);
        }
        assert(out.cells() =~= blend_step(cl.cells(), lk@, w as int, h as int, radii, inertia as int, boundary_only));
    }
    out
}


/// The locked cells of a board, row-major.
pub open spec fn locked_cells(bases: Seq<Point>, base_radius: int, shrines: Seq<Point>, shrine_radius: int, w: int, h: int) -> Seq<bool> {
    Seq::new((w * h) as nat, |i: int| is_locked(bases, base_radius, shrines, shrine_radius, i % w, i / w))
}

/// A copy of a grid.
pub fn copy_grid(g: &Grid<u8>) -> (r: Grid<u8>)
    requires
        g.wf(),
    ensures
        r.wf(),
        r.w == g.w,
        r.h == g.h,
        r.cells() == g.cells(),
{
    let n = g.data.len();
    let mut data: Vec<u8> = Vec::with_capacity(n);
    let mut i: usize = 0;
    while i < n
        invariant
            n == g.cells().len(),
            i <= n,
            data@ == g.cells().take(i as int),
        decreases n - i,
    {
        data.push(g.data[i]);
        i = i + 1;
        assert(data@ =~= g.cells().take(i as int));
    }
    assert(g.cells().take(n as int) =~= g.cells());
    Grid { w: g.w, h: g.h, data }
}

/// Phase 4a: `iterations` box-blur relabelling rounds (see `blend_cell`), locked
/// tiles then pinned to grass once more. Every locked tile ends as grass.
pub fn blend_terrain(tpl: &MapTemplate, base_centers: &Vec<Point>, shrines: &Vec<Point>, classes_in: &Grid<u8>, settings: BlendConfig) -> (r: Grid<u8>)
    requires
        classes_in.wf(),
        classes_in.w == tpl.size.0,
        classes_in.h == tpl.size.1,
    ensures
        r.wf(),
        r.w == classes_in.w,
        r.h == classes_in.h,
        ({
            let w = classes_in.w as int;
            let h = classes_in.h as int;
            let lk = locked_cells(base_centers@, tpl.player_spawns.base_radius as int, shrines@, tpl.terrain.shrine_grass_radius as int, w, h);
            r.cells() == effective(
                blend_iter(classes_in.cells(), lk, w, h, settings.radii, settings.inertia_permille as int, settings.boundary_only, settings.iterations as nat),
                lk,
            )
        }),
        forall|x: int, y: int| on_board(classes_in.w as int, classes_in.h as int, x, y)
            && is_locked(base_centers@, tpl.player_spawns.base_radius as int, shrines@, tpl.terrain.shrine_grass_radius as int, x, y)
            ==> #[trigger] r.at(x, y) == TERRAIN_GRASSLAND,
{
    let w = classes_in.w;
    let h = classes_in.h;
    let lk = locked_mask(w, h, base_centers, tpl.player_spawns.base_radius, shrines, tpl.terrain.shrine_grass_radius);
    let ghost lks = locked_cells(base_centers@, tpl.player_spawns.base_radius as int, shrines@, tpl.terrain.shrine_grass_radius as int, w as int, h as int);
    proof {
        if w > 0 {
            assert forall|i: int| 0 <= i < w * h implies #[trigger] lk@[i] == lks[i] by {
                lemma_index_inverse(w as int, h as int, i);
                assert(flag(lk@, w as int, i % (w as int), i / (w as int)) == lk@[i]);
            }
        }
        assert(lk@ =~= lks);
    }
    let mut cur = copy_grid(classes_in);
    let mut it: usize = 0;
    while it < settings.iterations
        invariant
            cur.wf(),
            cur.w == w,
            cur.h == h,
            lk@ == lks,
            lks.len() == w * h,
            it <= settings.iterations,
            cur.cells() == blend_iter(classes_in.cells(), lks, w as int, h as int, settings.radii, settings.inertia_permille as int, settings.boundary_only, it as nat),
        decreases settings.iterations - it,
    {
        cur = relabel_once(&cur, &lk, settings.radii, settings.inertia_permille, settings.boundary_only);
        it = it + 1;
    }
    let ghost last = cur.cells();
    let n = lk.len();
    let mut i: usize = 0;
    while i < n
        invariant
            cur.wf(),
            cur.w == w,
            cur.h == h,
            n == lk@.len(),
            n == w * h,
            i <= n,
            last.len() == n,
            forall|j: int| 0 <= j < i ==> #[trigger] cur.cells()[j] == (if lk@[j] { TERRAIN_GRASSLAND } else { last[j] }),
            forall|j: int| i <= j < n ==> #[trigger] cur.cells()[j] == last[j],
        decreases n - i,
    {
        let ghost before = cur.cells();
        if lk[i] {
            cur.data.set(i, TERRAIN_GRASSLAND);
            assert(cur.cells() == before.update(i as int, TERRAIN_GRASSLAND));
        }
        assert forall|j: int| 0 <= j < i + 1 implies #[trigger] cur.cells()[j] == (if lk@[j] { TERRAIN_GRASSLAND } else { last[j] }) by {
            if j < i {
                assert(cur.cells()[j] == before[j]);
            }
        }
        assert forall|j: int| i + 1 <= j < n implies #[trigger] cur.cells()[j] == last[j] by {
            assert(cur.cells()[j] == before[j]);
        }
        i = i + 1;
    }
    proof {
        assert(cur.cells() =~= effective(last, lks));
        assert forall|x: int, y: int| on_board(w as int, h as int, x, y)
            && is_locked(base_centers@, tpl.player_spawns.base_radius as int, shrines@, tpl.terrain.shrine_grass_radius as int, x, y)
            implies #[trigger] cur.at(x, y) == TERRAIN_GRASSLAND by {
            lemma_index_bounds(w as int, h as int, x, y);
            assert(flag(lk@, w as int, x, y));
        }
    }
    cur
}

} // verus!
