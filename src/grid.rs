use vstd::prelude::*;
use crate::geom::Point;

verus! {

/// A dense row-major `w` by `h` array of cells.
#[derive(Clone, Debug)]
pub struct Grid<T> {
    pub w: i32,
    pub h: i32,
    pub data: Vec<T>,
}

/// Row-major index of `(x, y)` on a board `w` wide.
pub open spec fn cell_index(w: int, x: int, y: int) -> int {
    y * w + x
}

/// `(x, y)` lies on a `w` by `h` board.
pub open spec fn on_board(w: int, h: int, x: int, y: int) -> bool {
    0 <= x < w && 0 <= y < h
}

/// Board sizes whose cell count fits in an `i32`.
pub open spec fn board_ok(w: int, h: int) -> bool {
    0 <= w && 0 <= h && w * h <= i32::MAX
}

/// Each cell of a board has its own index, below the cell count.
pub proof fn lemma_index_bounds(w: int, h: int, x: int, y: int)
    requires
        on_board(w, h, x, y),
    ensures
        0 <= cell_index(w, x, y) < w * h,
{
    assert(0 <= y * w) by (nonlinear_arith)
        requires 0 <= y, 0 <= w;
    assert(y * w + x < w * h) by (nonlinear_arith)
        requires 0 <= x < w, 0 <= y < h;
}

/// Distinct cells have distinct indices.
pub proof fn lemma_index_injective(w: int, h: int, x1: int, y1: int, x2: int, y2: int)
    requires
        on_board(w, h, x1, y1),
        on_board(w, h, x2, y2),
        cell_index(w, x1, y1) == cell_index(w, x2, y2),
    ensures
        x1 == x2 && y1 == y2,
{
    if y1 < y2 {
        assert(y1 * w + w <= y2 * w) by (nonlinear_arith)
            requires y1 < y2, 0 <= w;
    } else if y2 < y1 {
        assert(y2 * w + w <= y1 * w) by (nonlinear_arith)
            requires y2 < y1, 0 <= w;
    }
}

/// The cell that an index in `0 .. w * h` stands for.
pub proof fn lemma_index_inverse(w: int, h: int, i: int)
    requires
        0 <= i < w * h,
        0 < w,
    ensures
        on_board(w, h, i % w, i / w),
        cell_index(w, i % w, i / w) == i,
{
    assert(i / w < h) by (nonlinear_arith)
        requires 0 <= i < w * h, 0 < w;
    assert(0 <= i / w) by (nonlinear_arith)
        requires 0 <= i, 0 < w;
    assert((i / w) * w + i % w == i) by (nonlinear_arith)
        requires 0 < w;
}

impl<T> Grid<T> {
    /// Width, height and storage agree.
    pub open spec fn wf(&self) -> bool {
        board_ok(self.w as int, self.h as int) && self.data@.len() == self.w * self.h
    }

    /// The cells in row-major order.
    pub open spec fn cells(&self) -> Seq<T> {
        self.data@
    }

    /// The cell at `(x, y)`.
    pub open spec fn at(&self, x: int, y: int) -> T {
        self.cells()[cell_index(self.w as int, x, y)]
    }

    /// A grid whose every cell holds `fill`.
    pub fn filled(w: i32, h: i32, fill: T) -> (r: Grid<T>)
        where
            T: Copy,
        requires
            board_ok(w as int, h as int),
        ensures
            r.wf(),
            r.w == w,
            r.h == h,
            forall|x: int, y: int| on_board(w as int, h as int, x, y) ==> r.at(x, y) == fill,
    {
        let n = (w * h) as usize;
        let mut data: Vec<T> = Vec::with_capacity(n);
        let mut i: usize = 0;
        while i < n
            invariant
                i <= n,
                data@.len() == i,
                forall|j: int| 0 <= j < i ==> data@[j] == fill,
            decreases n - i,
        {
            data.push(fill);
            i = i + 1;
        }
        let r = Grid { w, h, data };
        assert forall|x: int, y: int| on_board(w as int, h as int, x, y) implies r.at(x, y) == fill by {
            lemma_index_bounds(w as int, h as int, x, y);
        }
        r
    }

    /// A grid of default cells.
    pub fn new(w: i32, h: i32) -> (r: Grid<T>)
        where
            T: Copy + Default,
        requires
            board_ok(w as int, h as int),
        ensures
            r.wf(),
            r.w == w,
            r.h == h,
            forall|x1: int, y1: int, x2: int, y2: int|
                on_board(w as int, h as int, x1, y1) && on_board(w as int, h as int, x2, y2)
                    ==> #[trigger] r.at(x1, y1) == #[trigger] r.at(x2, y2),
            forall|x: int, y: int| on_board(w as int, h as int, x, y) ==> call_ensures(T::default, (), #[trigger] r.at(x, y)),
    {
        let d = T::default();
        Grid::filled(w, h, d)
    }

    fn idx(&self, x: i32, y: i32) -> (r: usize)
        requires
            self.wf(),
            on_board(self.w as int, self.h as int, x as int, y as int),
        ensures
            r == cell_index(self.w as int, x as int, y as int),
            r < self.cells().len(),
    {
        proof {
            lemma_index_bounds(self.w as int, self.h as int, x as int, y as int);
        }
        (y * self.w + x) as usize
    }

    /// Every cell of the board, row by row.
    pub fn iter_xy(&self) -> (r: Vec<Point>)
        requires
            self.wf(),
        ensures
            r@.len() == self.w * self.h,
            forall|x: int, y: int| on_board(self.w as int, self.h as int, x, y)
                ==> #[trigger] r@[cell_index(self.w as int, x, y)] == (Point { x: x as i32, y: y as i32 }),
    {
        let mut out: Vec<Point> = Vec::new();
        let mut y: i32 = 0;
        while y < self.h
            invariant
                self.wf(),
                0 <= y <= self.h,
                out@.len() == y * self.w,
                forall|x: int, y2: int| on_board(self.w as int, self.h as int, x, y2) && y2 < y
                    ==> #[trigger] out@[cell_index(self.w as int, x, y2)] == (Point { x: x as i32, y: y2 as i32 }),
            decreases self.h - y,
        {
            let mut x: i32 = 0;
            while x < self.w
                invariant
                    self.wf(),
                    0 <= y < self.h,
                    0 <= x <= self.w,
                    out@.len() == y * self.w + x,
                    forall|x2: int, y2: int| on_board(self.w as int, self.h as int, x2, y2) && (y2 < y || (y2 == y && x2 < x))
                        ==> #[trigger] out@[cell_index(self.w as int, x2, y2)] == (Point { x: x2 as i32, y: y2 as i32 }),
                decreases self.w - x,
            {
                proof {
                    assert forall|x2: int, y2: int| on_board(self.w as int, self.h as int, x2, y2) && (y2 < y || (y2 == y && x2 < x + 1))
                        implies #[trigger] out@.push(Point { x, y })[cell_index(self.w as int, x2, y2)] == (Point { x: x2 as i32, y: y2 as i32 }) by {
                        lemma_index_bounds(self.w as int, self.h as int, x2, y2);
                        if y2 < y {
                            assert(cell_index(self.w as int, x2, y2) < y * self.w) by (nonlinear_arith)
                                requires 0 <= x2 < self.w, 0 <= y2 < y;
                        }
                    }
                }
                out.push(Point { x, y });
                x = x + 1;
            }
            assert(out@.len() == (y + 1) * self.w) by (nonlinear_arith)
                requires out@.len() == y * self.w + self.w;
            y = y + 1;
        }
        assert(self.h * self.w == self.w * self.h) by (nonlinear_arith);
        out
    }

    /// `p` lies on the board.
    pub fn in_bounds(&self, p: Point) -> (r: bool)
        ensures
            r == on_board(self.w as int, self.h as int, p.x as int, p.y as int),
    {
        p.x >= 0 && p.y >= 0 && p.x < self.w && p.y < self.h
    }

    pub fn get(&self, x: i32, y: i32) -> (r: &T)
        requires
            self.wf(),
            on_board(self.w as int, self.h as int, x as int, y as int),
        ensures
            *r == self.at(x as int, y as int),
    {
        let i = self.idx(x, y);
        &self.data[i]
    }

    pub fn get_mut(&mut self, x: i32, y: i32) -> (r: &mut T)
        requires
            old(self).wf(),
            on_board(old(self).w as int, old(self).h as int, x as int, y as int),
        ensures
            *r == old(self).at(x as int, y as int),
            final(self).wf(),
            final(self).w == old(self).w,
            final(self).h == old(self).h,
            final(self).cells() == old(self).cells().update(
                cell_index(old(self).w as int, x as int, y as int),
                *final(r),
            ),
    {
        let i = self.idx(x, y);
        &mut self.data[i]
    }

    pub fn set(&mut self, x: i32, y: i32, v: T)
        requires
            old(self).wf(),
            on_board(old(self).w as int, old(self).h as int, x as int, y as int),
        ensures
            final(self).wf(),
            final(self).w == old(self).w,
            final(self).h == old(self).h,
            final(self).cells() == old(self).cells().update(
                cell_index(old(self).w as int, x as int, y as int),
                v,
            ),
    {
        let i = self.idx(x, y);
        self.data.set(i, v);
    }
}

/// `p` moved onto a `w` by `h` board, each axis clamped on its own.
pub fn clamp(p: Point, w: i32, h: i32) -> (r: Point)
    requires
        w >= 1,
        h >= 1,
    ensures
        on_board(w as int, h as int, r.x as int, r.y as int),
        r.x == (if p.x < 0 { 0 } else if p.x >= w { w - 1 } else { p.x as int }),
        r.y == (if p.y < 0 { 0 } else if p.y >= h { h - 1 } else { p.y as int }),
{
    let x = if p.x < 0 { 0 } else if p.x >= w { w - 1 } else { p.x };
    let y = if p.y < 0 { 0 } else if p.y >= h { h - 1 } else { p.y };
    Point { x, y }
}

} // verus!
