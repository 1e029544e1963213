use vstd::prelude::*;
use crate::geom::{Point, dist2, in_disk};
use crate::grid::{cell_index, on_board, board_ok, lemma_index_bounds, lemma_index_injective};

verus! {

/// A tile mask: one flag per cell of a `w` by `h` board, row-major.
pub open spec fn mask_ok(m: Seq<bool>, w: int, h: int) -> bool {
    board_ok(w, h) && m.len() == w * h
}

/// The flag of `m` at `(x, y)`.
pub open spec fn flag(m: Seq<bool>, w: int, x: int, y: int) -> bool {
    m[cell_index(w, x, y)]
}

/// A cell more than `r` away along one axis lies outside the disk of radius `r`.
pub proof fn lemma_outside_box(c: Point, r: int, x: int, y: int)
    requires
        r >= 0,
        x < c.x - r || x > c.x + r || y < c.y - r || y > c.y + r,
    ensures
        !in_disk(c, r, x, y),
{
    let dx = x - c.x;
    let dy = y - c.y;
    if dx < -r || dx > r {
        assert(dx * dx > r * r) by (nonlinear_arith)
            requires dx < -r || dx > r, r >= 0;
    } else {
        assert(dy * dy > r * r) by (nonlinear_arith)
            requires dy < -r || dy > r, r >= 0;
    }
    assert(dx * dx >= 0 && dy * dy >= 0) by (nonlinear_arith);
}

/// Writing one cell leaves every other cell's flag as it was.
pub proof fn lemma_write_one(m: Seq<bool>, w: int, h: int, x: int, y: int, v: bool)
    requires
        mask_ok(m, w, h),
        on_board(w, h, x, y),
    ensures
        forall|x2: int, y2: int|
            on_board(w, h, x2, y2) && !(x2 == x && y2 == y) ==> #[trigger] flag(
                m.update(cell_index(w, x, y), v),
                w,
                x2,
                y2,
            ) == flag(m, w, x2, y2),
        flag(m.update(cell_index(w, x, y), v), w, x, y) == v,
{
    lemma_index_bounds(w, h, x, y);
    assert forall|x2: int, y2: int|
        on_board(w, h, x2, y2) && !(x2 == x && y2 == y) implies #[trigger] flag(
            m.update(cell_index(w, x, y), v),
            w,
            x2,
            y2,
        ) == flag(m, w, x2, y2) by {
        lemma_index_bounds(w, h, x2, y2);
        if cell_index(w, x2, y2) == cell_index(w, x, y) {
            lemma_index_injective(w, h, x2, y2, x, y);
        }
    }
}

/// A mask of `w * h` flags, all equal to `v`.
pub fn new_mask(w: i32, h: i32, v: bool) -> (m: Vec<bool>)
    requires
        board_ok(w as int, h as int),
    ensures
        mask_ok(m@, w as int, h as int),
        forall|x: int, y: int| on_board(w as int, h as int, x, y) ==> #[trigger] flag(m@, w as int, x, y) == v,
{
    let n = (w * h) as usize;
    let mut m: Vec<bool> = Vec::with_capacity(n);
    let mut i: usize = 0;
    while i < n
        invariant
            i <= n,
            n == w * h,
            m@.len() == i,
            forall|j: int| 0 <= j < i ==> m@[j] == v,
        decreases n - i,
    {
        m.push(v);
        i = i + 1;
    }
    assert forall|x: int, y: int| on_board(w as int, h as int, x, y) implies #[trigger] flag(m@, w as int, x, y) == v by {
        lemma_index_bounds(w as int, h as int, x, y);
    }
    m
}

/// Sets to `v` every cell of the board that lies in the disk of radius `r` around
/// `c`, scanning only the disk's bounding box; other cells keep their flag.
pub fn paint_disk(m: &mut Vec<bool>, w: i32, h: i32, c: Point, r: i32, v: bool)
    requires
        mask_ok(old(m)@, w as int, h as int),
    ensures
        mask_ok(final(m)@, w as int, h as int),
        forall|x: int, y: int| on_board(w as int, h as int, x, y) ==> #[trigger] flag(final(m)@, w as int, x, y)
            == if in_disk(c, r as int, x, y) { v } else { flag(old(m)@, w as int, x, y) },
{
    if r < 0 {
        return;
    }
    let ghost old_m = m@;
    let r64 = r as i64;
    assert(0 <= r as i128 * r as i128 <= 0x4000_0000_0000_0000) by (nonlinear_arith)
        requires 0 <= r <= 0x8000_0000i64;
    let r2: i128 = r as i128 * r as i128;
    let xmin: i64 = if c.x as i64 - r64 > 0 { c.x as i64 - r64 } else { 0 };
    let xmax: i64 = if c.x as i64 + r64 < w as i64 - 1 { c.x as i64 + r64 } else { w as i64 - 1 };
    let ymin: i64 = if c.y as i64 - r64 > 0 { c.y as i64 - r64 } else { 0 };
    let ymax: i64 = if c.y as i64 + r64 < h as i64 - 1 { c.y as i64 + r64 } else { h as i64 - 1 };
    let mut y: i64 = ymin;
    proof {
        assert forall|x2: int, y2: int| on_board(w as int, h as int, x2, y2) && y2 < ymin
            implies !in_disk(c, r as int, x2, y2) by {
            lemma_outside_box(c, r as int, x2, y2);
        }
    }
    while y <= ymax
        invariant
            mask_ok(m@, w as int, h as int),
            r >= 0,
            r2 == r * r,
            xmin == (if c.x - r > 0 { c.x - r } else { 0 }),
            xmax == (if c.x + r < w - 1 { c.x + r } else { w - 1 }),
            ymin == (if c.y - r > 0 { c.y - r } else { 0 }),
            ymax == (if c.y + r < h - 1 { c.y + r } else { h - 1 }),
            ymin <= y,
            y <= ymax + 1 || ymax < ymin,
            forall|x2: int, y2: int| on_board(w as int, h as int, x2, y2) ==> #[trigger] flag(m@, w as int, x2, y2)
                == if in_disk(c, r as int, x2, y2) && y2 < y { v } else { flag(old_m, w as int, x2, y2) },
        decreases ymax + 1 - y,
    {
        let mut x: i64 = xmin;
        proof {
            assert forall|x2: int, y2: int| on_board(w as int, h as int, x2, y2) && x2 < xmin
                implies !in_disk(c, r as int, x2, y2) by {
                lemma_outside_box(c, r as int, x2, y2);
            }
        }
        while x <= xmax
            invariant
                mask_ok(m@, w as int, h as int),
                r >= 0,
                r2 == r * r,
                xmin == (if c.x - r > 0 { c.x - r } else { 0 }),
                xmax == (if c.x + r < w - 1 { c.x + r } else { w - 1 }),
                ymin == (if c.y - r > 0 { c.y - r } else { 0 }),
                ymax == (if c.y + r < h - 1 { c.y + r } else { h - 1 }),
                ymin <= y <= ymax,
                xmin <= x,
                x <= xmax + 1 || xmax < xmin,
                forall|x2: int, y2: int| on_board(w as int, h as int, x2, y2) ==> #[trigger] flag(m@, w as int, x2, y2)
                    == if in_disk(c, r as int, x2, y2) && (y2 < y || (y2 == y && x2 < x)) { v } else { flag(old_m, w as int, x2, y2) },
            decreases xmax + 1 - x,
        {
            let p = Point { x: x as i32, y: y as i32 };
            let d2 = crate::geom::distance2(p, c);
            if d2 <= r2 {
                proof {
                    lemma_write_one(m@, w as int, h as int, x as int, y as int, v);
                    lemma_index_bounds(w as int, h as int, x as int, y as int);
                }
                let i = (y * w as i64 + x) as usize;
                m.set(i, v);
            }
            x = x + 1;
        }
        proof {
            assert forall|x2: int, y2: int| on_board(w as int, h as int, x2, y2) && y2 == y && x2 >= x
                implies !in_disk(c, r as int, x2, y2) by {
                lemma_outside_box(c, r as int, x2, y2);
            }
        }
        y = y + 1;
    }
    proof {
        assert forall|x2: int, y2: int| on_board(w as int, h as int, x2, y2) && (y2 >= y || y2 < ymin)
            implies !in_disk(c, r as int, x2, y2) by {
            lemma_outside_box(c, r as int, x2, y2);
        }
        assert forall|x2: int, y2: int| on_board(w as int, h as int, x2, y2) implies #[trigger] flag(m@, w as int, x2, y2)
            == if in_disk(c, r as int, x2, y2) { v } else { flag(old_m, w as int, x2, y2) } by {
            if ymax < ymin && in_disk(c, r as int, x2, y2) {
                lemma_outside_box(c, r as int, x2, y2);
            }
        }
    }
}

/// A mask of the board cells in the disk of radius `r` around `c`.
pub fn circle_mask(w: i32, h: i32, c: Point, r: i32) -> (m: Vec<bool>)
    requires
        board_ok(w as int, h as int),
    ensures
        mask_ok(m@, w as int, h as int),
        forall|x: int, y: int| on_board(w as int, h as int, x, y) ==> #[trigger] flag(m@, w as int, x, y)
            == in_disk(c, r as int, x, y),
{
    let mut m = new_mask(w, h, false);
    paint_disk(&mut m, w, h, c, r, true);
    m
}


/// A bit-vector of the bitvec crate, kept whole behind the wrappers below.
#[verifier::external_body]
pub struct BitBuf {
    bits: bitvec::vec::BitVec,
}

/// The bits a bit-vector holds, in order.
pub uninterp spec fn bits_of(b: BitBuf) -> Seq<bool>;

/// Relies on `bitvec::vec::BitVec::repeat`: `len` copies of `bit`.
#[verifier::external_body]
fn bits_repeat(bit: bool, len: usize) -> (r: BitBuf)
    ensures
        bits_of(r) == Seq::new(len as nat, |i: int| bit),
{
    BitBuf { bits: bitvec::vec::BitVec::repeat(bit, len) }
}

/// Relies on `BitVec::len`: the number of bits.
#[verifier::external_body]
fn bits_len(b: &BitBuf) -> (r: usize)
    ensures
        r == bits_of(*b).len(),
{
    b.bits.len()
}

/// Relies on indexing a `BitSlice` by `usize` (it panics out of range): bit `i`.
#[verifier::external_body]
fn bits_get(b: &BitBuf, i: usize) -> (r: bool)
    requires
        i < bits_of(*b).len(),
    ensures
        r == bits_of(*b)[i as int],
{
    b.bits[i]
}

/// Relies on `BitSlice::set` (it panics out of range): bit `i` becomes `v`.
#[verifier::external_body]
fn bits_set(b: &mut BitBuf, i: usize, v: bool)
    requires
        i < bits_of(*old(b)).len(),
    ensures
        bits_of(*final(b)) == bits_of(*old(b)).update(i as int, v),
{
    b.bits.set(i, v)
}

/// Relies on `Clone for BitVec`: a copy of the same bits.
#[verifier::external_body]
fn bits_clone(b: &BitBuf) -> (r: BitBuf)
    ensures
        bits_of(r) == bits_of(*b),
{
    BitBuf { bits: b.bits.clone() }
}

/// Relies on `BitAndAssign<&BitSlice> for BitSlice`: on equal lengths, each bit
/// of `a` becomes `a[i] & b[i]`.
#[verifier::external_body]
fn bits_and_assign(a: &mut BitBuf, b: &BitBuf)
    requires
        bits_of(*old(a)).len() == bits_of(*b).len(),
    ensures
        bits_of(*final(a)) == Seq::new(bits_of(*old(a)).len(), |i: int| bits_of(*old(a))[i] && bits_of(*b)[i]),
{
    a.bits &= b.bits.as_bitslice();
}

/// A bit per tile of a `w` by `h` board.
pub struct Mask {
    pub w: i32,
    pub h: i32,
    pub bits: BitBuf,
}

impl Mask {
    /// The flags, row-major.
    pub open spec fn view_bits(&self) -> Seq<bool> {
        bits_of(self.bits)
    }

    pub open spec fn wf(&self) -> bool {
        board_ok(self.w as int, self.h as int) && self.view_bits().len() == self.w * self.h
    }

    pub open spec fn at(&self, x: int, y: int) -> bool {
        self.view_bits()[cell_index(self.w as int, x, y)]
    }

    /// An all-false mask.
    pub fn new(w: i32, h: i32) -> (r: Mask)
        requires
            board_ok(w as int, h as int),
        ensures
            r.wf(),
            r.w == w,
            r.h == h,
            forall|i: int| 0 <= i < w * h ==> !#[trigger] r.view_bits()[i],
    {
        Mask { w, h, bits: bits_repeat(false, (w * h) as usize) }
    }

    pub fn set(&mut self, x: i32, y: i32, v: bool)
        requires
            old(self).wf(),
            on_board(old(self).w as int, old(self).h as int, x as int, y as int),
        ensures
            final(self).wf(),
            final(self).w == old(self).w,
            final(self).h == old(self).h,
            final(self).view_bits() == old(self).view_bits().update(cell_index(old(self).w as int, x as int, y as int), v),
    {
        proof { lemma_index_bounds(self.w as int, self.h as int, x as int, y as int); }
        bits_set(&mut self.bits, (y * self.w + x) as usize, v);
    }

    pub fn get(&self, x: i32, y: i32) -> (r: bool)
        requires
            self.wf(),
            on_board(self.w as int, self.h as int, x as int, y as int),
        ensures
            r == self.at(x as int, y as int),
    {
        proof { lemma_index_bounds(self.w as int, self.h as int, x as int, y as int); }
        bits_get(&self.bits, (y * self.w + x) as usize)
    }

    /// `self` and not `other`, as a new mask.
    pub fn and_not(&self, other: &Mask) -> (r: Mask)
        requires
            self.wf(),
            other.wf(),
            other.w == self.w,
            other.h == self.h,
        ensures
            r.wf(),
            r.w == self.w,
            r.h == self.h,
            forall|i: int| 0 <= i < self.w * self.h ==> #[trigger] r.view_bits()[i] == (self.view_bits()[i] && !other.view_bits()[i]),
    {
        let mut out = bits_clone(&self.bits);
        let n = bits_len(&out);
        let mut i: usize = 0;
        while i < n
            invariant
                n == self.w * self.h,
                bits_of(out).len() == n,
                other.view_bits().len() == n,
                self.view_bits().len() == n,
                i <= n,
                forall|j: int| 0 <= j < i ==> #[trigger] bits_of(out)[j] == (self.view_bits()[j] && !other.view_bits()[j]),
                forall|j: int| i <= j < n ==> #[trigger] bits_of(out)[j] == self.view_bits()[j],
            decreases n - i,
        {
            if bits_get(&other.bits, i) {
                bits_set(&mut out, i, false);
            }
            i = i + 1;
        }
        Mask { w: self.w, h: self.h, bits: out }
    }

    /// `self` and `other`, as a new mask.
    pub fn and(&self, other: &Mask) -> (r: Mask)
        requires
            self.wf(),
            other.wf(),
            other.w == self.w,
            other.h == self.h,
        ensures
            r.wf(),
            r.w == self.w,
            r.h == self.h,
            forall|i: int| 0 <= i < self.w * self.h ==> #[trigger] r.view_bits()[i] == (self.view_bits()[i] && other.view_bits()[i]),
    {
        let mut out = bits_clone(&self.bits);
        bits_and_assign(&mut out, &other.bits);
        Mask { w: self.w, h: self.h, bits: out }
    }

    /// The cells whose flag is set, in row-major order.
    pub fn iter_true(&self) -> (r: Vec<Point>)
        requires
            self.wf(),
        ensures
            forall|j: int| 0 <= j < r@.len() ==> on_board(self.w as int, self.h as int, (#[trigger] r@[j]).x as int, r@[j].y as int)
                && self.at(r@[j].x as int, r@[j].y as int),
            forall|x: int, y: int| on_board(self.w as int, self.h as int, x, y) && self.at(x, y)
                ==> exists|j: int| 0 <= j < r@.len() && #[trigger] r@[j] == (Point { x: x as i32, y: y as i32 }),
    {
        let mut out: Vec<Point> = Vec::new();
        let mut y: i32 = 0;
        while y < self.h
            invariant
                self.wf(),
                0 <= y <= self.h,
                forall|j: int| 0 <= j < out@.len() ==> on_board(self.w as int, self.h as int, (#[trigger] out@[j]).x as int, out@[j].y as int)
                    && self.at(out@[j].x as int, out@[j].y as int),
                forall|x: int, y2: int| on_board(self.w as int, self.h as int, x, y2) && y2 < y && self.at(x, y2)
                    ==> exists|j: int| 0 <= j < out@.len() && #[trigger] out@[j] == (Point { x: x as i32, y: y2 as i32 }),
            decreases self.h - y,
        {
            let mut x: i32 = 0;
            while x < self.w
                invariant
                    self.wf(),
                    0 <= y < self.h,
                    0 <= x <= self.w,
                    forall|j: int| 0 <= j < out@.len() ==> on_board(self.w as int, self.h as int, (#[trigger] out@[j]).x as int, out@[j].y as int)
                        && self.at(out@[j].x as int, out@[j].y as int),
                    forall|x2: int, y2: int| on_board(self.w as int, self.h as int, x2, y2) && (y2 < y || (y2 == y && x2 < x)) && self.at(x2, y2)
                        ==> exists|j: int| 0 <= j < out@.len() && #[trigger] out@[j] == (Point { x: x2 as i32, y: y2 as i32 }),
                decreases self.w - x,
            {
                if self.get(x, y) {
                    let ghost before = out@;
                    out.push(Point { x, y });
                    proof {
                        assert forall|x2: int, y2: int| on_board(self.w as int, self.h as int, x2, y2) && (y2 < y || (y2 == y && x2 < x + 1)) && self.at(x2, y2)
                            implies exists|j: int| 0 <= j < out@.len() && #[trigger] out@[j] == (Point { x: x2 as i32, y: y2 as i32 }) by {
                            if y2 == y && x2 == x {
                                assert(out@[before.len() as int] == (Point { x: x2 as i32, y: y2 as i32 }));
                            } else {
                                let j = choose|j: int| 0 <= j < before.len() && #[trigger] before[j] == (Point { x: x2 as i32, y: y2 as i32 });
                                assert(out@[j] == before[j]);
                            }
                        }
                    }
                }
                x = x + 1;
            }
            y = y + 1;
        }
        out
    }
}

} // verus!
