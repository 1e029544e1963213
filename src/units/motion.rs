use vstd::prelude::*;
use crate::units::world::Vec2i;

verus! {

/// The integer square root of `n`.
pub open spec fn is_root(n: int, r: int) -> bool {
    0 <= r && r * r <= n < (r + 1) * (r + 1)
}

pub open spec fn root(n: int) -> int {
    choose|r: int| is_root(n, r)
}

/// A number has one integer square root.
pub proof fn lemma_root_unique(n: int, r1: int, r2: int)
    requires
        is_root(n, r1),
        is_root(n, r2),
    ensures
        r1 == r2,
{
    if r1 < r2 {
        assert((r1 + 1) * (r1 + 1) <= r2 * r2) by (nonlinear_arith)
            requires 0 <= r1 < r2;
    } else if r2 < r1 {
        assert((r2 + 1) * (r2 + 1) <= r1 * r1) by (nonlinear_arith)
            requires 0 <= r2 < r1;
    }
}

pub fn isqrt(n: u64) -> (r: u64)
    ensures
        is_root(n as int, r as int),
        r == root(n as int),
{
    let mut lo: u64 = 0;
    let mut hi: u64 = 0x1_0000_0000;
    assert(n < hi * hi) by (nonlinear_arith)
        requires hi == 0x1_0000_0000u64, n <= 0xffff_ffff_ffff_ffffu64;
    while hi - lo > 1
        invariant
            lo < hi <= 0x1_0000_0000,
            lo * lo <= n,
            n < hi * hi,
        decreases hi - lo,
    {
        let mid = lo + (hi - lo) / 2;
        assert(mid * mid <= 0xffff_fffe_0000_0001) by (nonlinear_arith)
            requires mid < 0x1_0000_0000u64;
        if mid * mid <= n {
            lo = mid;
        } else {
            hi = mid;
        }
    }
    proof {
        assert(is_root(n as int, lo as int));
        lemma_root_unique(n as int, lo as int, root(n as int));
    }
    lo
}

/// The largest coordinate magnitude the simulation handles.
pub const COORD_LIMIT: i64 = 0x4000_0000;

pub open spec fn small_vec(v: Vec2i, limit: int) -> bool {
    -limit <= v.x <= limit && -limit <= v.y <= limit
}

pub open spec fn len2(v: Vec2i) -> int {
    v.x * v.x + v.y * v.y
}

/// `a / b` rounded toward zero, for `b > 0`.
pub open spec fn tdiv(a: int, b: int) -> int {
    if a >= 0 { a / b } else { -((-a) / b) }
}

/// The least `m` with `m * m >= n`.
pub open spec fn ceil_root(n: int) -> int {
    let r = root(n);
    if r * r == n { r } else { r + 1 }
}

/// `v` stretched to length `len`, dividing by the rounded-up length of `v` and
/// rounding toward zero, so the result is never longer than `len`; zero stays
/// zero.
pub open spec fn scaled(v: Vec2i, len: int) -> Vec2i {
    let m = ceil_root(len2(v));
    if m == 0 {
        Vec2i { x: 0, y: 0 }
    } else {
        Vec2i { x: tdiv(v.x * len, m) as i64, y: tdiv(v.y * len, m) as i64 }
    }
}

proof fn lemma_tdiv_sq(a: int, m: int)
    requires
        m >= 1,
    ensures
        tdiv(a, m) * tdiv(a, m) * (m * m) <= a * a,
{
    let q = tdiv(a, m);
    if a >= 0 {
        assert(q == a / m);
        assert(0 <= q * m <= a) by (nonlinear_arith)
            requires q == a / m, a >= 0, m >= 1;
        assert((q * m) * (q * m) <= a * a) by (nonlinear_arith)
            requires 0 <= q * m <= a;
    } else {
        let p = (-a) / m;
        assert(0 <= p * m <= -a) by (nonlinear_arith)
            requires p == (-a) / m, -a >= 0, m >= 1;
        assert((p * m) * (p * m) <= a * a) by (nonlinear_arith)
            requires 0 <= p * m <= -a;
        assert(q == -p);
        assert((q * m) * (q * m) == (p * m) * (p * m)) by (nonlinear_arith)
            requires q == -p;
    }
    assert(q * q * (m * m) == (q * m) * (q * m)) by (nonlinear_arith);
}

/// `a / b` rounded toward zero.
pub fn trunc_div(a: i64, b: i64) -> (r: i64)
    requires
        b > 0,
        a > i64::MIN,
    ensures
        r == tdiv(a as int, b as int),
{
    if a >= 0 { a / b } else { -((-a) / b) }
}

proof fn lemma_tdiv_bound(a: int, n: int, l: int)
    requires
        1 <= n,
        0 <= l,
        -l * n <= a <= l * n,
    ensures
        -l <= tdiv(a, n) <= l,
{
    if a >= 0 {
        assert(a / n <= l) by (nonlinear_arith)
            requires 0 <= a <= l * n, 1 <= n;
        assert(0 <= a / n) by (nonlinear_arith)
            requires 0 <= a, 1 <= n;
    } else {
        assert(-a <= l * n) by (nonlinear_arith)
            requires -l * n <= a;
        assert((-a) / n <= l) by (nonlinear_arith)
            requires 0 <= -a <= l * n, 1 <= n;
        assert(0 <= (-a) / n) by (nonlinear_arith)
            requires 0 <= -a, 1 <= n;
    }
}

/// `v` stretched to length `len`.
pub fn scale_to(v: Vec2i, len: i64) -> (r: Vec2i)
    requires
        small_vec(v, COORD_LIMIT as int),
        0 <= len <= COORD_LIMIT,
    ensures
        r == scaled(v, len as int),
        small_vec(r, len as int),
        len2(r) <= len * len,
{
    assert(0 <= v.x * v.x <= 0x1000_0000_0000_0000) by (nonlinear_arith)
        requires -0x4000_0000 <= v.x <= 0x4000_0000;
    assert(0 <= v.y * v.y <= 0x1000_0000_0000_0000) by (nonlinear_arith)
        requires -0x4000_0000 <= v.y <= 0x4000_0000;
    let s = (v.x * v.x + v.y * v.y) as u64;
    assert(s as int == len2(v));
    let n = isqrt(s);
    assert(n <= 0x8000_0000) by (nonlinear_arith)
        requires n * n <= s, s <= 0x2000_0000_0000_0000u64;
    if s == 0 {
        assert(root(0) == 0) by {
            lemma_root_unique(0, 0, root(0));
        }
        return Vec2i { x: 0, y: 0 };
    }
    let m: u64 = if n * n == s { n } else { n + 1 };
    assert(m as int == ceil_root(len2(v)));
    proof {
        let mm = m as int;
        let l2 = len2(v);
        assert(l2 <= mm * mm && mm >= 1) by (nonlinear_arith)
            requires n * n <= l2 < (n + 1) * (n + 1), mm == (if n * n == l2 { n as int } else { n + 1 }), l2 >= 1;
        assert(-mm <= v.x <= mm) by (nonlinear_arith)
            requires v.x * v.x + v.y * v.y <= mm * mm, v.y * v.y >= 0, mm >= 1;
        assert(-mm <= v.y <= mm) by (nonlinear_arith)
            requires v.x * v.x + v.y * v.y <= mm * mm, v.x * v.x >= 0, mm >= 1;
        assert(-(len as int) * mm <= v.x * len <= len * mm) by (nonlinear_arith)
            requires -mm <= v.x <= mm, 1 <= mm, 0 <= len;
        assert(-(len as int) * mm <= v.y * len <= len * mm) by (nonlinear_arith)
            requires -mm <= v.y <= mm, 1 <= mm, 0 <= len;
        lemma_tdiv_bound(v.x * len, mm, len as int);
        lemma_tdiv_bound(v.y * len, mm, len as int);
    }
    assert(-0x1000_0000_0000_0000 <= v.x * len <= 0x1000_0000_0000_0000) by (nonlinear_arith)
        requires -0x4000_0000 <= v.x <= 0x4000_0000, 0 <= len <= 0x4000_0000;
    assert(-0x1000_0000_0000_0000 <= v.y * len <= 0x1000_0000_0000_0000) by (nonlinear_arith)
        requires -0x4000_0000 <= v.y <= 0x4000_0000, 0 <= len <= 0x4000_0000;
    let mi = m as i64;
    let r = Vec2i { x: trunc_div(v.x * len, mi), y: trunc_div(v.y * len, mi) };
    proof {
        let mm = m as int;
        let l = len as int;
        lemma_tdiv_sq(v.x * l, mm);
        lemma_tdiv_sq(v.y * l, mm);
        let rx = r.x as int;
        let ry = r.y as int;
        assert((rx * rx + ry * ry) * (mm * mm) <= (v.x * v.x + v.y * v.y) * (l * l)) by (nonlinear_arith)
            requires rx * rx * (mm * mm) <= (v.x * l) * (v.x * l), ry * ry * (mm * mm) <= (v.y * l) * (v.y * l);
        assert((v.x * v.x + v.y * v.y) * (l * l) <= (mm * mm) * (l * l)) by (nonlinear_arith)
            requires v.x * v.x + v.y * v.y <= mm * mm;
        assert(rx * rx + ry * ry <= l * l) by (nonlinear_arith)
            requires (rx * rx + ry * ry) * (mm * mm) <= (mm * mm) * (l * l), mm >= 1;
    }
    r
}

/// Squared distance between two world positions.
pub open spec fn d2(a: Vec2i, b: Vec2i) -> int {
    (a.x - b.x) * (a.x - b.x) + (a.y - b.y) * (a.y - b.y)
}

pub fn dist2(a: Vec2i, b: Vec2i) -> (r: i128)
    requires
        small_vec(a, COORD_LIMIT as int),
        small_vec(b, COORD_LIMIT as int),
    ensures
        r == d2(a, b),
        r >= 0,
{
    let dx = a.x as i128 - b.x as i128;
    let dy = a.y as i128 - b.y as i128;
    assert(0 <= dx * dx <= 0x1_0000_0000_0000_0000) by (nonlinear_arith)
        requires -0x8000_0000 <= dx <= 0x8000_0000;
    assert(0 <= dy * dy <= 0x1_0000_0000_0000_0000) by (nonlinear_arith)
        requires -0x8000_0000 <= dy <= 0x8000_0000;
    dx * dx + dy * dy
}

} // verus!
