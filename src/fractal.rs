use vstd::prelude::*;
use crate::units::motion::tdiv;
use crate::geom::Point;
use crate::grid::{Grid, board_ok, on_board, cell_index, lemma_index_bounds, lemma_index_injective, lemma_index_inverse};
use crate::masks::flag;
use crate::blend::{
    window_count, window_area, window_counts, effective, boundary, radius_of, locked_cells, copy_grid,
    lemma_window_bounds, effective_classes, window_area_exec, is_boundary,
};
use crate::landscape::{TERRAIN_GRASSLAND, locked_mask, is_locked};
use crate::template::{MapTemplate, FractalConfig};

verus! {

/// One in 16.16 fixed point.
pub const Q: i128 = 65536;

/// A lattice point's hash under `seed` (an integer mix of the splitmix kind).
pub open spec fn lattice_hash(xi: u32, yi: u32, seed: u32) -> u32 {
    let v0 = xi.wrapping_mul(0x9E37_79B1u32) ^ yi.wrapping_mul(0x85EB_CA77u32) ^ seed.wrapping_mul(0xC2B2_AE3Du32);
    let v1 = v0 ^ (v0 >> 16u32);
    let v2 = v1.wrapping_mul(0x7feb_352du32);
    let v3 = v2 ^ (v2 >> 15u32);
    let v4 = v3.wrapping_mul(0x846c_a68bu32);
    v4 ^ (v4 >> 16u32)
}

pub fn hash_lattice(xi: i64, yi: i64, seed: u32) -> (r: u32)
    ensures
        r == lattice_hash(xi as u32, yi as u32, seed),
{
    let mut v: u32 = (xi as u32).wrapping_mul(0x9E37_79B1u32) ^ (yi as u32).wrapping_mul(0x85EB_CA77u32) ^ seed.wrapping_mul(0xC2B2_AE3Du32);
    v = v ^ (v >> 16u32);
    v = v.wrapping_mul(0x7feb_352du32);
    v = v ^ (v >> 15u32);
    v = v.wrapping_mul(0x846c_a68bu32);
    v ^ (v >> 16u32)
}

/// `v / d` rounded down, for `d > 0`.
pub open spec fn floor_div(v: int, d: int) -> int {
    if v >= 0 { v / d } else { -((-v + d - 1) / d) }
}

/// The smoothstep `t^2 (3 - 2t)` in fixed point, for `0 <= t <= 1`.
pub open spec fn fade_q(t: int) -> int {
    t * t * (3 * Q - 2 * t) / (Q * Q)
}

/// `a + (b - a) t` in fixed point, the product rounded toward zero.
pub open spec fn lerp_q(a: int, b: int, t: int) -> int {
    a + tdiv((b - a) * t, Q as int)
}

/// The top 16 bits of a lattice hash: a value in `[0, 1)`.
pub open spec fn lattice_value(x: int, y: int, seed: u32) -> int {
    (lattice_hash(x as u32, y as u32, seed) / 65536u32) as int
}

/// Value noise at `(xq, yq)` (fixed point): the lattice values of the four
/// corners around it blended with smoothstep weights, mapped to `[-1, 1]`.
pub open spec fn value_noise_q(xq: int, yq: int, seed: u32) -> int {
    let x0 = floor_div(xq, Q as int);
    let y0 = floor_div(yq, Q as int);
    let ux = fade_q(xq - x0 * Q);
    let uy = fade_q(yq - y0 * Q);
    let a = lerp_q(lattice_value(x0, y0, seed), lattice_value(x0 + 1, y0, seed), ux);
    let b = lerp_q(lattice_value(x0, y0 + 1, seed), lattice_value(x0 + 1, y0 + 1, seed), ux);
    2 * lerp_q(a, b, uy) - Q
}

pub fn trunc_div128(a: i128, b: i128) -> (r: i128)
    requires
        b > 0,
        a > i128::MIN,
    ensures
        r == tdiv(a as int, b as int),
{
    if a >= 0 { a / b } else { -((-a) / b) }
}

fn floor_div_exec(v: i128, d: i128) -> (r: i128)
    requires
        d > 0,
        -0x1_0000_0000_0000_0000 <= v <= 0x1_0000_0000_0000_0000,
        d <= 0x1_0000_0000,
    ensures
        r == floor_div(v as int, d as int),
        r * d <= v < r * d + d,
{
    let r = if v >= 0 { v / d } else { -((-v + d - 1) / d) };
    proof {
        if v >= 0 {
            assert(r * d <= v < r * d + d) by (nonlinear_arith)
                requires r == v / d, v >= 0, d > 0;
        } else {
            let vi = v as int;
            let di = d as int;
            let q = (-vi + di - 1) / di;
            assert(q * di <= -vi + di - 1 < q * di + di) by (nonlinear_arith)
                requires q == (-vi + di - 1) / di, -vi + di - 1 >= 0, di > 0;
            assert(r * d == -(q * d)) by (nonlinear_arith)
                requires r == -q;
        }
    }
    r
}

proof fn lemma_fade_range(t: int)
    requires
        0 <= t <= Q,
    ensures
        0 <= fade_q(t) <= Q,
{
    let qq = Q as int;
    assert(0 <= t * t * (3 * qq - 2 * t)) by (nonlinear_arith)
        requires 0 <= t <= qq, qq == 65536;
    assert(t * t * (3 * qq - 2 * t) <= qq * qq * qq) by (nonlinear_arith)
        requires 0 <= t <= qq, qq == 65536;
    assert(t * t * (3 * qq - 2 * t) / (qq * qq) <= qq) by (nonlinear_arith)
        requires 0 <= t * t * (3 * qq - 2 * t) <= qq * qq * qq, qq == 65536;
    assert(0 <= t * t * (3 * qq - 2 * t) / (qq * qq)) by (nonlinear_arith)
        requires 0 <= t * t * (3 * qq - 2 * t), qq == 65536;
}

proof fn lemma_lerp_between(a: int, b: int, t: int)
    requires
        0 <= t <= Q,
    ensures
        a <= b ==> a <= lerp_q(a, b, t) <= b,
        b <= a ==> b <= lerp_q(a, b, t) <= a,
{
    let qq = Q as int;
    let p = (b - a) * t;
    if a <= b {
        assert(0 <= p <= (b - a) * qq) by (nonlinear_arith)
            requires a <= b, 0 <= t <= qq, p == (b - a) * t;
        assert(p / qq <= b - a) by (nonlinear_arith)
            requires 0 <= p <= (b - a) * qq, qq == 65536;
        assert(0 <= p / qq) by (nonlinear_arith)
            requires 0 <= p, qq == 65536;
    } else {
        assert(0 <= -p <= (a - b) * qq) by (nonlinear_arith)
            requires b < a, 0 <= t <= qq, p == (b - a) * t;
        assert((-p) / qq <= a - b) by (nonlinear_arith)
            requires 0 <= -p <= (a - b) * qq, qq == 65536;
        assert(0 <= (-p) / qq) by (nonlinear_arith)
            requires 0 <= -p, qq == 65536;
    }
}

fn fade_exec(t: i128) -> (r: i128)
    requires
        0 <= t <= Q,
    ensures
        r == fade_q(t as int),
        0 <= r <= Q,
{
    proof { lemma_fade_range(t as int); }
    assert(0 <= t * t <= 0x1_0000_0000) by (nonlinear_arith)
        requires 0 <= t <= 65536;
    assert(0 <= t * t * (3 * Q - 2 * t) <= 0x4_0000_0000_0000) by (nonlinear_arith)
        requires 0 <= t <= 65536, 0 <= t * t <= 0x1_0000_0000;
    t * t * (3 * Q - 2 * t) / (Q * Q)
}

fn lerp_exec(a: i128, b: i128, t: i128) -> (r: i128)
    requires
        -0x1_0000_0000_0000 <= a <= 0x1_0000_0000_0000,
        -0x1_0000_0000_0000 <= b <= 0x1_0000_0000_0000,
        0 <= t <= Q,
    ensures
        r == lerp_q(a as int, b as int, t as int),
        a <= b ==> a <= r <= b,
        b <= a ==> b <= r <= a,
{
    proof { lemma_lerp_between(a as int, b as int, t as int); }
    assert(-0x4_0000_0000_0000_0000_0000 <= (b - a) * t <= 0x4_0000_0000_0000_0000_0000) by (nonlinear_arith)
        requires -0x2_0000_0000_0000 <= b - a <= 0x2_0000_0000_0000, 0 <= t <= 65536;
    a + trunc_div128((b - a) * t, Q)
}

fn lattice_value_exec(x: i128, y: i128, seed: u32) -> (r: i128)
    ensures
        r == lattice_value(x as int, y as int, seed),
        0 <= r < 65536,
{
    let h = hash_lattice(x as i64, y as i64, seed);
    assert((x as i64) as u32 == x as u32) by (bit_vector);
    assert((y as i64) as u32 == y as u32) by (bit_vector);
    (h / 65536u32) as i128
}

/// Value noise at a fixed-point position.
pub fn value_noise(xq: i128, yq: i128, seed: u32) -> (r: i128)
    requires
        -0x1_0000_0000_0000_0000 <= xq <= 0x1_0000_0000_0000_0000,
        -0x1_0000_0000_0000_0000 <= yq <= 0x1_0000_0000_0000_0000,
    ensures
        r == value_noise_q(xq as int, yq as int, seed),
        -Q <= r <= Q,
{
    let x0 = floor_div_exec(xq, Q);
    let y0 = floor_div_exec(yq, Q);
    let ux = fade_exec(xq - x0 * Q);
    let uy = fade_exec(yq - y0 * Q);
    let n00 = lattice_value_exec(x0, y0, seed);
    let n10 = lattice_value_exec(x0 + 1, y0, seed);
    let n01 = lattice_value_exec(x0, y0 + 1, seed);
    let n11 = lattice_value_exec(x0 + 1, y0 + 1, seed);
    let a = lerp_exec(n00, n10, ux);
    let b = lerp_exec(n01, n11, ux);
    let v = lerp_exec(a, b, uy);
    2 * v - Q
}


pub open spec fn pow4(n: nat) -> int
    decreases n,
{
    if n == 0 { 1 } else { 4 * pow4((n - 1) as nat) }
}

proof fn lemma_pow4_pos(n: nat)
    ensures
        pow4(n) >= 1,
    decreases n,
{
    if n > 0 {
        lemma_pow4_pos((n - 1) as nat);
    }
}

/// The running sums of fractal noise after `o` octaves: the weighted sum, the
/// total weight, the next weight and the next frequency (fixed point). Each
/// octave samples value noise at the position times the frequency, with the seed
/// advanced by the octave index; the weight shrinks by `gain` and the frequency
/// grows by `lac` (both in thousandths).
pub open spec fn fbm_state(xq: int, yq: int, seed: u32, gain: int, lac: int, o: nat) -> (int, int, int, int)
    decreases o,
{
    if o == 0 {
        (0, 0, Q as int, Q as int)
    } else {
        let p = fbm_state(xq, yq, seed, gain, lac, (o - 1) as nat);
        let v = value_noise_q(tdiv(xq * p.3, Q as int), tdiv(yq * p.3, Q as int), seed.wrapping_add((o - 1) as u32));
        (p.0 + tdiv(v * p.2, Q as int), p.1 + p.2, tdiv(p.2 * gain, 1000), tdiv(p.3 * lac, 1000))
    }
}

/// Fractal noise in `[-1, 1]` (fixed point): the weighted sum over the total weight.
pub open spec fn fbm_q(xq: int, yq: int, seed: u32, octaves: nat, gain: int, lac: int) -> int {
    let s = fbm_state(xq, yq, seed, gain, lac, octaves);
    if s.1 > 0 { tdiv(s.0 * Q, s.1) } else { 0 }
}

/// Fractal settings the fixed-point arithmetic was proved for.
pub open spec fn warp_ok(octaves: int, gain: int, lac: int) -> bool {
    0 <= octaves <= 16 && 0 <= gain <= 1000 && 0 <= lac <= 4000
}

proof fn lemma_tdiv_scaled(v: int, a: int)
    requires
        -Q <= v <= Q,
        0 <= a <= Q,
    ensures
        -a <= tdiv(v * a, Q as int) <= a,
{
    let qq = Q as int;
    if v * a >= 0 {
        assert(v * a <= qq * a) by (nonlinear_arith)
            requires -qq <= v <= qq, 0 <= a;
        assert((v * a) / qq <= a) by (nonlinear_arith)
            requires 0 <= v * a <= qq * a, qq == 65536;
        assert(0 <= (v * a) / qq) by (nonlinear_arith)
            requires 0 <= v * a, qq == 65536;
    } else {
        assert(-(v * a) <= qq * a) by (nonlinear_arith)
            requires -qq <= v <= qq, 0 <= a;
        assert((-(v * a)) / qq <= a) by (nonlinear_arith)
            requires 0 <= -(v * a) <= qq * a, qq == 65536;
        assert(0 <= (-(v * a)) / qq) by (nonlinear_arith)
            requires 0 <= -(v * a), qq == 65536;
    }
}

/// Fractal noise at a fixed-point position.
pub fn fbm(xq: i128, yq: i128, seed: u32, octaves: u32, gain: i32, lac: i32) -> (r: i128)
    requires
        -0x1_0000_0000 <= xq <= 0x1_0000_0000,
        -0x1_0000_0000 <= yq <= 0x1_0000_0000,
        warp_ok(octaves as int, gain as int, lac as int),
    ensures
        r == fbm_q(xq as int, yq as int, seed, octaves as nat, gain as int, lac as int),
        -Q <= r <= Q,
{
    let mut sum: i128 = 0;
    let mut norm: i128 = 0;
    let mut amp: i128 = Q;
    let mut freq: i128 = Q;
    let mut o: u32 = 0;
    proof {
        reveal_with_fuel(pow4, 17);
        assert(pow4(16) == 0x1_0000_0000);
    }
    while o < octaves
        invariant
            warp_ok(octaves as int, gain as int, lac as int),
            -0x1_0000_0000 <= xq <= 0x1_0000_0000,
            -0x1_0000_0000 <= yq <= 0x1_0000_0000,
            o <= octaves,
            (sum as int, norm as int, amp as int, freq as int) == fbm_state(xq as int, yq as int, seed, gain as int, lac as int, o as nat),
            0 <= amp <= Q,
            0 <= freq,
            freq * pow4((16 - o) as nat) <= Q * 0x1_0000_0000,
            -norm <= sum <= norm,
            0 <= norm <= o * Q,
        decreases octaves - o,
    {
        proof {
            lemma_pow4_pos((16 - o) as nat);
            lemma_pow4_pos((15 - o) as nat);
            assert(pow4((16 - o) as nat) == 4 * pow4((15 - o) as nat));
            assert(freq <= 0x1_0000_0000_0000) by (nonlinear_arith)
                requires freq * pow4((16 - o) as nat) <= 0x1_0000_0000_0000, pow4((16 - o) as nat) >= 1, freq >= 0;
            assert(-0x1_0000_0000_0000_0000_0000 <= xq * freq <= 0x1_0000_0000_0000_0000_0000) by (nonlinear_arith)
                requires -0x1_0000_0000 <= xq <= 0x1_0000_0000, 0 <= freq <= 0x1_0000_0000_0000;
            assert(-0x1_0000_0000_0000_0000_0000 <= yq * freq <= 0x1_0000_0000_0000_0000_0000) by (nonlinear_arith)
                requires -0x1_0000_0000 <= yq <= 0x1_0000_0000, 0 <= freq <= 0x1_0000_0000_0000;
        }
        let px = trunc_div128(xq * freq, Q);
        let py = trunc_div128(yq * freq, Q);
        proof {
            assert(-0x1_0000_0000_0000_0000 <= px <= 0x1_0000_0000_0000_0000) by (nonlinear_arith)
                requires px == tdiv(xq * freq, 65536), -0x1_0000_0000_0000_0000_0000 <= xq * freq <= 0x1_0000_0000_0000_0000_0000;
            assert(-0x1_0000_0000_0000_0000 <= py <= 0x1_0000_0000_0000_0000) by (nonlinear_arith)
                requires py == tdiv(yq * freq, 65536), -0x1_0000_0000_0000_0000_0000 <= yq * freq <= 0x1_0000_0000_0000_0000_0000;
        }
        let v = value_noise(px, py, seed.wrapping_add(o));
        proof {
            lemma_tdiv_scaled(v as int, amp as int);
            assert(-0x1_0000_0000 <= v * amp <= 0x1_0000_0000) by (nonlinear_arith)
                requires -65536 <= v <= 65536, 0 <= amp <= 65536;
            assert(0 <= amp * gain <= 65536 * 1000) by (nonlinear_arith)
                requires 0 <= amp <= 65536, 0 <= gain <= 1000;
            assert(0 <= freq * lac <= 0x1_0000_0000_0000 * 4000) by (nonlinear_arith)
                requires 0 <= freq <= 0x1_0000_0000_0000, 0 <= lac <= 4000;
        }
        let ghost st = fbm_state(xq as int, yq as int, seed, gain as int, lac as int, o as nat);
        sum = sum + trunc_div128(v * amp, Q);
        norm = norm + amp;
        let namp = trunc_div128(amp * gain as i128, 1000);
        let nfreq = trunc_div128(freq * lac as i128, 1000);
        proof {
            assert(0 <= namp <= amp) by (nonlinear_arith)
                requires namp == tdiv(amp * gain, 1000), 0 <= amp, 0 <= gain <= 1000;
            assert(0 <= nfreq <= 4 * freq) by (nonlinear_arith)
                requires nfreq == tdiv(freq * lac, 1000), 0 <= freq, 0 <= lac <= 4000;
            assert(nfreq * pow4((15 - o) as nat) <= freq * pow4((16 - o) as nat)) by (nonlinear_arith)
                requires 0 <= nfreq <= 4 * freq, pow4((16 - o) as nat) == 4 * pow4((15 - o) as nat), pow4((15 - o) as nat) >= 1;
            assert(seed.wrapping_add(o) == seed.wrapping_add(((o + 1) - 1) as u32));
            assert(norm <= (o + 1) * Q) by (nonlinear_arith)
                requires norm <= o * 65536 + 65536;
        }
        amp = namp;
        freq = nfreq;
        o = o + 1;
    }
    if norm > 0 {
        proof {
            assert(-0x1_0000_0000_0000_0000 <= sum * Q <= 0x1_0000_0000_0000_0000) by (nonlinear_arith)
                requires -norm <= sum <= norm, 0 <= norm <= 16 * 65536;
            assert(-Q * norm <= sum * Q <= Q * norm) by (nonlinear_arith)
                requires -norm <= sum <= norm;
            lemma_tdiv_frac(sum * Q, norm as int);
        }
        trunc_div128(sum * Q, norm)
    } else {
        0
    }
}

proof fn lemma_tdiv_frac(a: int, n: int)
    requires
        n >= 1,
        -Q * n <= a <= Q * n,
    ensures
        -Q <= tdiv(a, n) <= Q,
{
    if a >= 0 {
        assert(a / n <= Q) by (nonlinear_arith)
            requires 0 <= a <= 65536 * n, n >= 1;
        assert(0 <= a / n) by (nonlinear_arith)
            requires 0 <= a, n >= 1;
    } else {
        assert(-a <= 65536 * n) by (nonlinear_arith)
            requires -65536 * n <= a;
        assert((-a) / n <= Q) by (nonlinear_arith)
            requires 0 <= -a <= 65536 * n, n >= 1;
        assert(0 <= (-a) / n) by (nonlinear_arith)
            requires 0 <= -a, n >= 1;
    }
}


/// The blurred affinity of class `k` at a cell, in fixed point: the share of
/// class-`k` cells in its window, rounded down.
pub open spec fn blur_q(e: Seq<u8>, w: int, h: int, x: int, y: int, r: int, k: u8) -> int {
    window_count(e, w, h, x, y, r, k) * Q / window_area(w, h, x, y, r)
}

pub open spec fn clamp_q(v: int, hi: int) -> int {
    if v < 0 { 0 } else if v > hi { hi } else { v }
}

/// The blurred affinity sampled bilinearly at a fixed-point position held to
/// the board.
pub open spec fn sample_blur(e: Seq<u8>, w: int, h: int, r: int, k: u8, sxq: int, syq: int) -> int {
    let sx = clamp_q(sxq, (w - 1) * Q);
    let sy = clamp_q(syq, (h - 1) * Q);
    let x0 = sx / (Q as int);
    let y0 = sy / (Q as int);
    let x1 = if x0 + 1 < w { x0 + 1 } else { w - 1 };
    let y1 = if y0 + 1 < h { y0 + 1 } else { h - 1 };
    let a = lerp_q(blur_q(e, w, h, x0, y0, r, k), blur_q(e, w, h, x1, y0, r, k), sx - x0 * Q);
    let b = lerp_q(blur_q(e, w, h, x0, y1, r, k), blur_q(e, w, h, x1, y1, r, k), sx - x0 * Q);
    lerp_q(a, b, sy - y0 * Q)
}

/// The displacement of cell `(x, y)` (fixed point): `warp_amp` times fractal
/// noise at the cell scaled by `warp_freq`, one seed per axis.
pub open spec fn warp_of(s: FractalConfig, x: int, y: int) -> (int, int) {
    let xf = tdiv(x * Q * s.warp_freq_permille, 1000);
    let yf = tdiv(y * Q * s.warp_freq_permille, 1000);
    let o = s.warp_octaves as nat;
    let g = s.warp_gain_permille as int;
    let l = s.warp_lacunarity_permille as int;
    (
        s.warp_amp * fbm_q(xf, yf, s.seed.wrapping_add(0xB529_7A4Du32), o, g, l),
        s.warp_amp * fbm_q(xf, yf, s.seed.wrapping_add(0x68E3_1DA4u32), o, g, l),
    )
}

/// The warped affinity of class `k` at `(x, y)`, plus the inertia bonus for the
/// current class.
pub open spec fn warped_score(e: Seq<u8>, w: int, h: int, s: FractalConfig, x: int, y: int, k: int, cur: int) -> int {
    let d = warp_of(s, x, y);
    sample_blur(e, w, h, radius_of(s.radii, k), k as u8, x * Q + d.0, y * Q + d.1)
        + (if k == cur { tdiv(s.inertia_permille * Q, 1000) } else { 0 })
}

/// The class of highest warped affinity; the lower class wins a tie.
pub open spec fn warped_best(e: Seq<u8>, w: int, h: int, s: FractalConfig, x: int, y: int, cur: int) -> u8 {
    let s0 = warped_score(e, w, h, s, x, y, 0, cur);
    let s1 = warped_score(e, w, h, s, x, y, 1, cur);
    let s2 = warped_score(e, w, h, s, x, y, 2, cur);
    let s3 = warped_score(e, w, h, s, x, y, 3, cur);
    let b1: int = if s1 > s0 { 1 } else { 0 };
    let m1 = if s1 > s0 { s1 } else { s0 };
    let b2: int = if s2 > m1 { 2 } else { b1 };
    let m2 = if s2 > m1 { s2 } else { m1 };
    let b3: int = if s3 > m2 { 3 } else { b2 };
    b3 as u8
}

/// A cell's class after one warped relabelling round: as `blend_cell`, with the
/// affinities sampled at the displaced position.
pub open spec fn fractal_cell(cl: Seq<u8>, lk: Seq<bool>, w: int, h: int, s: FractalConfig, x: int, y: int) -> u8 {
    let i = cell_index(w, x, y);
    if lk[i] {
        TERRAIN_GRASSLAND
    } else if s.boundary_only && !boundary(cl, w, h, x, y) {
        cl[i]
    } else {
        warped_best(effective(cl, lk), w, h, s, x, y, cl[i] as int)
    }
}

pub open spec fn fractal_step(cl: Seq<u8>, lk: Seq<bool>, w: int, h: int, s: FractalConfig) -> Seq<u8> {
    Seq::new((w * h) as nat, |i: int| fractal_cell(cl, lk, w, h, s, i % w, i / w))
}

pub open spec fn fractal_iter(cl: Seq<u8>, lk: Seq<bool>, w: int, h: int, s: FractalConfig, n: nat) -> Seq<u8>
    decreases n,
{
    if n == 0 { cl } else { fractal_step(fractal_iter(cl, lk, w, h, s, (n - 1) as nat), lk, w, h, s) }
}

/// Settings and board sizes the warped relabelling was proved for. The octave
/// weight never grows (gain at most 1) and the frequency at most quadruples per
/// octave (lacunarity at most 4) over at most 16 octaves, so the finest octave
/// samples at most 4^16 times the base frequency and every sample position stays
/// within the 64-bit range the lattice hash reads; the base frequency is at most one cycle per
/// tile, the finest pattern a tile grid can show; boards are at most 65535 tiles
/// a side so that a tile position fits 16.16 fixed point in 32 bits.
pub open spec fn fractal_ok(s: FractalConfig, w: int, h: int) -> bool {
    &&& warp_ok(s.warp_octaves as int, s.warp_gain_permille as int, s.warp_lacunarity_permille as int)
    &&& 0 <= s.warp_freq_permille <= 1000
    &&& -1_000_000 <= s.warp_amp <= 1_000_000
    &&& -1_000_000 <= s.inertia_permille <= 1_000_000
    &&& 1 <= w <= 65535
    &&& 1 <= h <= 65535
}

/// The blurred affinities of class `k` for every cell.
fn blur_buffer(e: &Vec<u8>, w: i32, h: i32, r: i32, k: u8) -> (buf: Vec<i128>)
    requires
        board_ok(w as int, h as int),
        e@.len() == w * h,
    ensures
        buf@.len() == w * h,
        forall|x: int, y: int| on_board(w as int, h as int, x, y) ==> #[trigger] buf@[cell_index(w as int, x, y)] as int
            == blur_q(e@, w as int, h as int, x, y, r as int, k),
        forall|i: int| 0 <= i < buf@.len() ==> 0 <= #[trigger] buf@[i] <= Q,
{
    let c = window_counts(e, w, h, r, k);
    let mut buf: Vec<i128> = Vec::new();
    let mut y: i32 = 0;
    while y < h
        invariant
            board_ok(w as int, h as int),
            e@.len() == w * h,
            c@.len() == w * h,
            forall|x: int, y2: int| on_board(w as int, h as int, x, y2) ==> #[trigger] c@[cell_index(w as int, x, y2)]
                == window_count(e@, w as int, h as int, x, y2, r as int, k),
            0 <= y <= h,
            buf@.len() == y * w,
            forall|x: int, y2: int| on_board(w as int, h as int, x, y2) && y2 < y ==> #[trigger] buf@[cell_index(w as int, x, y2)] as int
                == blur_q(e@, w as int, h as int, x, y2, r as int, k),
            forall|i: int| 0 <= i < buf@.len() ==> 0 <= #[trigger] buf@[i] <= Q,
        decreases h - y,
    {
        let mut x: i32 = 0;
        while x < w
            invariant
                board_ok(w as int, h as int),
                e@.len() == w * h,
                c@.len() == w * h,
                forall|x: int, y2: int| on_board(w as int, h as int, x, y2) ==> #[trigger] c@[cell_index(w as int, x, y2)]
                    == window_count(e@, w as int, h as int, x, y2, r as int, k),
                0 <= y < h,
                0 <= x <= w,
                buf@.len() == y * w + x,
                forall|x2: int, y2: int| on_board(w as int, h as int, x2, y2) && (y2 < y || (y2 == y && x2 < x)) ==> #[trigger] buf@[cell_index(w as int, x2, y2)] as int
                    == blur_q(e@, w as int, h as int, x2, y2, r as int, k),
                forall|i: int| 0 <= i < buf@.len() ==> 0 <= #[trigger] buf@[i] <= Q,
            decreases w - x,
        {
            proof {
                lemma_index_bounds(w as int, h as int, x as int, y as int);
                lemma_window_bounds(e@, w as int, h as int, x as int, y as int, r as int, k);
            }
            let cnt = c[(y * w + x) as usize] as i128;
            let area = window_area_exec(w, h, x, y, r) as i128;
            assert(0 <= cnt * Q <= area * Q) by (nonlinear_arith)
                requires 0 <= cnt <= area;
            assert((cnt as int) * 65536 / (area as int) <= 65536) by (nonlinear_arith)
                requires 0 <= (cnt as int) * 65536 <= (area as int) * 65536, area >= 1;
            assert(0 <= (cnt as int) * 65536 / (area as int)) by (nonlinear_arith)
                requires 0 <= (cnt as int) * 65536, area >= 1;
            assert(area * Q <= 0x8000_0000 * 65536) by (nonlinear_arith)
                requires area <= 0x8000_0000;
            let v = cnt * Q / area;
            proof {
                assert forall|x2: int, y2: int| on_board(w as int, h as int, x2, y2) && (y2 < y || (y2 == y && x2 < x + 1)) implies #[trigger] buf@.push(v)[cell_index(w as int, x2, y2)] as int
                    == blur_q(e@, w as int, h as int, x2, y2, r as int, k) by {
                    lemma_index_bounds(w as int, h as int, x2, y2);
                    if y2 < y {
                        assert(cell_index(w as int, x2, y2) < y * w) by (nonlinear_arith)
                            requires 0 <= x2 < w, 0 <= y2 < y;
                    }
                }
            }
            buf.push(v);
            x = x + 1;
        }
        proof {
            assert(buf@.len() == (y + 1) * w) by (nonlinear_arith)
                requires buf@.len() == y * w + w;
        }
        y = y + 1;
    }
    assert(h * w == w * h) by (nonlinear_arith);
    buf
}

fn corner(buf: &Vec<i128>, w: i32, h: i32, x: i128, y: i128, Ghost(e): Ghost<Seq<u8>>, Ghost(r): Ghost<int>, Ghost(k): Ghost<u8>) -> (v: i128)
    requires
        board_ok(w as int, h as int),
        buf@.len() == w * h,
        on_board(w as int, h as int, x as int, y as int),
        forall|x: int, y: int| on_board(w as int, h as int, x, y) ==> #[trigger] buf@[cell_index(w as int, x, y)] as int
            == blur_q(e, w as int, h as int, x, y, r, k),
        forall|i: int| 0 <= i < buf@.len() ==> 0 <= #[trigger] buf@[i] <= Q,
    ensures
        v == blur_q(e, w as int, h as int, x as int, y as int, r, k),
        0 <= v <= Q,
{
    proof { lemma_index_bounds(w as int, h as int, x as int, y as int); }
    buf[(y * w as i128 + x) as usize]
}

proof fn lemma_cell_of(s: int, n: int)
    requires
        1 <= n,
        0 <= s <= (n - 1) * 65536,
    ensures
        0 <= s / 65536 < n,
        0 <= s - (s / 65536) * 65536 <= 65536,
{
    assert(0 <= s / 65536 < n) by (nonlinear_arith)
        requires 0 <= s <= (n - 1) * 65536, n >= 1;
    assert(0 <= s - (s / 65536) * 65536 <= 65536) by (nonlinear_arith)
        requires 0 <= s;
}

/// `sample_blur` over a buffer of blurred affinities.
#[verifier::rlimit(80)]
fn sample(buf: &Vec<i128>, w: i32, h: i32, sxq: i128, syq: i128, Ghost(e): Ghost<Seq<u8>>, Ghost(r): Ghost<int>, Ghost(k): Ghost<u8>) -> (v: i128)
    requires
        1 <= w <= 65535,
        1 <= h <= 65535,
        board_ok(w as int, h as int),
        buf@.len() == w * h,
        forall|x: int, y: int| on_board(w as int, h as int, x, y) ==> #[trigger] buf@[cell_index(w as int, x, y)] as int
            == blur_q(e, w as int, h as int, x, y, r, k),
        forall|i: int| 0 <= i < buf@.len() ==> 0 <= #[trigger] buf@[i] <= Q,
    ensures
        v == sample_blur(e, w as int, h as int, r, k, sxq as int, syq as int),
        0 <= v <= Q,
{
    let hx = (w as i128 - 1) * Q;
    let hy = (h as i128 - 1) * Q;
    let sx = if sxq < 0 { 0 } else if sxq > hx { hx } else { sxq };
    let sy = if syq < 0 { 0 } else if syq > hy { hy } else { syq };
    proof {
        lemma_cell_of(sx as int, w as int);
        lemma_cell_of(sy as int, h as int);
    }
    let x0 = sx / Q;
    let y0 = sy / Q;
    let x1 = if x0 + 1 < w as i128 { x0 + 1 } else { w as i128 - 1 };
    let y1 = if y0 + 1 < h as i128 { y0 + 1 } else { h as i128 - 1 };
    let b00 = corner(buf, w, h, x0, y0, Ghost(e), Ghost(r), Ghost(k));
    let b10 = corner(buf, w, h, x1, y0, Ghost(e), Ghost(r), Ghost(k));
    let b01 = corner(buf, w, h, x0, y1, Ghost(e), Ghost(r), Ghost(k));
    let b11 = corner(buf, w, h, x1, y1, Ghost(e), Ghost(r), Ghost(k));
    let a = lerp_exec(b00, b10, sx - x0 * Q);
    let b = lerp_exec(b01, b11, sx - x0 * Q);
    lerp_exec(a, b, sy - y0 * Q)
}


/// The displacement of one cell.
pub fn warp(s: &FractalConfig, x: i32, y: i32) -> (d: (i128, i128))
    requires
        warp_ok(s.warp_octaves as int, s.warp_gain_permille as int, s.warp_lacunarity_permille as int),
        0 <= s.warp_freq_permille <= 1000,
        -1_000_000 <= s.warp_amp <= 1_000_000,
        0 <= x <= 65535,
        0 <= y <= 65535,
    ensures
        d.0 as int == warp_of(*s, x as int, y as int).0,
        d.1 as int == warp_of(*s, x as int, y as int).1,
        -1_000_000 * Q <= d.0 <= 1_000_000 * Q,
        -1_000_000 * Q <= d.1 <= 1_000_000 * Q,
{
    let f = s.warp_freq_permille as i128;
    assert(0 <= x as i128 * Q * f <= 65535 * 65536 * 1000) by (nonlinear_arith)
        requires 0 <= x <= 65535, 0 <= f <= 1000;
    assert(0 <= y as i128 * Q * f <= 65535 * 65536 * 1000) by (nonlinear_arith)
        requires 0 <= y <= 65535, 0 <= f <= 1000;
    let xf = trunc_div128(x as i128 * Q * f, 1000);
    let yf = trunc_div128(y as i128 * Q * f, 1000);
    assert(xf <= 0x1_0000_0000) by (nonlinear_arith)
        requires xf == tdiv(x * 65536 * f, 1000), 0 <= x <= 65535, 0 <= f <= 1000, x * 65536 * f >= 0;
    assert(yf <= 0x1_0000_0000) by (nonlinear_arith)
        requires yf == tdiv(y * 65536 * f, 1000), 0 <= y <= 65535, 0 <= f <= 1000, y * 65536 * f >= 0;
    let nx = fbm(xf, yf, s.seed.wrapping_add(0xB529_7A4Du32), s.warp_octaves, s.warp_gain_permille, s.warp_lacunarity_permille);
    let ny = fbm(xf, yf, s.seed.wrapping_add(0x68E3_1DA4u32), s.warp_octaves, s.warp_gain_permille, s.warp_lacunarity_permille);
    let a = s.warp_amp as i128;
    assert(-1_000_000 * Q <= a * nx <= 1_000_000 * Q) by (nonlinear_arith)
        requires -1_000_000 <= a <= 1_000_000, -65536 <= nx <= 65536;
    assert(-1_000_000 * Q <= a * ny <= 1_000_000 * Q) by (nonlinear_arith)
        requires -1_000_000 <= a <= 1_000_000, -65536 <= ny <= 65536;
    (a * nx, a * ny)
}

/// One warped relabelling round over the whole grid (see `fractal_cell`).
#[verifier::rlimit(60)]
pub fn relabel_fractal_once(cl: &Grid<u8>, lk: &Vec<bool>, s: &FractalConfig) -> (r: Grid<u8>)
    requires
        cl.wf(),
        lk@.len() == cl.cells().len(),
        fractal_ok(*s, cl.w as int, cl.h as int),
    ensures
        r.wf(),
        r.w == cl.w,
        r.h == cl.h,
        r.cells() == fractal_step(cl.cells(), lk@, cl.w as int, cl.h as int, *s),
{
    let w = cl.w;
    let h = cl.h;
    let e = effective_classes(cl, lk);
    let ghost ee = e@;
    let b0 = blur_buffer(&e, w, h, s.radii.0, 0);
    let b1 = blur_buffer(&e, w, h, s.radii.1, 1);
    let b2 = blur_buffer(&e, w, h, s.radii.2, 2);
    let b3 = blur_buffer(&e, w, h, s.radii.3, 3);
    assert(-1_000_000 * 65536 <= s.inertia_permille as i128 * Q <= 1_000_000 * 65536) by (nonlinear_arith)
        requires -1_000_000 <= s.inertia_permille <= 1_000_000;
    let bonus = trunc_div128(s.inertia_permille as i128 * Q, 1000);
    assert(-1_000_000 * 65536 <= bonus <= 1_000_000 * 65536) by (nonlinear_arith)
        requires bonus == tdiv(s.inertia_permille * 65536, 1000), -1_000_000 * 65536 <= s.inertia_permille * 65536 <= 1_000_000 * 65536;
    let mut out: Grid<u8> = Grid::filled(w, h, TERRAIN_GRASSLAND);
    let mut y: i32 = 0;
    while y < h
        invariant
            cl.wf(),
            w == cl.w,
            h == cl.h,
            fractal_ok(*s, w as int, h as int),
            lk@.len() == w * h,
            ee == effective(cl.cells(), lk@),
            bonus == tdiv(s.inertia_permille * Q, 1000),
            -1_000_000 * 65536 <= bonus <= 1_000_000 * 65536,
            b0@.len() == w * h,
            b1@.len() == w * h,
            b2@.len() == w * h,
            b3@.len() == w * h,
            forall|x: int, y: int| on_board(w as int, h as int, x, y) ==> #[trigger] b0@[cell_index(w as int, x, y)] as int == blur_q(ee, w as int, h as int, x, y, s.radii.0 as int, 0),
            forall|x: int, y: int| on_board(w as int, h as int, x, y) ==> #[trigger] b1@[cell_index(w as int, x, y)] as int == blur_q(ee, w as int, h as int, x, y, s.radii.1 as int, 1),
            forall|x: int, y: int| on_board(w as int, h as int, x, y) ==> #[trigger] b2@[cell_index(w as int, x, y)] as int == blur_q(ee, w as int, h as int, x, y, s.radii.2 as int, 2),
            forall|x: int, y: int| on_board(w as int, h as int, x, y) ==> #[trigger] b3@[cell_index(w as int, x, y)] as int == blur_q(ee, w as int, h as int, x, y, s.radii.3 as int, 3),
            forall|i: int| 0 <= i < b0@.len() ==> 0 <= #[trigger] b0@[i] <= Q,
            forall|i: int| 0 <= i < b1@.len() ==> 0 <= #[trigger] b1@[i] <= Q,
            forall|i: int| 0 <= i < b2@.len() ==> 0 <= #[trigger] b2@[i] <= Q,
            forall|i: int| 0 <= i < b3@.len() ==> 0 <= #[trigger] b3@[i] <= Q,
            out.wf(),
            out.w == w,
            out.h == h,
            0 <= y <= h,
            forall|x2: int, y2: int| on_board(w as int, h as int, x2, y2) && y2 < y ==> #[trigger] out.at(x2, y2)
                == fractal_cell(cl.cells(), lk@, w as int, h as int, *s, x2, y2),
        decreases h - y,
    {
        let mut x: i32 = 0;
        while x < w
            invariant
                cl.wf(),
                w == cl.w,
                h == cl.h,
                fractal_ok(*s, w as int, h as int),
                lk@.len() == w * h,
                ee == effective(cl.cells(), lk@),
                bonus == tdiv(s.inertia_permille * Q, 1000),
                -1_000_000 * 65536 <= bonus <= 1_000_000 * 65536,
                b0@.len() == w * h,
                b1@.len() == w * h,
                b2@.len() == w * h,
                b3@.len() == w * h,
                forall|x: int, y: int| on_board(w as int, h as int, x, y) ==> #[trigger] b0@[cell_index(w as int, x, y)] as int == blur_q(ee, w as int, h as int, x, y, s.radii.0 as int, 0),
                forall|x: int, y: int| on_board(w as int, h as int, x, y) ==> #[trigger] b1@[cell_index(w as int, x, y)] as int == blur_q(ee, w as int, h as int, x, y, s.radii.1 as int, 1),
                forall|x: int, y: int| on_board(w as int, h as int, x, y) ==> #[trigger] b2@[cell_index(w as int, x, y)] as int == blur_q(ee, w as int, h as int, x, y, s.radii.2 as int, 2),
                forall|x: int, y: int| on_board(w as int, h as int, x, y) ==> #[trigger] b3@[cell_index(w as int, x, y)] as int == blur_q(ee, w as int, h as int, x, y, s.radii.3 as int, 3),
                forall|i: int| 0 <= i < b0@.len() ==> 0 <= #[trigger] b0@[i] <= Q,
                forall|i: int| 0 <= i < b1@.len() ==> 0 <= #[trigger] b1@[i] <= Q,
                forall|i: int| 0 <= i < b2@.len() ==> 0 <= #[trigger] b2@[i] <= Q,
                forall|i: int| 0 <= i < b3@.len() ==> 0 <= #[trigger] b3@[i] <= Q,
                out.wf(),
                out.w == w,
                out.h == h,
                0 <= y < h,
                0 <= x <= w,
                forall|x2: int, y2: int| on_board(w as int, h as int, x2, y2) && (y2 < y || (y2 == y && x2 < x)) ==> #[trigger] out.at(x2, y2)
                    == fractal_cell(cl.cells(), lk@, w as int, h as int, *s, x2, y2),
            decreases w - x,
        {
            proof {
                lemma_index_bounds(w as int, h as int, x as int, y as int);
            }
            let i = (y * w + x) as usize;
            let cur = cl.data[i];
            let v: u8 = if lk[i] {
                TERRAIN_GRASSLAND
            } else if s.boundary_only && !is_boundary(cl, x, y) {
                cur
            } else {
                let d = warp(s, x, y);
                let sx = x as i128 * Q + d.0;
                let sy = y as i128 * Q + d.1;
                let s0 = sample(&b0, w, h, sx, sy, Ghost(ee), Ghost(s.radii.0 as int), Ghost(0u8)) + if cur == 0 { bonus } else { 0 };
                let s1 = sample(&b1, w, h, sx, sy, Ghost(ee), Ghost(s.radii.1 as int), Ghost(1u8)) + if cur == 1 { bonus } else { 0 };
                let s2 = sample(&b2, w, h, sx, sy, Ghost(ee), Ghost(s.radii.2 as int), Ghost(2u8)) + if cur == 2 { bonus } else { 0 };
                let s3 = sample(&b3, w, h, sx, sy, Ghost(ee), Ghost(s.radii.3 as int), Ghost(3u8)) + if cur == 3 { bonus } else { 0 };
                let mut best: u8 = 0;
                let mut bs = s0;
                if s1 > bs {
                    best = 1;
                    bs = s1;
                }
                if s2 > bs {
                    best = 2;
                    bs = s2;
                }
                if s3 > bs {
                    best = 3;
                }
                best
            };
            proof {
                assert(v == fractal_cell(cl.cells(), lk@, w as int, h as int, *s, x as int, y as int));
            }
            let ghost before = out;
            out.set(x, y, v);
            proof {
                assert forall|x2: int, y2: int| on_board(w as int, h as int, x2, y2) && (y2 < y || (y2 == y && x2 < x + 1)) implies #[trigger] out.at(x2, y2)
                    == fractal_cell(cl.cells(), lk@, w as int, h as int, *s, x2, y2) by {
                    lemma_index_bounds(w as int, h as int, x2, y2);
                    if cell_index(w as int, x2, y2) == cell_index(w as int, x as int, y as int) {
                        lemma_index_injective(w as int, h as int, x2, y2, x as int, y as int);
                    } else {
                        assert(out.at(x2, y2) == before.at(x2, y2));
                    }
                }
            }
            x = x + 1;
        }
        y = y + 1;
    }
    proof {
        assert forall|i: int| 0 <= i < w * h implies #[trigger] out.cells()[i]
            == fractal_step(cl.cells(), lk@, w as int, h as int, *s)[i] by {
            lemma_index_inverse(w as int, h as int, i);
            let x2 = i % (w as int);
            let y2 = i / (w as int);
            assert(out.at(x2, y2) == fractal_cell(cl.cells(), lk@, w as int, h as int, *s, x2, y2));
            assert(out.at(x2, y2) == out.cells()[i]);
        }
        assert(out.cells() =~= fractal_step(cl.cells(), lk@, w as int, h as int, *s));
    }
    out
}

/// Phase 4b: `iterations` warped relabelling rounds (see `fractal_cell`), locked
/// tiles then pinned to grass once more. Every locked tile ends as grass.
pub fn blend_fractal(tpl: &MapTemplate, base_centers: &Vec<Point>, shrines: &Vec<Point>, classes_in: &Grid<u8>, settings: FractalConfig) -> (r: Grid<u8>)
    requires
        classes_in.wf(),
        classes_in.w == tpl.size.0,
        classes_in.h == tpl.size.1,
        fractal_ok(settings, classes_in.w as int, classes_in.h as int),
    ensures
        r.wf(),
        r.w == classes_in.w,
        r.h == classes_in.h,
        ({
            let w = classes_in.w as int;
            let h = classes_in.h as int;
            let lk = locked_cells(base_centers@, tpl.player_spawns.base_radius as int, shrines@, tpl.terrain.shrine_grass_radius as int, w, h);
            r.cells() == effective(fractal_iter(classes_in.cells(), lk, w, h, settings, settings.iterations as nat), lk)
        }),
        forall|x: int, y: int| on_board(classes_in.w as int, classes_in.h as int, x, y)
            && is_locked(base_centers@, tpl.player_spawns.base_radius as int, shrines@, tpl.terrain.shrine_grass_radius as int, x, y)
            ==> #[trigger] r.at(x, y) == TERRAIN_GRASSLAND,
{
    let w = classes_in.w;
    let h = classes_in.h;
    let lk = locked_mask(w, h, base_centers, tpl.player_spawns.base_radius, shrines, tpl.terrain.shrine_grass_radius);
    let ghost lks = locked_cells(base_centers@, tpl.player_spawns.base_radius as int, shrines@, tpl.terrain.shrine_grass_radius as int, w as int, h as int);
    proof {
        assert forall|i: int| 0 <= i < w * h implies #[trigger] lk@[i] == lks[i] by {
            lemma_index_inverse(w as int, h as int, i);
            assert(flag(lk@, w as int, i % (w as int), i / (w as int)) == lk@[i]);
        }
        assert(lk@ =~= lks);
    }
    let mut cur = copy_grid(classes_in);
    let mut it: usize = 0;
    while it < settings.iterations
        invariant
            cur.wf(),
            cur.w == w,
            cur.h == h,
            fractal_ok(settings, w as int, h as int),
            lk@ == lks,
            lks.len() == w * h,
            it <= settings.iterations,
            cur.cells() == fractal_iter(classes_in.cells(), lks, w as int, h as int, settings, it as nat),
        decreases settings.iterations - it,
    {
        cur = relabel_fractal_once(&cur, &lk, &settings);
        it = it + 1;
    }
    let ghost last = cur.cells();
    let n = lk.len();
    let mut i: usize = 0;
    while i < n
        invariant
            cur.wf(),
            cur.w == w,
            cur.h == h,
            n == lk@.len(),
            n == w * h,
            i <= n,
            last.len() == n,
            forall|j: int| 0 <= j < i ==> #[trigger] cur.cells()[j] == (if lk@[j] { TERRAIN_GRASSLAND } else { last[j] }),
            forall|j: int| i <= j < n ==> #[trigger] cur.cells()[j] == last[j],
        decreases n - i,
    {
        let ghost before = cur.cells();
        if lk[i] {
            cur.data.set(i, TERRAIN_GRASSLAND);
            assert(cur.cells() == before.update(i as int, TERRAIN_GRASSLAND));
        }
        assert forall|j: int| 0 <= j < i + 1 implies #[trigger] cur.cells()[j] == (if lk@[j] { TERRAIN_GRASSLAND } else { last[j] }) by {
            if j < i {
                assert(cur.cells()[j] == before[j]);
            }
        }
        assert forall|j: int| i + 1 <= j < n implies #[trigger] cur.cells()[j] == last[j] by {
            assert(cur.cells()[j] == before[j]);
        }
        i = i + 1;
    }
    proof {
        assert(cur.cells() =~= effective(last, lks));
        assert forall|x: int, y: int| on_board(w as int, h as int, x, y)
            && is_locked(base_centers@, tpl.player_spawns.base_radius as int, shrines@, tpl.terrain.shrine_grass_radius as int, x, y)
            implies #[trigger] cur.at(x, y) == TERRAIN_GRASSLAND by {
            lemma_index_bounds(w as int, h as int, x, y);
            assert(flag(lk@, w as int, x, y));
        }
    }
    cur
}

} // verus!
