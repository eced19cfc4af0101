//! Integer value noise for terrain: a hashed lattice of values, bilinear
//! interpolation between lattice points and a sum of octaves whose weight
//! halves as the frequency doubles. Coordinates carry 8 fractional bits;
//! results are fixed point with `NOISE_ONE` standing for 1.

use vstd::prelude::*;
use super::rng::xorshift;

verus! {

/// Fixed-point unit of noise values: results lie in `[-NOISE_ONE, NOISE_ONE]`.
pub const NOISE_ONE: i32 = 1024;

/// Most octaves a noise sum may take.
pub const MAX_OCTAVES: u32 = 6;

/// Largest fixed-point coordinate a noise sample accepts (exclusive).
pub const MAX_COORD: u32 = 0x0100_0000;

/// Hash of a lattice point under a seed.
pub open spec fn spec_hash(seed: u32, ix: u32, iy: u32) -> u32 {
    let a = xorshift(seed ^ vstd::wrapping::u32_specs::wrapping_mul(ix, 0x9E37_79B1u32));
    let b = xorshift(a ^ vstd::wrapping::u32_specs::wrapping_mul(iy, 0x85EB_CA77u32));
    xorshift(b ^ (b >> 15u32))
}

/// Lattice value in `[0, 2 * NOISE_ONE]`.
pub open spec fn spec_lattice(seed: u32, ix: u32, iy: u32) -> int {
    (spec_hash(seed, ix, iy) % 2049) as int
}

/// Bilinear interpolation of the four lattice values around `(fx, fy)`,
/// in `[0, 2 * NOISE_ONE]`.
#[verifier::opaque]
pub open spec fn spec_raw(seed: u32, fx: u32, fy: u32) -> int {
    let ix = fx / 256;
    let iy = fy / 256;
    let tx = (fx % 256) as int;
    let ty = (fy % 256) as int;
    let top = spec_lattice(seed, ix, iy) * (256 - tx) + spec_lattice(seed, (ix + 1) as u32, iy)
        * tx;
    let bot = spec_lattice(seed, ix, (iy + 1) as u32) * (256 - tx) + spec_lattice(
        seed,
        (ix + 1) as u32,
        (iy + 1) as u32,
    ) * tx;
    (top * (256 - ty) + bot * ty) / 65536
}

/// `f * 2^j`.
pub open spec fn level_coord(f: int, j: nat) -> int
    decreases j,
{
    if j == 0 {
        f
    } else {
        2 * level_coord(f, (j - 1) as nat)
    }
}

/// Weighted sum of the first `k` octaves: each earlier octave weighs twice
/// the next, and octave `j` samples at `2^j` times the frequency with seed
/// `seed + j`.
#[verifier::opaque]
pub open spec fn spec_octave_acc(seed: u32, fx: u32, fy: u32, k: nat) -> int
    decreases k,
{
    if k == 0 {
        0
    } else {
        let j = (k - 1) as nat;
        2 * spec_octave_acc(seed, fx, fy, j) + spec_raw(
            ((seed + j) % 0x1_0000_0000) as u32,
            level_coord(fx as int, j) as u32,
            level_coord(fy as int, j) as u32,
        )
    }
}

/// Octave noise in `[-NOISE_ONE, NOISE_ONE]`: the weighted sum divided by
/// the total weight `2^n - 1`, centred on zero.
pub open spec fn spec_octave(seed: u32, fx: u32, fy: u32, n: nat) -> int {
    spec_octave_acc(seed, fx, fy, n) / (level_coord(1, n) - 1) - NOISE_ONE
}

proof fn lemma_level_coord_bounds(f: int, j: nat)
    requires
        f >= 0,
    ensures
        level_coord(f, j) >= f,
        level_coord(1, j) >= 1,
        level_coord(f, j) == f * level_coord(1, j),
    decreases j,
{
    if j > 0 {
        lemma_level_coord_bounds(f, (j - 1) as nat);
        assert(2 * (f * level_coord(1, (j - 1) as nat)) == f * (2 * level_coord(
            1,
            (j - 1) as nat,
        ))) by (nonlinear_arith);
    }
}

proof fn lemma_raw_bounds(seed: u32, fx: u32, fy: u32)
    ensures
        0 <= spec_raw(seed, fx, fy) <= 2048,
{
    reveal(spec_raw);
    let ix = fx / 256;
    let iy = fy / 256;
    let tx = (fx % 256) as int;
    let ty = (fy % 256) as int;
    let a = spec_lattice(seed, ix, iy);
    let b = spec_lattice(seed, (ix + 1) as u32, iy);
    let c = spec_lattice(seed, ix, (iy + 1) as u32);
    let d = spec_lattice(seed, (ix + 1) as u32, (iy + 1) as u32);
    let top = a * (256 - tx) + b * tx;
    let bot = c * (256 - tx) + d * tx;
    assert(0 <= top <= 2048 * 256) by (nonlinear_arith)
        requires
            0 <= a <= 2048,
            0 <= b <= 2048,
            0 <= tx <= 255,
            top == a * (256 - tx) + b * tx,
    ;
    assert(0 <= bot <= 2048 * 256) by (nonlinear_arith)
        requires
            0 <= c <= 2048,
            0 <= d <= 2048,
            0 <= tx <= 255,
            bot == c * (256 - tx) + d * tx,
    ;
    assert(0 <= top * (256 - ty) + bot * ty <= 2048 * 65536) by (nonlinear_arith)
        requires
            0 <= top <= 2048 * 256,
            0 <= bot <= 2048 * 256,
            0 <= ty <= 255,
    ;
}

proof fn lemma_octave_acc_bounds(seed: u32, fx: u32, fy: u32, k: nat)
    ensures
        0 <= spec_octave_acc(seed, fx, fy, k) <= 2048 * (level_coord(1, k) - 1),
    decreases k,
{
    reveal(spec_octave_acc);
    if k > 0 {
        let j = (k - 1) as nat;
        lemma_octave_acc_bounds(seed, fx, fy, j);
        lemma_raw_bounds(
            ((seed + j) % 0x1_0000_0000) as u32,
            level_coord(fx as int, j) as u32,
            level_coord(fy as int, j) as u32,
        );
    }
}

proof fn lemma_small_level(j: nat)
    requires
        j <= 5,
    ensures
        level_coord(1, j) <= 32,
{
    reveal_with_fuel(level_coord, 6);
    if j == 0 {
    } else if j == 1 {
    } else if j == 2 {
    } else if j == 3 {
    } else if j == 4 {
    } else {
        assert(j == 5);
    }
}

/// Octave noise stays within `[-NOISE_ONE, NOISE_ONE]`.
pub proof fn lemma_octave_bounds(seed: u32, fx: u32, fy: u32, n: nat)
    requires
        n >= 1,
    ensures
        -NOISE_ONE <= spec_octave(seed, fx, fy, n) <= NOISE_ONE,
{
    lemma_octave_acc_bounds(seed, fx, fy, n);
    lemma_level_coord_bounds(1, n);
    let t = level_coord(1, n) - 1;
    let a = spec_octave_acc(seed, fx, fy, n);
    assert(t >= 1) by {
        assert(level_coord(1, n) == 2 * level_coord(1, (n - 1) as nat));
        lemma_level_coord_bounds(1, (n - 1) as nat);
    }
    assert(0 <= a / t <= 2048) by (nonlinear_arith)
        requires
            0 <= a <= 2048 * t,
            t >= 1,
    ;
}

fn hash(seed: u32, ix: u32, iy: u32) -> (r: u32)
    ensures
        r == spec_hash(seed, ix, iy),
{
    let s = seed ^ ix.wrapping_mul(0x9E37_79B1);
    let s1 = s ^ (s << 13);
    let s2 = s1 ^ (s1 >> 17);
    let a = s2 ^ (s2 << 5);
    let t = a ^ iy.wrapping_mul(0x85EB_CA77);
    let t1 = t ^ (t << 13);
    let t2 = t1 ^ (t1 >> 17);
    let b = t2 ^ (t2 << 5);
    let u = b ^ (b >> 15);
    let u1 = u ^ (u << 13);
    let u2 = u1 ^ (u1 >> 17);
    u2 ^ (u2 << 5)
}

fn lattice(seed: u32, ix: u32, iy: u32) -> (r: u32)
    ensures
        r as int == spec_lattice(seed, ix, iy),
        r <= 2048,
{
    hash(seed, ix, iy) % 2049
}

/// Bilinearly interpolated lattice noise at fixed-point `(fx, fy)`.
pub fn raw(seed: u32, fx: u32, fy: u32) -> (r: u32)
    requires
        fx < MAX_COORD,
        fy < MAX_COORD,
    ensures
        r as int == spec_raw(seed, fx, fy),
        r <= 2048,
{
    let ix = fx / 256;
    let iy = fy / 256;
    let tx = fx % 256;
    let ty = fy % 256;
    let a = lattice(seed, ix, iy);
    let b = lattice(seed, ix + 1, iy);
    let c = lattice(seed, ix, iy + 1);
    let d = lattice(seed, ix + 1, iy + 1);
    proof {
        assert(a * (256 - tx) + b * tx <= 2048 * 256) by (nonlinear_arith)
            requires
                a <= 2048,
                b <= 2048,
                tx <= 255,
        ;
        assert(c * (256 - tx) + d * tx <= 2048 * 256) by (nonlinear_arith)
            requires
                c <= 2048,
                d <= 2048,
                tx <= 255,
        ;
    }
    let top = a * (256 - tx) + b * tx;
    let bot = c * (256 - tx) + d * tx;
    proof {
        assert(top * (256 - ty) + bot * ty <= 2048 * 65536) by (nonlinear_arith)
            requires
                top <= 2048 * 256,
                bot <= 2048 * 256,
                ty <= 255,
        ;
        lemma_raw_bounds(seed, fx, fy);
        reveal(spec_raw);
    }
    (top * (256 - ty) + bot * ty) / 65536
}

/// Before octave `j` (of at most `MAX_OCTAVES`) the sample point is in range.
proof fn lemma_octave_pre(fx: u32, fy: u32, j: nat, total: int, cx: int, cy: int)
    requires
        j < MAX_OCTAVES,
        fx < MAX_COORD / 32,
        fy < MAX_COORD / 32,
        total == level_coord(1, j),
        cx == level_coord(fx as int, j),
        cy == level_coord(fy as int, j),
    ensures
        1 <= total <= 32,
        0 <= cx < MAX_COORD,
        0 <= cy < MAX_COORD,
{
    lemma_level_coord_bounds(fx as int, j);
    lemma_level_coord_bounds(fy as int, j);
    lemma_level_coord_bounds(1, j);
    lemma_small_level(j);
    assert(fx * total < MAX_COORD) by (nonlinear_arith)
        requires
            fx < MAX_COORD / 32,
            total <= 32,
    ;
    assert(fy * total < MAX_COORD) by (nonlinear_arith)
        requires
            fy < MAX_COORD / 32,
            total <= 32,
    ;
}

/// After octave `j` the running sum, weight and sample point advance.
proof fn lemma_octave_post(seed: u32, fx: u32, fy: u32, j: nat, acc: int, total: int, v: int)
    requires
        acc == spec_octave_acc(seed, fx, fy, j),
        0 <= acc <= 2048 * (total - 1),
        total == level_coord(1, j),
        v == spec_raw(
            ((seed + j) % 0x1_0000_0000) as u32,
            level_coord(fx as int, j) as u32,
            level_coord(fy as int, j) as u32,
        ),
        0 <= v <= 2048,
    ensures
        2 * acc + v == spec_octave_acc(seed, fx, fy, j + 1),
        2 * acc + v <= 2048 * (2 * total - 1),
        2 * total == level_coord(1, j + 1),
        2 * level_coord(fx as int, j) == level_coord(fx as int, j + 1),
        2 * level_coord(fy as int, j) == level_coord(fy as int, j + 1),
{
    reveal(spec_octave_acc);
}

/// Octave noise at fixed-point `(fx, fy)` over `octaves` octaves, in
/// `[-NOISE_ONE, NOISE_ONE]`.
pub fn octave(seed: u32, fx: u32, fy: u32, octaves: u32) -> (r: i32)
    requires
        1 <= octaves <= MAX_OCTAVES,
        fx < MAX_COORD / 32,
        fy < MAX_COORD / 32,
    ensures
        r as int == spec_octave(seed, fx, fy, octaves as nat),
        -NOISE_ONE <= r <= NOISE_ONE,
{
    let mut acc: u32 = 0;
    let mut total: u32 = 1;
    proof {
        reveal(spec_octave_acc);
    }
    let mut cx = fx;
    let mut cy = fy;
    let mut j: u32 = 0;
    while j < octaves
        invariant
            j <= octaves <= MAX_OCTAVES,
            fx < MAX_COORD / 32,
            fy < MAX_COORD / 32,
            acc as int == spec_octave_acc(seed, fx, fy, j as nat),
            acc <= 2048 * (total - 1),
            total as int == level_coord(1, j as nat),
            total <= 64,
            cx as int == level_coord(fx as int, j as nat),
            cy as int == level_coord(fy as int, j as nat),
        decreases octaves - j,
    {
        proof {
            lemma_octave_pre(fx, fy, j as nat, total as int, cx as int, cy as int);
        }
        let level_seed = seed.wrapping_add(j);
        let v = raw(level_seed, cx, cy);
        proof {
            assert(level_seed as int == (seed + j) % 0x1_0000_0000);
            lemma_octave_post(seed, fx, fy, j as nat, acc as int, total as int, v as int);
        }
        acc = 2 * acc + v;
        total = 2 * total;
        cx = 2 * cx;
        cy = 2 * cy;
        j = j + 1;
    }
    proof {
        lemma_octave_bounds(seed, fx, fy, octaves as nat);
        lemma_level_coord_bounds(1, octaves as nat);
    }
    let q = acc / (total - 1);
    q as i32 - NOISE_ONE
}

} // verus!
