//! Exact fixed-point arithmetic for the simulation.
//!
//! All world quantities are carried as `i64` values scaled by [`SCALE`];
//! angles are carried in binary angle units, [`FULL_TURN`] to a turn. Every
//! executable function here returns exactly the value of its specification
//! twin, so the whole simulation is a pure function of its inputs.

use vstd::prelude::*;

verus! {

/// Unity of the fixed-point representation: one world unit is `SCALE` raw steps.
pub const SCALE: i64 = 65536;

/// A full turn in binary angle units; one unit is `2 * pi / FULL_TURN` radians.
pub const FULL_TURN: i64 = 65536;

/// Half a turn (`pi`) in binary angle units.
pub const HALF_TURN: i64 = 32768;

/// A quarter turn (`pi / 2`) in binary angle units.
pub const QUARTER_TURN: i64 = 16384;

/// Absolute value over the mathematical integers.
pub open spec fn iabs(a: int) -> int {
    if a >= 0 {
        a
    } else {
        -a
    }
}

/// `v` pulled into the interval `[lo, hi]`.
pub open spec fn clamp_spec(v: int, lo: int, hi: int) -> int {
    if v < lo {
        lo
    } else if v > hi {
        hi
    } else {
        v
    }
}

/// Squared Euclidean distance between two points, exact over the integers.
pub open spec fn dist_sq(x1: int, y1: int, x2: int, y2: int) -> int {
    (x1 - x2) * (x1 - x2) + (y1 - y2) * (y1 - y2)
}

/// Executable squared distance; exact.
pub fn dist_sq_x(x1: i64, y1: i64, x2: i64, y2: i64) -> (r: i64)
    requires
        -1073741824 <= x1 - x2 <= 1073741824,
        -1073741824 <= y1 - y2 <= 1073741824,
    ensures
        r == dist_sq(x1 as int, y1 as int, x2 as int, y2 as int),
        r >= 0,
{
    let dx = x1 - x2;
    let dy = y1 - y2;
    proof {
        assert(dx * dx <= 1073741824 * 1073741824 && dx * dx >= 0) by (nonlinear_arith)
            requires -1073741824 <= dx <= 1073741824;
        assert(dy * dy <= 1073741824 * 1073741824 && dy * dy >= 0) by (nonlinear_arith)
            requires -1073741824 <= dy <= 1073741824;
    }
    dx * dx + dy * dy
}

/// Floor of the square root, defined by counting up.
pub open spec fn sqrt_floor(n: nat) -> nat
    decreases n,
{
    if n == 0 {
        0
    } else {
        let r = sqrt_floor((n - 1) as nat);
        if (r + 1) * (r + 1) <= n {
            r + 1
        } else {
            r
        }
    }
}

/// `sqrt_floor(n)` really is the floor of the square root of `n`.
pub proof fn lemma_sqrt_floor_props(n: nat)
    ensures
        sqrt_floor(n) * sqrt_floor(n) <= n,
        n < (sqrt_floor(n) + 1) * (sqrt_floor(n) + 1),
    decreases n,
{
    if n == 0 {
        assert(sqrt_floor(0) == 0);
        assert(n < (sqrt_floor(n) + 1) * (sqrt_floor(n) + 1)) by (nonlinear_arith)
            requires n == 0, sqrt_floor(n) == 0;
    } else {
        lemma_sqrt_floor_props((n - 1) as nat);
        let r = sqrt_floor((n - 1) as nat);
        if (r + 1) * (r + 1) <= n {
            assert(sqrt_floor(n) == r + 1);
            assert(n < (sqrt_floor(n) + 1) * (sqrt_floor(n) + 1)) by (nonlinear_arith)
                requires
                    (n - 1) < (r + 1) * (r + 1),
                    (r + 1) * (r + 1) <= n,
                    sqrt_floor(n) == r + 1;
        } else {
            assert(sqrt_floor(n) == r);
            assert(r * r <= n - 1 <= n);
            assert(n < (sqrt_floor(n) + 1) * (sqrt_floor(n) + 1));
        }
    }
}

/// Any `r` with `r^2 <= n < (r+1)^2` equals `sqrt_floor(n)`.
pub proof fn lemma_sqrt_unique(n: nat, r: nat)
    requires
        r * r <= n,
        n < (r + 1) * (r + 1),
    ensures
        r == sqrt_floor(n),
{
    lemma_sqrt_floor_props(n);
    let s = sqrt_floor(n);
    assert(r == s) by (nonlinear_arith)
        requires
            r * r <= n,
            n < (r + 1) * (r + 1),
            s * s <= n,
            n < (s + 1) * (s + 1);
}

/// Executable integer square root by binary search.
pub fn isqrt(n: u64) -> (r: u64)
    requires
        n < 4611686018427387904,
    ensures
        r == sqrt_floor(n as nat),
        r * r <= n,
        n < (r + 1) * (r + 1),
        r < 2147483648,
{
    let mut lo: u64 = 0;
    let mut hi: u64 = 2147483648;
    proof {
        assert(2147483648u64 * 2147483648u64 == 4611686018427387904) by (nonlinear_arith);
    }
    while lo + 1 < hi
        invariant
            lo < hi <= 2147483648,
            lo * lo <= n,
            n < hi * hi,
        decreases hi - lo,
    {
        let mid = lo + (hi - lo) / 2;
        proof {
            assert(mid * mid <= 2147483648u64 * 2147483648u64) by (nonlinear_arith)
                requires 0 <= mid <= 2147483648u64;
        }
        if mid * mid <= n {
            lo = mid;
        } else {
            hi = mid;
        }
    }
    proof {
        assert(hi == lo + 1);
        lemma_sqrt_unique(n as nat, lo as nat);
    }
    lo
}

/// Fixed-point sine on the first half turn (Bhaskara's rational
/// approximation), exact in integer arithmetic. `a` in `[0, HALF_TURN]`,
/// result in `[0, SCALE]`, with `sin(0) == 0` and `sin(QUARTER_TURN) == SCALE`.
pub open spec fn sin_half_fp(a: int) -> int {
    let n = a * (32768 - a);
    16 * n * 65536 / (5368709120 - 4 * n)
}

/// Fixed-point sine over a full turn of binary angle. `a` in `[0, FULL_TURN)`.
pub open spec fn sin_fp(a: int) -> int {
    if a <= 32768 {
        sin_half_fp(a)
    } else {
        -sin_half_fp(a - 32768)
    }
}

/// Fixed-point cosine over a full turn of binary angle. `a` in `[0, FULL_TURN)`.
pub open spec fn cos_fp(a: int) -> int {
    sin_fp(if a + 16384 < 65536 { a + 16384 } else { a + 16384 - 65536 })
}

/// The sine approximation stays within unity.
pub proof fn lemma_sin_half_range(a: int)
    requires
        0 <= a <= 32768,
    ensures
        0 <= sin_half_fp(a) <= 65536,
{
    let n = a * (32768 - a);
    assert(0 <= n <= 268435456) by (nonlinear_arith)
        requires n == a * (32768 - a), 0 <= a <= 32768;
    let den = 5368709120 - 4 * n;
    assert(den >= 4294967296);
    assert(16 * n * 65536 >= 0);
    assert(16 * n * 65536 <= 65536 * den) by (nonlinear_arith)
        requires 0 <= n <= 268435456, den == 5368709120 - 4 * n;
    assert(0 <= 16 * n * 65536 / den <= 65536) by (nonlinear_arith)
        requires den >= 4294967296, 0 <= 16 * n * 65536 <= 65536 * den;
}

/// Sine over the full turn stays within unity.
pub proof fn lemma_sin_range(a: int)
    requires
        0 <= a < 65536,
    ensures
        -65536 <= sin_fp(a) <= 65536,
{
    if a <= 32768 {
        lemma_sin_half_range(a);
    } else {
        lemma_sin_half_range(a - 32768);
    }
}

/// Cosine over the full turn stays within unity.
pub proof fn lemma_cos_range(a: int)
    requires
        0 <= a < 65536,
    ensures
        -65536 <= cos_fp(a) <= 65536,
{
    if a + 16384 < 65536 {
        lemma_sin_range(a + 16384);
    } else {
        lemma_sin_range(a + 16384 - 65536);
    }
}

fn sin_half_x(a: i64) -> (r: i64)
    requires
        0 <= a <= 32768,
    ensures
        r == sin_half_fp(a as int),
        0 <= r <= 65536,
{
    proof {
        lemma_sin_half_range(a as int);
        assert(0 <= a * (32768 - a) <= 268435456) by (nonlinear_arith)
            requires 0 <= a <= 32768;
    }
    let n = a * (32768 - a);
    let num = (16 * n * 65536) as u64;
    let den = (5368709120 - 4 * n) as u64;
    let q = num / den;
    proof {
        assert(q <= 65536);
    }
    q as i64
}

/// Executable fixed-point sine; exact.
pub fn sin_fp_x(a: i64) -> (r: i64)
    requires
        0 <= a < 65536,
    ensures
        r == sin_fp(a as int),
        -65536 <= r <= 65536,
{
    proof {
        lemma_sin_range(a as int);
    }
    if a <= 32768 {
        sin_half_x(a)
    } else {
        let m = sin_half_x(a - 32768);
        -m
    }
}

/// Executable fixed-point cosine; exact.
pub fn cos_fp_x(a: i64) -> (r: i64)
    requires
        0 <= a < 65536,
    ensures
        r == cos_fp(a as int),
        -65536 <= r <= 65536,
{
    proof {
        lemma_cos_range(a as int);
    }
    let b = if a + 16384 < 65536 {
        a + 16384
    } else {
        a + 16384 - 65536
    };
    sin_fp_x(b)
}

/// Arctangent on the first octant: `t` is a tangent value in `[0, SCALE]`,
/// the result a binary angle in `[0, 8192]` (an eighth of a turn). A small
/// quadratic correction keeps the approximation within a fraction of a degree.
pub open spec fn atan_octant_fp(t: int) -> int {
    (8192 * t + 2847 * t * (65536 - t) / 65536) / 65536
}

/// The octant arctangent stays in the first eighth of a turn.
pub proof fn lemma_atan_octant_range(t: int)
    requires
        0 <= t <= 65536,
    ensures
        0 <= atan_octant_fp(t) <= 8192,
{
    let c = 2847 * t * (65536 - t);
    assert(0 <= c) by (nonlinear_arith)
        requires c == 2847 * t * (65536 - t), 0 <= t <= 65536;
    assert(c <= 8192 * (65536 - t) * 65536) by (nonlinear_arith)
        requires c == 2847 * t * (65536 - t), 0 <= t <= 65536;
    let cq = c / 65536;
    assert(0 <= cq <= 8192 * (65536 - t)) by (nonlinear_arith)
        requires cq == c / 65536, 0 <= c, c <= 8192 * (65536 - t) * 65536, t <= 65536;
    let num = 8192 * t + cq;
    assert(num <= 8192 * 65536) by (nonlinear_arith)
        requires num == 8192 * t + cq, 0 <= cq <= 8192 * (65536 - t), 0 <= t <= 65536;
    assert(0 <= num / 65536 <= 8192) by (nonlinear_arith)
        requires 0 <= num <= 8192 * 65536;
}

fn atan_octant_x(t: i64) -> (r: i64)
    requires
        0 <= t <= 65536,
    ensures
        r == atan_octant_fp(t as int),
        0 <= r <= 8192,
{
    proof {
        lemma_atan_octant_range(t as int);
        assert(0 <= 2847 * t * (65536 - t) <= 2847 * 65536 * 65536) by (nonlinear_arith)
            requires 0 <= t <= 65536;
    }
    let c = ((2847 * t * (65536 - t)) as u64 / 65536u64) as i64;
    proof {
        assert(c == 2847 * (t as int) * (65536 - t as int) / 65536);
        assert(0 <= c <= 2847 * 65536) by (nonlinear_arith)
            requires
                c == 2847 * (t as int) * (65536 - t as int) / 65536,
                0 <= 2847 * (t as int) * (65536 - t as int) <= 2847 * 65536 * 65536;
    }
    let r = ((8192 * t + c) as u64 / 65536u64) as i64;
    r
}

/// Binary angle of the vector `(dx, dy)`, in `[0, FULL_TURN)`. The zero
/// vector conventionally has angle zero.
pub open spec fn atan2_brad(dx: int, dy: int) -> int {
    let ax = iabs(dx);
    let ay = iabs(dy);
    if ax == 0 && ay == 0 {
        0
    } else {
        let oct = if ay <= ax {
            atan_octant_fp(ay * 65536 / ax)
        } else {
            16384 - atan_octant_fp(ax * 65536 / ay)
        };
        if dx >= 0 && dy >= 0 {
            oct
        } else if dx < 0 && dy >= 0 {
            32768 - oct
        } else if dx < 0 {
            32768 + oct
        } else if oct == 0 {
            0
        } else {
            65536 - oct
        }
    }
}

/// The angle is a valid binary angle.
pub proof fn lemma_atan2_range(dx: int, dy: int)
    ensures
        0 <= atan2_brad(dx, dy) < 65536,
{
    let ax = iabs(dx);
    let ay = iabs(dy);
    if !(ax == 0 && ay == 0) {
        if ay <= ax {
            assert(0 <= ay * 65536 / ax <= 65536) by (nonlinear_arith)
                requires 0 <= ay <= ax, ax > 0;
            lemma_atan_octant_range(ay * 65536 / ax);
        } else {
            assert(0 <= ax * 65536 / ay <= 65536) by (nonlinear_arith)
                requires 0 <= ax < ay;
            lemma_atan_octant_range(ax * 65536 / ay);
        }
    }
}

/// Executable binary-angle arctangent; exact.
pub fn atan2_brad_x(dx: i64, dy: i64) -> (r: i64)
    requires
        -2147483648 <= dx <= 2147483648,
        -2147483648 <= dy <= 2147483648,
    ensures
        r == atan2_brad(dx as int, dy as int),
        0 <= r < 65536,
{
    proof {
        lemma_atan2_range(dx as int, dy as int);
    }
    let ax = if dx >= 0 { dx } else { -dx };
    let ay = if dy >= 0 { dy } else { -dy };
    if ax == 0 && ay == 0 {
        return 0;
    }
    let oct = if ay <= ax {
        proof {
            assert(0 <= ay * 65536 <= 2147483648i64 * 65536) by (nonlinear_arith)
                requires 0 <= ay <= 2147483648i64;
            assert(0 <= (ay as int) * 65536 / (ax as int) <= 65536) by (nonlinear_arith)
                requires 0 <= ay <= ax, ax > 0;
        }
        let t = ((ay * 65536) as u64 / ax as u64) as i64;
        atan_octant_x(t)
    } else {
        proof {
            assert(0 <= ax * 65536 <= 2147483648i64 * 65536) by (nonlinear_arith)
                requires 0 <= ax <= 2147483648i64;
            assert(0 <= (ax as int) * 65536 / (ay as int) <= 65536) by (nonlinear_arith)
                requires 0 <= ax < ay;
        }
        let t = ((ax * 65536) as u64 / ay as u64) as i64;
        16384 - atan_octant_x(t)
    };
    if dx >= 0 && dy >= 0 {
        oct
    } else if dx < 0 && dy >= 0 {
        32768 - oct
    } else if dx < 0 {
        32768 + oct
    } else if oct == 0 {
        0
    } else {
        65536 - oct
    }
}

/// The nineteenth power of a fixed-point value in `[-SCALE, SCALE]`, keeping
/// its sign: the heavy-tailed branch-angle bias.
pub open spec fn pow19_fp(d: int) -> int {
    let m = iabs(d);
    let m2 = m * m / 65536;
    let m4 = m2 * m2 / 65536;
    let m8 = m4 * m4 / 65536;
    let m16 = m8 * m8 / 65536;
    let m19 = m16 * m2 / 65536 * m / 65536;
    if d >= 0 {
        m19
    } else {
        -m19
    }
}

/// A fixed-point square stays within unity when its argument does.
proof fn lemma_sq_step(m: int)
    requires
        0 <= m <= 65536,
    ensures
        0 <= m * m / 65536 <= 65536,
{
    assert(0 <= m * m <= 65536 * 65536) by (nonlinear_arith)
        requires 0 <= m <= 65536;
    assert(0 <= m * m / 65536 <= 65536) by (nonlinear_arith)
        requires 0 <= m * m <= 65536 * 65536;
}

/// The bias stays within unity.
pub proof fn lemma_pow19_range(d: int)
    requires
        -65536 <= d <= 65536,
    ensures
        -65536 <= pow19_fp(d) <= 65536,
{
    let m = iabs(d);
    let m2 = m * m / 65536;
    lemma_sq_step(m);
    let m4 = m2 * m2 / 65536;
    lemma_sq_step(m2);
    let m8 = m4 * m4 / 65536;
    lemma_sq_step(m4);
    let m16 = m8 * m8 / 65536;
    lemma_sq_step(m8);
    let p = m16 * m2 / 65536;
    assert(0 <= m16 * m2 <= 65536 * 65536) by (nonlinear_arith)
        requires 0 <= m16 <= 65536, 0 <= m2 <= 65536;
    assert(0 <= p <= 65536) by (nonlinear_arith)
        requires 0 <= m16 * m2 <= 65536 * 65536, p == m16 * m2 / 65536;
    assert(0 <= p * m <= 65536 * 65536) by (nonlinear_arith)
        requires 0 <= p <= 65536, 0 <= m <= 65536;
    assert(0 <= p * m / 65536 <= 65536) by (nonlinear_arith)
        requires 0 <= p * m <= 65536 * 65536;
}

fn sq_step_x(m: i64) -> (r: i64)
    requires
        0 <= m <= 65536,
    ensures
        r == m * m / 65536,
        0 <= r <= 65536,
{
    proof {
        lemma_sq_step(m as int);
        assert(0 <= m * m <= 65536 * 65536) by (nonlinear_arith)
            requires 0 <= m <= 65536;
    }
    ((m * m) as u64 / 65536u64) as i64
}

/// Executable heavy-tail bias; exact.
pub fn pow19_fp_x(d: i64) -> (r: i64)
    requires
        -65536 <= d <= 65536,
    ensures
        r == pow19_fp(d as int),
        -65536 <= r <= 65536,
{
    proof {
        lemma_pow19_range(d as int);
    }
    let m = if d >= 0 { d } else { -d };
    let m2 = sq_step_x(m);
    let m4 = sq_step_x(m2);
    let m8 = sq_step_x(m4);
    let m16 = sq_step_x(m8);
    proof {
        assert(0 <= m16 * m2 <= 65536 * 65536) by (nonlinear_arith)
            requires 0 <= m16 <= 65536, 0 <= m2 <= 65536;
    }
    let p = ((m16 * m2) as u64 / 65536u64) as i64;
    proof {
        assert(p == (m16 as int) * (m2 as int) / 65536);
        assert(0 <= p <= 65536) by (nonlinear_arith)
            requires 0 <= m16 * m2 <= 65536 * 65536, p == (m16 as int) * (m2 as int) / 65536;
        assert(0 <= p * m <= 65536 * 65536) by (nonlinear_arith)
            requires 0 <= p <= 65536, 0 <= m <= 65536;
    }
    let m19 = ((p * m) as u64 / 65536u64) as i64;
    if d >= 0 {
        m19
    } else {
        -m19
    }
}

} // verus!
