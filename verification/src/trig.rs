//! Fixed-point trigonometry over direction indices. An angle is always a
//! rational fraction of a half-turn, `k * pi / n`, handled as the pair
//! `(k, n)`; sines and cosines are integers scaled by `SCALE`, computed from
//! truncated Taylor series after range reduction. All arithmetic is exact
//! integer arithmetic, so every result is a function of its arguments alone.

use vstd::prelude::*;
use vstd::arithmetic::div_mod::lemma_div_is_ordered;
use vstd::arithmetic::div_mod::lemma_div_is_ordered_by_denominator;
use vstd::arithmetic::div_mod::lemma_div_pos_is_pos;
use vstd::arithmetic::div_mod::lemma_div_multiples_vanish;

verus! {

/// Fixed-point scale: the number one is represented by this value.
pub const SCALE: i64 = 0x4000_0000;

/// Half a turn (pi radians) at `SCALE` fixed-point resolution.
pub const PI_FP: i64 = 3373259426;

/// A quarter turn: `PI_FP` halved, rounded down.
pub const HALF_PI_FP: i64 = 1686629713;

/// The absolute value of an integer.
pub open spec fn abs_i(a: int) -> int {
    if a < 0 {
        -a
    } else {
        a
    }
}

/// A quotient of bounded nonnegative values is bounded: if `a <= abound` and
/// `b >= bmin`, then `a / b <= abound / bmin`.
pub proof fn lemma_div_bound(a: int, b: int, abound: int, bmin: int)
    requires
        0 <= a <= abound,
        1 <= bmin <= b,
    ensures
        0 <= a / b <= abound / bmin,
{
    lemma_div_pos_is_pos(a, b);
    lemma_div_is_ordered(a, abound, b);
    lemma_div_is_ordered_by_denominator(abound, bmin, b);
}

/// A product of bounded nonnegative values is bounded.
pub proof fn lemma_mul_bound(a: int, b: int, abound: int, bbound: int)
    requires
        0 <= a <= abound,
        0 <= b <= bbound,
    ensures
        0 <= a * b <= abound * bbound,
{
    assert(0 <= a * b <= abound * bbound) by (nonlinear_arith)
        requires
            0 <= a <= abound,
            0 <= b <= bbound,
    ;
}

/// Dividing keeps a multiple of the divisor exact: `a * t2 / d <= a` when
/// `t2 <= d`.
proof fn lemma_mul_div_shrinks(a: int, t2: int, d: int)
    requires
        0 <= a,
        0 <= t2 <= d,
        1 <= d,
    ensures
        0 <= a * t2 / d <= a,
{
    assert(a * t2 <= a * d) by (nonlinear_arith)
        requires
            0 <= a,
            t2 <= d,
    ;
    lemma_div_pos_is_pos(a * t2, d);
    lemma_div_is_ordered(a * t2, a * d, d);
    lemma_div_multiples_vanish(a, d);
    assert(a * d == d * a) by (nonlinear_arith);
}

/// The integer square root: the largest `r` with `r * r <= x`.
pub open spec fn spec_isqrt(x: nat) -> nat
    decreases x,
{
    if x == 0 {
        0
    } else {
        let r = spec_isqrt(x / 4) * 2;
        if (r + 1) * (r + 1) <= x {
            r + 1
        } else {
            r
        }
    }
}

/// The integer square root is characterized by its two bounds.
pub proof fn lemma_isqrt_bounds(x: nat)
    ensures
        spec_isqrt(x) * spec_isqrt(x) <= x,
        x < (spec_isqrt(x) + 1) * (spec_isqrt(x) + 1),
    decreases x,
{
    if x == 0 {
        assert(spec_isqrt(x) == 0);
        assert(spec_isqrt(x) * spec_isqrt(x) <= x) by (nonlinear_arith)
            requires
                spec_isqrt(x) == 0,
                x == 0,
        ;
        assert(x < (spec_isqrt(x) + 1) * (spec_isqrt(x) + 1)) by (nonlinear_arith)
            requires
                spec_isqrt(x) == 0,
                x == 0,
        ;
    } else {
        let q = x / 4;
        lemma_isqrt_bounds(q);
        let s = spec_isqrt(q);
        let r = s * 2;
        assert(x == 4 * q + x % 4) by {
            vstd::arithmetic::div_mod::lemma_fundamental_div_mod(x as int, 4);
        }
        assert(0 <= x % 4 < 4) by {
            vstd::arithmetic::div_mod::lemma_mod_bound(x as int, 4);
        }
        assert(r * r <= 4 * q) by (nonlinear_arith)
            requires
                s * s <= q,
                r == s * 2,
        ;
        assert(4 * q + 4 <= (r + 2) * (r + 2)) by (nonlinear_arith)
            requires
                q < (s + 1) * (s + 1),
                r == s * 2,
        ;
        if (r + 1) * (r + 1) <= x {
            assert(spec_isqrt(x) == r + 1);
            assert(x < (r + 2) * (r + 2));
            assert(spec_isqrt(x) * spec_isqrt(x) <= x) by (nonlinear_arith)
                requires
                    spec_isqrt(x) == r + 1,
                    (r + 1) * (r + 1) <= x,
            ;
            assert(x < (spec_isqrt(x) + 1) * (spec_isqrt(x) + 1)) by (nonlinear_arith)
                requires
                    spec_isqrt(x) == r + 1,
                    x < (r + 2) * (r + 2),
            ;
        } else {
            assert(spec_isqrt(x) == r);
            assert(r * r <= x);
            assert(spec_isqrt(x) * spec_isqrt(x) <= x) by (nonlinear_arith)
                requires
                    spec_isqrt(x) == r,
                    r * r <= x,
            ;
            assert(x < (spec_isqrt(x) + 1) * (spec_isqrt(x) + 1)) by (nonlinear_arith)
                requires
                    spec_isqrt(x) == r,
                    !((r + 1) * (r + 1) <= x),
            ;
        }
    }
}

/// Two values that satisfy the square-root bounds are equal.
pub proof fn lemma_isqrt_unique(x: nat, r: nat)
    requires
        r * r <= x,
        x < (r + 1) * (r + 1),
    ensures
        r == spec_isqrt(x),
{
    lemma_isqrt_bounds(x);
    let s = spec_isqrt(x);
    if r < s {
        assert((r + 1) * (r + 1) <= s * s) by (nonlinear_arith)
            requires
                r + 1 <= s,
        ;
    }
    if s < r {
        assert((s + 1) * (s + 1) <= r * r) by (nonlinear_arith)
            requires
                s + 1 <= r,
        ;
    }
}

/// Computes the integer square root of `x` by binary search.
pub fn isqrt(x: u64) -> (r: u64)
    ensures
        r as nat == spec_isqrt(x as nat),
        r as int * r as int <= x as int,
        (x as int) < (r as int + 1) * (r as int + 1),
{
    let mut lo: u64 = 0;
    let mut hi: u64 = 0xFFFF_FFFF;
    proof {
        assert((hi as int + 1) * (hi as int + 1) > x as int) by (nonlinear_arith)
            requires
                hi == 0xFFFF_FFFFu64,
                x <= u64::MAX,
        ;
    }
    while lo < hi
        invariant
            lo <= hi,
            lo as int * lo as int <= x as int,
            (x as int) < (hi as int + 1) * (hi as int + 1),
            hi <= 0xFFFF_FFFF,
        decreases hi - lo,
    {
        let mid: u64 = lo + (hi - lo + 1) / 2;
        proof {
            lemma_mul_bound(mid as int, mid as int, 0x1_0000_0000, 0x1_0000_0000);
        }
        let sq: u128 = (mid as u128) * (mid as u128);
        if sq <= x as u128 {
            lo = mid;
        } else {
            hi = mid - 1;
        }
    }
    proof {
        lemma_isqrt_unique(x as nat, lo as nat);
    }
    lo
}

/// One step of a Taylor series: multiplies the previous term by
/// `t2 / (SCALE * SCALE * c)`, the next ratio of consecutive series terms.
/// The result never exceeds the previous term.
fn series_step(prev: u64, t2: u64, c: u64) -> (r: u64)
    requires
        prev <= 0x2_0000_0000,
        t2 <= 0x4000_0000_0000_0000,
        6 <= c <= 200,
    ensures
        r as int == prev as int * t2 as int / (SCALE as int * SCALE as int * c as int),
        r <= prev,
{
    proof {
        lemma_mul_bound(SCALE as int, SCALE as int, SCALE as int, SCALE as int);
        lemma_mul_bound(SCALE as int * SCALE as int, c as int, SCALE as int * SCALE as int, 200);
        assert(SCALE as int * SCALE as int * c as int >= 6) by (nonlinear_arith)
            requires
                c >= 6,
        ;
        assert(t2 as int <= SCALE as int * SCALE as int * c as int) by (nonlinear_arith)
            requires
                t2 <= 0x4000_0000_0000_0000u64,
                c >= 6,
        ;
        lemma_mul_bound(prev as int, t2 as int, 0x2_0000_0000, 0x4000_0000_0000_0000);
        lemma_mul_div_shrinks(prev as int, t2 as int, SCALE as int * SCALE as int * c as int);
    }
    let s2c: u128 = (SCALE as u128) * (SCALE as u128) * (c as u128);
    let num: u128 = (prev as u128) * (t2 as u128);
    let q: u128 = num / s2c;
    q as u64
}

/// Truncated Taylor series for `SCALE * sin(t / SCALE)` on a quarter turn:
/// `t - t^3/3! + t^5/5! - ... + t^13/13!`, with each term held at `SCALE`
/// fixed-point resolution.
pub open spec fn spec_sin_core(t: int) -> int {
    let s2 = SCALE as int * SCALE as int;
    let t2 = t * t;
    let s3 = t * t2 / (s2 * 6);
    let s5 = s3 * t2 / (s2 * 20);
    let s7 = s5 * t2 / (s2 * 42);
    let s9 = s7 * t2 / (s2 * 72);
    let s11 = s9 * t2 / (s2 * 110);
    let s13 = s11 * t2 / (s2 * 156);
    t - s3 + s5 - s7 + s9 - s11 + s13
}

/// Truncated Taylor series for `SCALE * cos(t / SCALE)` on a quarter turn:
/// `1 - t^2/2! + t^4/4! - ... - t^14/14!`, scaled by `SCALE`.
pub open spec fn spec_cos_core(t: int) -> int {
    let s2 = SCALE as int * SCALE as int;
    let t2 = t * t;
    let c2 = t2 / (SCALE as int * 2);
    let c4 = c2 * t2 / (s2 * 12);
    let c6 = c4 * t2 / (s2 * 30);
    let c8 = c6 * t2 / (s2 * 56);
    let c10 = c8 * t2 / (s2 * 90);
    let c12 = c10 * t2 / (s2 * 132);
    let c14 = c12 * t2 / (s2 * 182);
    SCALE as int - c2 + c4 - c6 + c8 - c10 + c12 - c14
}

/// Evaluates the sine series on a quarter turn.
fn sin_core(t: i64) -> (r: i64)
    requires
        0 <= t <= HALF_PI_FP,
    ensures
        r as int == spec_sin_core(t as int),
        0 <= r <= 0x2_0000_0000,
{
    let tu: u64 = t as u64;
    proof {
        lemma_mul_bound(tu as int, tu as int, HALF_PI_FP as int, HALF_PI_FP as int);
    }
    let t2: u64 = tu * tu;
    let s3: u64 = series_step(tu, t2, 6);
    let s5: u64 = series_step(s3, t2, 20);
    let s7: u64 = series_step(s5, t2, 42);
    let s9: u64 = series_step(s7, t2, 72);
    let s11: u64 = series_step(s9, t2, 110);
    let s13: u64 = series_step(s11, t2, 156);
    proof {
        assert(s3 as int <= t as int) by {
            assert(t2 as int <= SCALE as int * SCALE as int * 6) by (nonlinear_arith)
                requires
                    t2 as int == t as int * t as int,
                    0 <= t <= HALF_PI_FP,
            ;
        }
    }
    let r: i64 = t - (s3 as i64) + (s5 as i64) - (s7 as i64) + (s9 as i64) - (s11 as i64) + (
    s13 as i64);
    r
}

/// Evaluates the cosine series on a quarter turn.
fn cos_core(t: i64) -> (r: i64)
    requires
        0 <= t <= HALF_PI_FP,
    ensures
        r as int == spec_cos_core(t as int),
        -0x2_0000_0000 <= r <= 0x2_0000_0000,
{
    let tu: u64 = t as u64;
    proof {
        lemma_mul_bound(tu as int, tu as int, HALF_PI_FP as int, HALF_PI_FP as int);
    }
    let t2: u64 = tu * tu;
    let c2: u64 = t2 / ((SCALE as u64) * 2);
    proof {
        lemma_div_bound(t2 as int, SCALE as int * 2, 0x4000_0000_0000_0000, SCALE as int * 2);
    }
    let c4: u64 = series_step(c2, t2, 12);
    let c6: u64 = series_step(c4, t2, 30);
    let c8: u64 = series_step(c6, t2, 56);
    let c10: u64 = series_step(c8, t2, 90);
    let c12: u64 = series_step(c10, t2, 132);
    let c14: u64 = series_step(c12, t2, 182);
    let r: i64 = SCALE - (c2 as i64) + (c4 as i64) - (c6 as i64) + (c8 as i64) - (c10 as i64) + (
    c12 as i64) - (c14 as i64);
    r
}

/// Sine over a half-turn: fold `[0, PI_FP]` onto the quarter turn by the
/// symmetry `sin(pi - x) == sin(x)`.
pub open spec fn spec_sin_half(x: int) -> int {
    if 2 * x <= PI_FP {
        spec_sin_core(x)
    } else {
        spec_sin_core(PI_FP - x)
    }
}

/// Cosine over a half-turn, by the symmetry `cos(pi - x) == -cos(x)`.
pub open spec fn spec_cos_half(x: int) -> int {
    if 2 * x <= PI_FP {
        spec_cos_core(x)
    } else {
        -spec_cos_core(PI_FP - x)
    }
}

/// Sine over a full turn, by the symmetry `sin(x + pi) == -sin(x)`.
pub open spec fn spec_sin_fp(x: int) -> int {
    if x > PI_FP {
        -spec_sin_half(x - PI_FP)
    } else {
        spec_sin_half(x)
    }
}

/// Cosine over a full turn, by the symmetry `cos(x + pi) == -cos(x)`.
pub open spec fn spec_cos_fp(x: int) -> int {
    if x > PI_FP {
        -spec_cos_half(x - PI_FP)
    } else {
        spec_cos_half(x)
    }
}

/// Evaluates sine and cosine of a fixed-point angle in `[0, 2 * PI_FP]`.
pub fn sin_cos_fp(x: i64) -> (r: (i64, i64))
    requires
        0 <= x <= 2 * PI_FP,
    ensures
        r.0 as int == spec_sin_fp(x as int),
        r.1 as int == spec_cos_fp(x as int),
        -0x2_0000_0000 <= r.0 <= 0x2_0000_0000,
        -0x2_0000_0000 <= r.1 <= 0x2_0000_0000,
{
    let xr: i64 = if x > PI_FP {
        x - PI_FP
    } else {
        x
    };
    let s: i64;
    let c: i64;
    if 2 * xr <= PI_FP {
        s = sin_core(xr);
        c = cos_core(xr);
    } else {
        s = sin_core(PI_FP - xr);
        c = -cos_core(PI_FP - xr);
    }
    if x > PI_FP {
        (-s, -c)
    } else {
        (s, c)
    }
}

/// The direction of index `k` out of `n` is within an eighth-turn of the
/// horizontal: its angle `k * pi / n` is at most `pi / 4` or above
/// `3 * pi / 4`.
pub open spec fn spec_dir_shallow(k: int, n: int) -> bool {
    4 * k <= n || 4 * k > 3 * n
}

/// Decides whether a direction is shallow.
pub fn dir_is_shallow(k: u32, n: u32) -> (r: bool)
    ensures
        r == spec_dir_shallow(k as int, n as int),
{
    let k4: u64 = 4 * (k as u64);
    k4 <= n as u64 || k4 > 3 * (n as u64)
}

/// The fixed-point angle of direction `k` out of `n`: `k * PI_FP / n`.
pub open spec fn spec_angle_fp(k: int, n: int) -> int {
    k * PI_FP / n
}

/// Computes the fixed-point angle of direction `k` out of `n`.
pub fn angle_fp(k: u64, n: u32) -> (x: i64)
    requires
        1 <= n,
        k as int <= 2 * n as int,
    ensures
        x as int == spec_angle_fp(k as int, n as int),
        0 <= x <= 2 * PI_FP,
{
    proof {
        lemma_mul_bound(k as int, PI_FP as int, 2 * n as int, PI_FP as int);
        assert(k as int * PI_FP <= n as int * (2 * PI_FP)) by (nonlinear_arith)
            requires
                k as int <= 2 * n as int,
        ;
        lemma_div_is_ordered(k as int * PI_FP, n as int * (2 * PI_FP), n as int);
        lemma_div_multiples_vanish(2 * PI_FP, n as int);
        assert(n as int * (2 * PI_FP) == (2 * PI_FP) * n) by (nonlinear_arith);
        lemma_div_pos_is_pos(k as int * PI_FP, n as int);
    }
    let num: u128 = (k as u128) * (PI_FP as u128);
    let x: u128 = num / (n as u128);
    x as i64
}

/// The magnitude of the fixed-point slope `a / b`, rounded to nearest with
/// halves away from zero; zero when the divisor is zero.
pub open spec fn spec_slope_mag(a: int, b: int) -> int {
    if b == 0 {
        0
    } else {
        (abs_i(a) * SCALE + abs_i(b) / 2) / abs_i(b)
    }
}

/// The row (or column) displacement of the sample at line offset `l` for
/// direction `k` of `n`: `l` times the direction's tangent (shallow) or
/// cotangent (steep), rounded to nearest, clamped to one step beyond any
/// window. A clamped offset always lands outside the sampling window, so
/// clamping never changes which samples are taken.
pub open spec fn spec_line_offset(k: int, n: int, l: int) -> int {
    let x = spec_angle_fp(k, n);
    let s = spec_sin_fp(x);
    let c = spec_cos_fp(x);
    let a = if spec_dir_shallow(k, n) {
        s
    } else {
        c
    };
    let b = if spec_dir_shallow(k, n) {
        c
    } else {
        s
    };
    let m = spec_slope_mag(a, b);
    let p = abs_i(l) * m;
    let mag0 = (p + SCALE / 2) / (SCALE as int);
    let mag = if mag0 > 0x8000_0000 {
        0x8000_0000
    } else {
        mag0
    };
    if ((a < 0) != (b < 0)) != (l < 0) {
        -mag
    } else {
        mag
    }
}

/// Computes the displacement of the sample at line offset `l` for direction
/// `k` of `n`.
pub fn line_offset(k: u32, n: u32, l: i64) -> (off: i64)
    requires
        1 <= n,
        k <= n,
        -0x8000_0000 <= l <= 0x8000_0000,
    ensures
        off as int == spec_line_offset(k as int, n as int, l as int),
        -0x8000_0000 <= off <= 0x8000_0000,
{
    let shallow = dir_is_shallow(k, n);
    let x = angle_fp(k as u64, n);
    let sc = sin_cos_fp(x);
    let a: i64 = if shallow {
        sc.0
    } else {
        sc.1
    };
    let b: i64 = if shallow {
        sc.1
    } else {
        sc.0
    };
    let am: u128 = (if a < 0 {
        -a
    } else {
        a
    }) as u128;
    let bm: u128 = (if b < 0 {
        -b
    } else {
        b
    }) as u128;
    proof {
        lemma_mul_bound(am as int, SCALE as int, 0x2_0000_0000, SCALE as int);
        if bm as int != 0 {
            lemma_div_bound(
                am as int * SCALE + bm as int / 2,
                bm as int,
                0x2_0000_0000 * SCALE + 0x2_0000_0000,
                1,
            );
        }
    }
    let m: u128 = if bm == 0 {
        0
    } else {
        (am * (SCALE as u128) + bm / 2) / bm
    };
    let lm: u128 = (if l < 0 {
        -l
    } else {
        l
    }) as u128;
    proof {
        lemma_mul_bound(lm as int, m as int, 0x1_0000_0000, 0x2_0000_0000 * SCALE + 0x2_0000_0000);
        lemma_div_bound(
            lm as int * m as int + SCALE / 2,
            SCALE as int,
            0x1_0000_0000 * (0x2_0000_0000 * SCALE + 0x2_0000_0000) + SCALE / 2,
            SCALE as int,
        );
    }
    let p: u128 = lm * m;
    let mag0: u128 = (p + (SCALE as u128) / 2) / (SCALE as u128);
    let mag: u128 = if mag0 > 0x8000_0000 {
        0x8000_0000
    } else {
        mag0
    };
    let mi: i64 = mag as i64;
    if ((a < 0) != (b < 0)) != (l < 0) {
        -mi
    } else {
        mi
    }
}

/// Clamps a fixed-point value to the unit range `[-SCALE, SCALE]`.
pub open spec fn spec_clamp_unit(v: int) -> int {
    if v > SCALE {
        SCALE as int
    } else if v < -SCALE {
        -SCALE
    } else {
        v
    }
}

/// The unit vector of the doubled angle of direction `k` out of `n`:
/// `(cos(2 k pi / n), sin(2 k pi / n))` in fixed point, clamped to the unit
/// range. Doubling maps the half-circle of directions onto the full circle,
/// so that opposite ends of the direction range meet.
pub open spec fn spec_doubled_vec(k: int, n: int) -> (int, int) {
    let x = spec_angle_fp(2 * k, n);
    (spec_clamp_unit(spec_cos_fp(x)), spec_clamp_unit(spec_sin_fp(x)))
}

/// Computes the doubled-angle unit vector of direction `k` out of `n`.
pub fn doubled_dir_vec(k: u32, n: u32) -> (v: (i64, i64))
    requires
        1 <= n,
        k < n,
    ensures
        (v.0 as int, v.1 as int) == spec_doubled_vec(k as int, n as int),
        -SCALE <= v.0 <= SCALE,
        -SCALE <= v.1 <= SCALE,
{
    let x = angle_fp(2 * (k as u64), n);
    let sc = sin_cos_fp(x);
    let c: i64 = if sc.1 > SCALE {
        SCALE
    } else if sc.1 < -SCALE {
        -SCALE
    } else {
        sc.1
    };
    let s: i64 = if sc.0 > SCALE {
        SCALE
    } else if sc.0 < -SCALE {
        -SCALE
    } else {
        sc.0
    };
    (c, s)
}

/// The stripe direction whose doubled angle points along the mean vector
/// `(mx, my)`: by the half-angle identities, its cosine and sine are
/// `+-sqrt((1 +- cos(2 phi)) / 2)` with `cos(2 phi) = mx / |(mx, my)|`, and
/// the cosine takes the sign of `my`. A zero mean vector leaves the
/// direction at angle zero, and a zero sine folds the half-turn back onto
/// angle zero, keeping every direction inside the half-open half-circle.
pub open spec fn spec_half_angle_dir(mx: int, my: int) -> (int, int) {
    let r = spec_isqrt((mx * mx + my * my) as nat) as int;
    if r == 0 {
        (SCALE as int, 0)
    } else {
        let cmag = abs_i(mx) * SCALE / r;
        let cx = if mx < 0 {
            -cmag
        } else {
            cmag
        };
        let ch = spec_isqrt(((SCALE + cx) * SCALE / 2) as nat) as int;
        let sh = spec_isqrt(((SCALE - cx) * SCALE / 2) as nat) as int;
        if my < 0 && sh != 0 {
            (-ch, sh)
        } else {
            (ch, sh)
        }
    }
}

/// Reconstructs a stripe direction from the mean doubled-angle vector.
pub fn half_angle_direction(mx: i64, my: i64) -> (d: crate::StrokeDirection)
    requires
        -SCALE <= mx <= SCALE,
        -SCALE <= my <= SCALE,
    ensures
        (d.cos_fp as int, d.sin_fp as int) == spec_half_angle_dir(mx as int, my as int),
        -SCALE <= d.cos_fp <= SCALE,
        0 <= d.sin_fp <= SCALE,
        d.sin_fp == 0 ==> d.cos_fp == SCALE,
{
    let mxm: u64 = (if mx < 0 {
        -mx
    } else {
        mx
    }) as u64;
    let mym: u64 = (if my < 0 {
        -my
    } else {
        my
    }) as u64;
    proof {
        lemma_mul_bound(mxm as int, mxm as int, SCALE as int, SCALE as int);
        lemma_mul_bound(mym as int, mym as int, SCALE as int, SCALE as int);
        assert(mx as int * mx as int == mxm as int * mxm as int) by (nonlinear_arith)
            requires
                mxm as int == abs_i(mx as int),
        ;
        assert(my as int * my as int == mym as int * mym as int) by (nonlinear_arith)
            requires
                mym as int == abs_i(my as int),
        ;
    }
    let rsq: u64 = mxm * mxm + mym * mym;
    let r = isqrt(rsq);
    if r == 0 {
        return crate::StrokeDirection { cos_fp: SCALE, sin_fp: 0 };
    }
    proof {
        // the mean vector's components are bounded by its length
        assert(mxm as int <= r as int) by {
            if mxm as int > r as int {
                assert(mxm as int * mxm as int >= (r as int + 1) * (r as int + 1))
                    by (nonlinear_arith)
                    requires
                        mxm as int >= r as int + 1,
                ;
            }
        }
        lemma_mul_bound(mxm as int, SCALE as int, r as int, SCALE as int);
        lemma_mul_div_shrinks(SCALE as int, mxm as int, r as int);
        assert(mxm as int * SCALE == SCALE as int * mxm) by (nonlinear_arith);
        assert(SCALE as int * mxm as int / (r as int) <= SCALE) by {
            assert(SCALE as int * mxm <= SCALE as int * r) by (nonlinear_arith)
                requires
                    mxm as int <= r as int,
            ;
            lemma_div_is_ordered(SCALE as int * mxm, SCALE as int * r, r as int);
            lemma_div_multiples_vanish(SCALE as int, r as int);
            assert(SCALE as int * r == r as int * SCALE) by (nonlinear_arith);
        }
        lemma_div_pos_is_pos(mxm as int * SCALE, r as int);
    }
    let cmag: u64 = mxm * (SCALE as u64) / r;
    let cx: i64 = if mx < 0 {
        -(cmag as i64)
    } else {
        cmag as i64
    };
    proof {
        lemma_mul_bound((SCALE + cx) as int, SCALE as int, 2 * SCALE, SCALE as int);
        lemma_mul_bound((SCALE - cx) as int, SCALE as int, 2 * SCALE, SCALE as int);
    }
    let base_c: u64 = ((SCALE + cx) as u64) * (SCALE as u64) / 2;
    let base_s: u64 = ((SCALE - cx) as u64) * (SCALE as u64) / 2;
    let ch = isqrt(base_c);
    let sh = isqrt(base_s);
    proof {
        lemma_div_bound((SCALE + cx) as int * SCALE, 2, 2 * SCALE * SCALE, 2);
        lemma_div_bound((SCALE - cx) as int * SCALE, 2, 2 * SCALE * SCALE, 2);
        assert(ch as int <= SCALE) by {
            if ch as int > SCALE {
                assert(ch as int * ch as int >= (SCALE as int + 1) * (SCALE as int + 1))
                    by (nonlinear_arith)
                    requires
                        ch as int >= SCALE as int + 1,
                ;
                assert((SCALE as int + 1) * (SCALE as int + 1) > SCALE as int * SCALE)
                    by (nonlinear_arith);
                assert(base_c as int <= SCALE as int * SCALE) by {
                    assert((SCALE + cx) as int * SCALE <= 2 * SCALE * SCALE) by (nonlinear_arith)
                        requires
                            cx as int <= SCALE,
                    ;
                    lemma_div_is_ordered((SCALE + cx) as int * SCALE, 2 * SCALE * SCALE, 2);
                    assert(2 * SCALE * SCALE / 2 == SCALE as int * SCALE) by (nonlinear_arith);
                }
            }
        }
        assert(sh as int <= SCALE) by {
            if sh as int > SCALE {
                assert(sh as int * sh as int >= (SCALE as int + 1) * (SCALE as int + 1))
                    by (nonlinear_arith)
                    requires
                        sh as int >= SCALE as int + 1,
                ;
                assert((SCALE as int + 1) * (SCALE as int + 1) > SCALE as int * SCALE)
                    by (nonlinear_arith);
                assert(base_s as int <= SCALE as int * SCALE) by {
                    assert((SCALE - cx) as int * SCALE <= 2 * SCALE * SCALE) by (nonlinear_arith)
                        requires
                            -(SCALE as int) <= cx as int,
                    ;
                    lemma_div_is_ordered((SCALE - cx) as int * SCALE, 2 * SCALE * SCALE, 2);
                    assert(2 * SCALE * SCALE / 2 == SCALE as int * SCALE) by (nonlinear_arith);
                }
            }
        }
    }
    proof {
        // a zero sine forces the mean vector onto the positive axis, where
        // the cosine is the full scale
        if sh == 0 {
            assert(1int * 1 == 1) by (nonlinear_arith);
            assert(base_s == 0);
            assert(cx == SCALE) by {
                if cx as int <= SCALE - 1 {
                    assert((SCALE - cx) as int * SCALE >= SCALE) by (nonlinear_arith)
                        requires
                            cx as int <= SCALE as int - 1,
                    ;
                    vstd::arithmetic::div_mod::lemma_fundamental_div_mod_converse(
                        SCALE as int,
                        2,
                        0x2000_0000,
                        0,
                    );
                    lemma_div_is_ordered(SCALE as int, (SCALE - cx) as int * SCALE, 2);
                }
            }
            assert((SCALE + cx) as int * SCALE == 2 * (SCALE as int * SCALE))
                by (nonlinear_arith)
                requires
                    cx as int == SCALE as int,
            ;
            assert(base_c as int == SCALE as int * SCALE) by {
                vstd::arithmetic::div_mod::lemma_fundamental_div_mod_converse(
                    2 * (SCALE as int * SCALE),
                    2,
                    SCALE as int * SCALE,
                    0,
                );
            }
            assert(ch as int == SCALE) by {
                assert(SCALE as int * SCALE < (SCALE as int + 1) * (SCALE as int + 1))
                    by (nonlinear_arith);
                lemma_isqrt_unique((SCALE as int * SCALE) as nat, SCALE as nat);
            }
        }
    }
    let cos_fp: i64 = if my < 0 && sh != 0 {
        -(ch as i64)
    } else {
        ch as i64
    };
    crate::StrokeDirection { cos_fp, sin_fp: sh as i64 }
}

/// The sine series vanishes at angle zero.
pub proof fn lemma_sin_core_zero()
    ensures
        spec_sin_core(0) == 0,
{
    let s2 = SCALE as int * SCALE as int;
    lemma_mul_bound(SCALE as int, SCALE as int, SCALE as int, SCALE as int);
    assert(0int * 0 == 0) by (nonlinear_arith);
    assert(s2 * 6 >= 1 && s2 * 20 >= 1 && s2 * 42 >= 1 && s2 * 72 >= 1 && s2 * 110 >= 1 && s2
        * 156 >= 1) by (nonlinear_arith)
        requires
            s2 >= 1,
    ;
    vstd::arithmetic::div_mod::lemma_basic_div(0, s2 * 6);
    vstd::arithmetic::div_mod::lemma_basic_div(0, s2 * 20);
    vstd::arithmetic::div_mod::lemma_basic_div(0, s2 * 42);
    vstd::arithmetic::div_mod::lemma_basic_div(0, s2 * 72);
    vstd::arithmetic::div_mod::lemma_basic_div(0, s2 * 110);
    vstd::arithmetic::div_mod::lemma_basic_div(0, s2 * 156);
}

/// The cosine series is the full scale at angle zero.
pub proof fn lemma_cos_core_zero()
    ensures
        spec_cos_core(0) == SCALE,
{
    let s2 = SCALE as int * SCALE as int;
    lemma_mul_bound(SCALE as int, SCALE as int, SCALE as int, SCALE as int);
    assert(0int * 0 == 0) by (nonlinear_arith);
    assert(s2 * 12 >= 1 && s2 * 30 >= 1 && s2 * 56 >= 1 && s2 * 90 >= 1 && s2 * 132 >= 1 && s2
        * 182 >= 1) by (nonlinear_arith)
        requires
            s2 >= 1,
    ;
    vstd::arithmetic::div_mod::lemma_basic_div(0, SCALE as int * 2);
    vstd::arithmetic::div_mod::lemma_basic_div(0, s2 * 12);
    vstd::arithmetic::div_mod::lemma_basic_div(0, s2 * 30);
    vstd::arithmetic::div_mod::lemma_basic_div(0, s2 * 56);
    vstd::arithmetic::div_mod::lemma_basic_div(0, s2 * 90);
    vstd::arithmetic::div_mod::lemma_basic_div(0, s2 * 132);
    vstd::arithmetic::div_mod::lemma_basic_div(0, s2 * 182);
}

/// The first candidate direction has angle zero, lies within an eighth-turn
/// of the horizontal, and its sample line is perfectly straight: every
/// offset's rounded displacement is zero.
pub proof fn lemma_first_dir_line_straight(n: int, l: int)
    requires
        1 <= n,
    ensures
        spec_dir_shallow(0, n),
        spec_line_offset(0, n, l) == 0,
{
    assert(0int * PI_FP == 0) by (nonlinear_arith);
    vstd::arithmetic::div_mod::lemma_basic_div(0, n);
    assert(spec_angle_fp(0, n) == 0);
    lemma_sin_core_zero();
    lemma_cos_core_zero();
    assert(spec_sin_fp(0) == 0);
    assert(spec_cos_fp(0) == SCALE);
    // the slope magnitude collapses to zero
    assert(0int * SCALE == 0) by (nonlinear_arith);
    vstd::arithmetic::div_mod::lemma_fundamental_div_mod_converse(SCALE as int, 2, 0x2000_0000, 0);
    vstd::arithmetic::div_mod::lemma_basic_div(SCALE as int / 2, SCALE as int);
    assert(spec_slope_mag(0, SCALE as int) == 0);
    // and so does the rounded displacement of any offset
    assert(abs_i(l) * 0 == 0) by (nonlinear_arith);
    assert((0 + SCALE as int / 2) / (SCALE as int) == 0) by {
        vstd::arithmetic::div_mod::lemma_basic_div(SCALE as int / 2, SCALE as int);
    }
}

} // verus!
