//! Fixed-point numeric model used throughout the library.
//!
//! Lengths, sizes and coordinates are integers in thousandths of a unit,
//! angles are integers in milliradians (half a turn is `PI_MRAD`), parameter
//! angles are in millidegrees, and probabilities are in parts per million.
//! Sine, cosine and the decaying exponential are rational approximations whose
//! exact integer definitions are the spec functions below.
use vstd::prelude::*;

verus! {

/// One unit, in thousandths.
pub const SCALE: i64 = 1000;

/// Certainty, in parts per million; also the value of `sin(π/2)`.
pub const PPM: i64 = 1_000_000;

/// Half a turn in milliradians (π ≈ 3.142).
pub const PI_MRAD: i64 = 3142;

/// Quarter of a turn in milliradians.
pub const HALF_PI_MRAD: i64 = 1571;

/// A full turn in milliradians.
pub const TAU_MRAD: i64 = 6284;

/// Half a turn in millidegrees.
pub const HALF_TURN_MDEG: i64 = 180_000;

/// A full turn in millidegrees.
pub const TURN_MDEG: i64 = 360_000;

/// Largest magnitude of a parameter value that the growth layers accept.
pub const VALUE_MAX: i64 = 1_000_000_000_000;

/// Largest magnitude of a segment length.
pub const LENGTH_MAX: i64 = 1_000_000_000_000;

/// Coordinates are clamped into `[-COORD_MAX, COORD_MAX]`.
pub const COORD_MAX: i64 = 1_000_000_000_000_000;

/// Euclidean quotient and remainder of `a` by `b`, from those of `-a - 1`.
proof fn lemma_floor_div_neg(a: int, b: int, q: int, r: int)
    requires
        b > 0,
        a < 0,
        -a - 1 == b * q + r,
        0 <= r < b,
    ensures
        a / b == -q - 1,
        a % b == b - r - 1,
{
    assert(a == (-q - 1) * b + (b - r - 1)) by (nonlinear_arith)
        requires
            -a - 1 == b * q + r,
    ;
    vstd::arithmetic::div_mod::lemma_fundamental_div_mod_converse(a, b, -q - 1, b - r - 1);
}

/// Floor division by a positive divisor.
pub fn div_floor(a: i64, b: i64) -> (r: i64)
    requires
        b > 0,
    ensures
        r == a / b,
{
    if a >= 0 {
        ((a as u64) / (b as u64)) as i64
    } else {
        let n: u64 = (-(a + 1)) as u64;
        let q: u64 = n / (b as u64);
        let m: u64 = n % (b as u64);
        proof {
            vstd::arithmetic::div_mod::lemma_fundamental_div_mod(n as int, b as int);
            lemma_floor_div_neg(a as int, b as int, q as int, m as int);
        }
        -(q as i64) - 1
    }
}

/// Non-negative remainder by a positive divisor.
pub fn rem_floor(a: i64, b: i64) -> (r: i64)
    requires
        b > 0,
    ensures
        r == a % b,
        0 <= r < b,
{
    if a >= 0 {
        ((a as u64) % (b as u64)) as i64
    } else {
        let n: u64 = (-(a + 1)) as u64;
        let q: u64 = n / (b as u64);
        let m: u64 = n % (b as u64);
        proof {
            vstd::arithmetic::div_mod::lemma_fundamental_div_mod(n as int, b as int);
            lemma_floor_div_neg(a as int, b as int, q as int, m as int);
        }
        b - (m as i64) - 1
    }
}

/// `v` limited to `[lo, hi]`.
pub open spec fn clamp(v: int, lo: int, hi: int) -> int {
    if v < lo {
        lo
    } else if v > hi {
        hi
    } else {
        v
    }
}

/// The heading `a` brought into `[-π, π)`.
pub open spec fn norm_angle(a: int) -> int {
    (a + PI_MRAD) % (TAU_MRAD as int) - PI_MRAD
}

/// Bhaskara's approximation of `sin(x)` on `[0, π]`, in parts per million.
pub open spec fn bhaskara(x: int) -> int {
    (16 * x * (PI_MRAD - x) * PPM) / (5 * PI_MRAD * PI_MRAD - 4 * x * (PI_MRAD - x))
}

/// Sine of an angle in milliradians, in parts per million.
pub open spec fn sin_ppm(a: int) -> int {
    let r = a % (TAU_MRAD as int);
    if r < PI_MRAD {
        bhaskara(r)
    } else {
        -bhaskara(r - PI_MRAD)
    }
}

/// Cosine of an angle in milliradians, in parts per million.
pub open spec fn cos_ppm(a: int) -> int {
    sin_ppm(a + HALF_PI_MRAD)
}

/// An angle in millidegrees converted to milliradians (rounded down).
pub open spec fn deg_to_rad(mdeg: int) -> int {
    (mdeg * PI_MRAD) / (HALF_TURN_MDEG as int)
}

/// `e^-k` in parts per million, for whole `k` below 15; zero from 15 on.
pub open spec fn exp_table(k: int) -> int {
    if k == 0 {
        1_000_000
    } else if k == 1 {
        367_879
    } else if k == 2 {
        135_335
    } else if k == 3 {
        49_787
    } else if k == 4 {
        18_316
    } else if k == 5 {
        6_738
    } else if k == 6 {
        2_479
    } else if k == 7 {
        912
    } else if k == 8 {
        335
    } else if k == 9 {
        123
    } else if k == 10 {
        45
    } else if k == 11 {
        17
    } else if k == 12 {
        6
    } else if k == 13 {
        2
    } else if k == 14 {
        1
    } else {
        0
    }
}

/// `e^-x` in parts per million for `x` in thousandths, interpolated linearly
/// between whole values of `x`.
pub open spec fn exp_neg_ppm(x: int) -> int {
    let k = x / 1000;
    let f = x % 1000;
    if k >= 15 {
        0
    } else {
        exp_table(k) - ((exp_table(k) - exp_table(k + 1)) * f) / 1000
    }
}

/// Brings a heading into `[-π, π)`.
pub fn normalize_angle(a: i64) -> (r: i64)
    ensures
        r == norm_angle(a as int),
        -PI_MRAD <= r < PI_MRAD,
{
    let t = rem_floor(a, TAU_MRAD);
    proof {
        vstd::arithmetic::div_mod::lemma_add_mod_noop(a as int, PI_MRAD as int, TAU_MRAD as int);
        vstd::arithmetic::div_mod::lemma_small_mod(PI_MRAD as nat, TAU_MRAD as nat);
    }
    if t >= PI_MRAD {
        proof {
            vstd::arithmetic::div_mod::lemma_fundamental_div_mod_converse(
                t + PI_MRAD,
                TAU_MRAD as int,
                1,
                t + PI_MRAD - TAU_MRAD,
            );
        }
        t - TAU_MRAD
    } else {
        proof {
            vstd::arithmetic::div_mod::lemma_small_mod((t + PI_MRAD) as nat, TAU_MRAD as nat);
        }
        t
    }
}

fn bhaskara_exec(x: i64) -> (r: i64)
    requires
        0 <= x <= PI_MRAD,
    ensures
        r == bhaskara(x as int),
        0 <= r <= PPM,
{
    assert(0 <= x * (PI_MRAD - x) <= 2_468_041) by (nonlinear_arith)
        requires
            0 <= x <= PI_MRAD,
    ;
    let p = x * (PI_MRAD - x);
    let num = 16 * p * PPM;
    let den = 5 * PI_MRAD * PI_MRAD - 4 * p;
    assert(num <= den * PPM) by (nonlinear_arith)
        requires
            num == 16 * p * PPM,
            den == 5 * PI_MRAD * PI_MRAD - 4 * p,
            0 <= p <= 2_468_041,
    ;
    assert(16 * (x as int) * (PI_MRAD - x) * PPM == num) by (nonlinear_arith)
        requires
            p == x * (PI_MRAD - x),
            num == 16 * p * PPM,
    ;
    assert(5 * PI_MRAD * PI_MRAD - 4 * (x as int) * (PI_MRAD - x) == den) by (nonlinear_arith)
        requires
            p == x * (PI_MRAD - x),
            den == 5 * PI_MRAD * PI_MRAD - 4 * p,
    ;
    proof {
        vstd::arithmetic::div_mod::lemma_div_is_ordered(num as int, (den * PPM) as int, den as int);
        vstd::arithmetic::div_mod::lemma_div_multiples_vanish(PPM as int, den as int);
    }
    num / den
}

fn sin_reduced(r: i64) -> (s: i64)
    requires
        0 <= r < TAU_MRAD,
    ensures
        s == sin_ppm(r as int),
        -PPM <= s <= PPM,
{
    proof {
        vstd::arithmetic::div_mod::lemma_small_mod(r as nat, TAU_MRAD as nat);
    }
    if r < PI_MRAD {
        bhaskara_exec(r)
    } else {
        -bhaskara_exec(r - PI_MRAD)
    }
}

/// Sine of an angle in milliradians, in parts per million.
pub fn sin(a: i64) -> (s: i64)
    ensures
        s == sin_ppm(a as int),
        -PPM <= s <= PPM,
{
    let r = rem_floor(a, TAU_MRAD);
    proof {
        vstd::arithmetic::div_mod::lemma_mod_twice(a as int, TAU_MRAD as int);
    }
    sin_reduced(r)
}

/// Cosine of an angle in milliradians, in parts per million.
pub fn cos(a: i64) -> (c: i64)
    ensures
        c == cos_ppm(a as int),
        -PPM <= c <= PPM,
{
    let t = rem_floor(a, TAU_MRAD);
    let s = t + HALF_PI_MRAD;
    proof {
        vstd::arithmetic::div_mod::lemma_add_mod_noop(a as int, HALF_PI_MRAD as int, TAU_MRAD as int);
        vstd::arithmetic::div_mod::lemma_small_mod(HALF_PI_MRAD as nat, TAU_MRAD as nat);
    }
    if s >= TAU_MRAD {
        proof {
            vstd::arithmetic::div_mod::lemma_fundamental_div_mod_converse(
                s as int,
                TAU_MRAD as int,
                1,
                s - TAU_MRAD,
            );
            vstd::arithmetic::div_mod::lemma_small_mod((s - TAU_MRAD) as nat, TAU_MRAD as nat);
        }
        sin_reduced(s - TAU_MRAD)
    } else {
        proof {
            vstd::arithmetic::div_mod::lemma_small_mod(s as nat, TAU_MRAD as nat);
        }
        sin_reduced(s)
    }
}

/// An angle in millidegrees converted to milliradians.
pub fn degrees_to_radians(mdeg: i64) -> (r: i64)
    requires
        -VALUE_MAX <= mdeg <= VALUE_MAX,
    ensures
        r == deg_to_rad(mdeg as int),
{
    div_floor(mdeg * PI_MRAD, HALF_TURN_MDEG)
}

fn exp_table_exec(k: u64) -> (r: u64)
    requires
        k <= 15,
    ensures
        r == exp_table(k as int),
{
    if k == 0 {
        1_000_000
    } else if k == 1 {
        367_879
    } else if k == 2 {
        135_335
    } else if k == 3 {
        49_787
    } else if k == 4 {
        18_316
    } else if k == 5 {
        6_738
    } else if k == 6 {
        2_479
    } else if k == 7 {
        912
    } else if k == 8 {
        335
    } else if k == 9 {
        123
    } else if k == 10 {
        45
    } else if k == 11 {
        17
    } else if k == 12 {
        6
    } else if k == 13 {
        2
    } else if k == 14 {
        1
    } else {
        0
    }
}

/// `e^-x` in parts per million for `x` in thousandths.
pub fn exp_neg(x: u64) -> (r: u64)
    ensures
        r == exp_neg_ppm(x as int),
        r <= PPM,
{
    let k = x / 1000;
    let f = x % 1000;
    if k >= 15 {
        0
    } else {
        let a = exp_table_exec(k);
        let b = exp_table_exec(k + 1);
        assert(b <= a);
        assert((a - b) * f <= (a - b) * 1000) by (nonlinear_arith)
            requires
                f < 1000,
                b <= a,
        ;
        proof {
            vstd::arithmetic::div_mod::lemma_div_is_ordered(
                ((a - b) * f) as int,
                ((a - b) * 1000) as int,
                1000,
            );
            vstd::arithmetic::div_mod::lemma_div_multiples_vanish((a - b) as int, 1000);
        }
        a - ((a - b) * f) / 1000
    }
}

} // verus!
