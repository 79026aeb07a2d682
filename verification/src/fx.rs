//! Fixed-point arithmetic for world coordinates and angles.
//!
//! One world unit is `FX_ONE` fixed-point steps; angles are radians in the
//! same scale, so a full turn is `FX_TAU`. All of it is integer arithmetic,
//! which keeps every result exactly specified; the sine approximation is a
//! rational one that is exact at 0 and at a quarter turn.

use vstd::prelude::*;
use vstd::arithmetic::div_mod::{
    lemma_fundamental_div_mod, lemma_fundamental_div_mod_converse,
};

verus! {

/// One world unit (and the fixed-point value of 1.0).
pub const FX_ONE: i64 = 1000;

/// Half a turn, in fixed-point radians.
pub const FX_PI: i64 = 3142;

/// A full turn, in fixed-point radians.
pub const FX_TAU: i64 = 6284;

/// A quarter turn, in fixed-point radians.
pub const FX_HALF_PI: i64 = 1571;

/// Largest argument magnitude the angle helpers accept.
pub const FX_ARG_LIMIT: i64 = 2_000_000_000;

/// Largest factor magnitude `fx_mul` accepts.
pub const FX_MUL_LIMIT: i64 = 1_000_000_000;

/// Fixed-point product, rounded toward zero.
pub open spec fn spec_fx_mul(a: int, b: int) -> int {
    if a * b >= 0 {
        (a * b) / (FX_ONE as int)
    } else {
        -((-(a * b)) / (FX_ONE as int))
    }
}

/// `x` reduced into `[0, m)` the mathematical way, independent of sign.
pub open spec fn spec_fx_mod(x: int, m: int) -> int {
    x % m
}

/// The rational sine approximation on `[0, FX_PI]`, in fixed-point scale.
pub open spec fn spec_bhaskara(a: int) -> int {
    (16 * a * (FX_PI - a) * FX_ONE) / (5 * FX_PI * FX_PI - 4 * a * (FX_PI - a))
}

/// Fixed-point sine of any angle.
pub open spec fn spec_fx_sin(x: int) -> int {
    let a = spec_fx_mod(x, FX_TAU as int);
    if a <= FX_PI {
        spec_bhaskara(a)
    } else {
        -spec_bhaskara(a - FX_PI)
    }
}

/// Fixed-point cosine of any angle.
pub open spec fn spec_fx_cos(x: int) -> int {
    spec_fx_sin(spec_fx_mod(x, FX_TAU as int) + FX_HALF_PI)
}

/// A 2D world vector in fixed-point coordinates.
#[derive(Clone, Copy, Debug, PartialEq, Eq, Structural)]
pub struct FxVec2 {
    pub x: i64,
    pub y: i64,
}

/// One value forced into `[-limit, limit]`.
pub open spec fn spec_clamp(v: int, limit: int) -> int {
    if v < -limit {
        -limit
    } else if v > limit {
        limit
    } else {
        v
    }
}

/// Forces a value into `[-limit, limit]`; a value already inside is unchanged.
pub fn fx_clamp(v: i64, limit: i64) -> (r: i64)
    requires
        0 < limit,
    ensures
        r == spec_clamp(v as int, limit as int),
{
    if v < -limit {
        -limit
    } else if v > limit {
        limit
    } else {
        v
    }
}

/// An exactly divisible quotient.
pub proof fn lemma_div_exact(n: int, d: int, q: int)
    requires
        0 < d,
        n == d * q,
    ensures
        n / d == q,
{
    assert(n == q * d + 0) by (nonlinear_arith)
        requires n == d * q;
    lemma_fundamental_div_mod_converse(n, d, q, 0);
}

/// A bound on the product bounds the scaled-down product.
pub proof fn lemma_fx_mul_bound(a: int, b: int, p: int)
    requires
        -p <= a * b <= p,
        0 <= p,
    ensures
        -(p / (FX_ONE as int)) <= spec_fx_mul(a, b) <= p / (FX_ONE as int),
{
    let one = FX_ONE as int;
    lemma_div_exact(0, one, 0);
    if a * b >= 0 {
        vstd::arithmetic::div_mod::lemma_div_is_ordered(a * b, p, one);
        vstd::arithmetic::div_mod::lemma_div_is_ordered(0, a * b, one);
    } else {
        vstd::arithmetic::div_mod::lemma_div_is_ordered(-(a * b), p, one);
        vstd::arithmetic::div_mod::lemma_div_is_ordered(0, -(a * b), one);
        vstd::arithmetic::div_mod::lemma_div_is_ordered(0, p, one);
    }
}

/// Bounds on both factors bound the fixed-point product.
pub proof fn lemma_fx_mul_range(a: int, b: int, ma: int, mb: int)
    requires
        -ma <= a <= ma,
        -mb <= b <= mb,
        0 <= ma,
        0 <= mb,
    ensures
        -(ma * mb / (FX_ONE as int)) <= spec_fx_mul(a, b) <= ma * mb / (FX_ONE as int),
{
    assert(-(ma * mb) <= a * b <= ma * mb) by (nonlinear_arith)
        requires (-ma <= a <= ma) && (-mb <= b <= mb) && (0 <= ma) && (0 <= mb);
    assert(0 <= ma * mb) by (nonlinear_arith)
        requires (0 <= ma) && (0 <= mb);
    lemma_fx_mul_bound(a, b, ma * mb);
}

/// Multiplying by the fixed-point one changes nothing.
pub proof fn lemma_fx_mul_one(a: int)
    ensures
        spec_fx_mul(a, FX_ONE as int) == a,
{
    let one = FX_ONE as int;
    if a >= 0 {
        assert(a * one == one * a) by (nonlinear_arith);
        lemma_div_exact(a * one, one, a);
    } else {
        assert(-(a * one) == one * (-a)) by (nonlinear_arith);
        lemma_div_exact(-(a * one), one, -a);
    }
}

/// Multiplying by zero gives zero.
pub proof fn lemma_fx_mul_zero(a: int)
    ensures
        spec_fx_mul(a, 0) == 0,
{
    assert(a * 0 == 0) by (nonlinear_arith);
    lemma_div_exact(0, FX_ONE as int, 0);
}

/// Multiplies two fixed-point values, scaling the product back down.
pub fn fx_mul(a: i64, b: i64) -> (r: i64)
    requires
        -FX_MUL_LIMIT <= a <= FX_MUL_LIMIT,
        -FX_MUL_LIMIT <= b <= FX_MUL_LIMIT,
    ensures
        r == spec_fx_mul(a as int, b as int),
{
    let neg = (a < 0) != (b < 0);
    let ma: u64 = if a < 0 { (-a) as u64 } else { a as u64 };
    let mb: u64 = if b < 0 { (-b) as u64 } else { b as u64 };
    proof {
        assert(ma * mb <= 1_000_000_000 * 1_000_000_000) by (nonlinear_arith)
            requires ma <= 1_000_000_000 && mb <= 1_000_000_000;
        if neg {
            assert(a as int * b as int == -((ma as int) * (mb as int))) by (nonlinear_arith)
                requires
                    (ma == if a < 0 { -(a as int) } else { a as int }),
                    (mb == if b < 0 { -(b as int) } else { b as int }),
                    ((a < 0) != (b < 0));
        } else {
            assert(a as int * b as int == (ma as int) * (mb as int)) by (nonlinear_arith)
                requires
                    (ma == if a < 0 { -(a as int) } else { a as int }),
                    (mb == if b < 0 { -(b as int) } else { b as int }),
                    !((a < 0) != (b < 0));
        }
    }
    let p: u64 = ma * mb;
    let q: u64 = p / 1000;
    if neg {
        -(q as i64)
    } else {
        q as i64
    }
}

/// Reduces `x` into `[0, m)`, treating negative values mathematically
/// (the result is never negative).
pub fn fx_floor_mod(x: i64, m: i64) -> (r: i64)
    requires
        1 <= m,
        -FX_ARG_LIMIT <= x <= FX_ARG_LIMIT,
    ensures
        r == spec_fx_mod(x as int, m as int),
        0 <= r < m,
{
    let mu: u64 = m as u64;
    if x >= 0 {
        let r = ((x as u64) % mu) as i64;
        proof {
            lemma_fundamental_div_mod(x as int, m as int);
        }
        r
    } else {
        let n: u64 = (-x) as u64;
        let rr: u64 = n % mu;
        proof {
            lemma_fundamental_div_mod(n as int, m as int);
            let q = (n as int) / (m as int);
            if rr == 0 {
                assert(x as int == (m as int) * (-q) + 0) by (nonlinear_arith)
                    requires (n as int == (m as int) * q + 0) && (x as int == -(n as int));
                lemma_fundamental_div_mod_converse(x as int, m as int, -q, 0);
            } else {
                assert(x as int == (m as int) * (-q - 1) + ((m as int) - (rr as int)))
                    by (nonlinear_arith)
                    requires
                        (n as int == (m as int) * q + (rr as int)) && (x as int == -(n as int));
                lemma_fundamental_div_mod_converse(
                    x as int,
                    m as int,
                    -q - 1,
                    (m as int) - (rr as int),
                );
            }
        }
        if rr == 0 {
            0
        } else {
            m - (rr as i64)
        }
    }
}

/// The rational sine approximation on `[0, FX_PI]`. Exact at both ends and at
/// the quarter turn; never outside `[0, FX_ONE]`.
fn bhaskara_sin(a: i64) -> (r: i64)
    requires
        0 <= a <= FX_PI,
    ensures
        r == spec_bhaskara(a as int),
        0 <= r <= FX_ONE,
{
    proof {
        assert((a as int) * ((FX_PI - a) as int) <= 3142 * 3142) by (nonlinear_arith)
            requires 0 <= a as int <= 3142;
        assert(0 <= (a as int) * ((FX_PI - a) as int)) by (nonlinear_arith)
            requires 0 <= a as int <= 3142;
        assert(4 * ((a as int) * ((FX_PI - a) as int)) <= 3142 * 3142) by (nonlinear_arith)
            requires 0 <= a as int <= 3142;
    }
    let pa: u64 = (a as u64) * ((FX_PI - a) as u64);
    let num: u64 = 16 * pa * 1000;
    let den: u64 = 5 * 3142 * 3142 - 4 * pa;
    let q: u64 = num / den;
    proof {
        let ai = a as int;
        let numi = num as int;
        let deni = den as int;
        assert(numi == 16 * ai * ((FX_PI - a) as int) * 1000) by (nonlinear_arith)
            requires (numi == 16 * (pa as int) * 1000) && (pa as int == ai * ((FX_PI - a) as int));
        assert(deni == 5 * 3142 * 3142 - 4 * ai * ((FX_PI - a) as int)) by (nonlinear_arith)
            requires
                (deni == 5 * 3142 * 3142 - 4 * (pa as int)) && (pa as int == ai * (
                (FX_PI - a) as int));
        assert(spec_bhaskara(ai) == numi / deni);
        lemma_fundamental_div_mod(numi, deni);
        assert(numi <= 1000 * deni) by (nonlinear_arith)
            requires
                (numi == 16 * (pa as int) * 1000) && (deni == 5 * 3142 * 3142 - 4 * (pa as int))
                    && (4 * (pa as int) <= 3142 * 3142);
        assert(numi / deni <= 1000) by {
            if numi / deni > 1000 {
                assert(numi >= deni * (numi / deni)) by (nonlinear_arith)
                    requires (numi == deni * (numi / deni) + numi % deni) && (numi % deni >= 0);
                assert(deni * (numi / deni) > 1000 * deni) by (nonlinear_arith)
                    requires (numi / deni > 1000) && (deni > 0);
            }
        }
    }
    q as i64
}

/// Fixed-point sine, defined for every bounded angle.
pub fn fx_sin(x: i64) -> (r: i64)
    requires
        -FX_ARG_LIMIT <= x <= FX_ARG_LIMIT,
    ensures
        r == spec_fx_sin(x as int),
        -FX_ONE <= r <= FX_ONE,
{
    let a = fx_floor_mod(x, FX_TAU);
    if a <= FX_PI {
        bhaskara_sin(a)
    } else {
        -bhaskara_sin(a - FX_PI)
    }
}

/// Fixed-point cosine, defined for every bounded angle.
pub fn fx_cos(x: i64) -> (r: i64)
    requires
        -FX_ARG_LIMIT <= x <= FX_ARG_LIMIT,
    ensures
        r == spec_fx_cos(x as int),
        -FX_ONE <= r <= FX_ONE,
{
    let a = fx_floor_mod(x, FX_TAU);
    let r = fx_sin(a + FX_HALF_PI);
    proof {
        assert(spec_fx_sin((a + FX_HALF_PI) as int) == spec_fx_cos(x as int));
    }
    r
}

/// The sine of angle zero is exactly zero.
pub proof fn lemma_fx_sin_zero()
    ensures
        spec_fx_sin(0) == 0,
{
    lemma_fundamental_div_mod_converse(0, FX_TAU as int, 0, 0);
    assert(16 * 0 * (FX_PI - 0) * FX_ONE == 0);
    assert(spec_bhaskara(0) == 0);
}

/// The cosine of angle zero is exactly one.
pub proof fn lemma_fx_cos_zero()
    ensures
        spec_fx_cos(0) == FX_ONE,
{
    lemma_fundamental_div_mod_converse(0, FX_TAU as int, 0, 0);
    lemma_fundamental_div_mod_converse(FX_HALF_PI as int, FX_TAU as int, 0, FX_HALF_PI as int);
    assert(spec_fx_cos(0) == spec_bhaskara(FX_HALF_PI as int));
    assert(16 * 1571 * (3142 - 1571) * 1000 == 39488656000int);
    assert(5 * 3142 * 3142 - 4 * (1571 * (3142 - 1571)) == 39488656);
    lemma_fundamental_div_mod_converse(39488656000int, 39488656int, 1000int, 0int);
    assert(spec_bhaskara(1571) == 39488656000int / 39488656int);
}

} // verus!
