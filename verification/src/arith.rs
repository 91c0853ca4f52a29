//! Fixed-point arithmetic primitives: truncating division and the floor
//! square root, each pinned to a spec-level definition.
use vstd::prelude::*;

verus! {

/// Fixed-point scale: the integer `v` represents the real number `v / SCALE`.
pub const SCALE: i64 = 10_000;

/// Largest magnitude a numeric cell value may have (in scaled units).
pub const NUM_ABS_MAX: i64 = 10_000_000_000;

/// Largest population size the statistics accept.
pub const ROWS_MAX: usize = 100_000_000;

/// Largest number of predictor columns the statistics accept.
pub const COLS_MAX: usize = 10_000;

/// Largest magnitude an association weight may have (in scaled units).
pub const WEIGHT_MAX: i64 = 4_000_000_000_000_000_000;

/// Division that rounds toward zero, the rounding used throughout the
/// fixed-point statistics.
pub open spec fn dtz(a: int, b: int) -> int
    recommends
        b > 0,
{
    if a >= 0 {
        a / b
    } else {
        -((-a) / b)
    }
}

/// The floor of the square root of `x`, as the unique non-negative `r` with
/// `r * r <= x < (r + 1) * (r + 1)`.
pub open spec fn sqrt_floor(x: int) -> int
    recommends
        x >= 0,
{
    choose|r: int| 0 <= r && #[trigger] (r * r) <= x < (r + 1) * (r + 1)
}

/// Any `r` satisfying the floor-square-root bracket is `sqrt_floor(x)`.
pub proof fn lemma_sqrt_floor_unique(x: int, r: int)
    requires
        0 <= r,
        r * r <= x,
        x < (r + 1) * (r + 1),
    ensures
        sqrt_floor(x) == r,
{
    assert(exists|q: int| 0 <= q && #[trigger] (q * q) <= x < (q + 1) * (q + 1)) by {
        assert(0 <= r && r * r <= x < (r + 1) * (r + 1));
    }
    let c = sqrt_floor(x);
    assert(0 <= c && c * c <= x < (c + 1) * (c + 1));
    assert(c == r) by (nonlinear_arith)
        requires
            0 <= r,
            r * r <= x,
            x < (r + 1) * (r + 1),
            0 <= c,
            c * c <= x,
            x < (c + 1) * (c + 1),
    ;
}

/// Truncating division brings a quotient no larger in magnitude than the
/// bound of the dividend: if `|a| <= n * m` then `|dtz(a, n)| <= m`.
pub proof fn lemma_dtz_bound(a: int, n: int, m: int)
    requires
        n > 0,
        m >= 0,
        -(n * m) <= a <= n * m,
    ensures
        -m <= dtz(a, n) <= m,
{
    if a >= 0 {
        assert(a / n <= m) by (nonlinear_arith)
            requires
                n > 0,
                m >= 0,
                a >= 0,
                a <= n * m,
        ;
        assert(a / n >= 0) by (nonlinear_arith)
            requires
                n > 0,
                a >= 0,
        ;
    } else {
        assert((-a) / n <= m) by (nonlinear_arith)
            requires
                n > 0,
                m >= 0,
                -a >= 0,
                -a <= n * m,
        ;
        assert((-a) / n >= 0) by (nonlinear_arith)
            requires
                n > 0,
                -a >= 0,
        ;
    }
}

/// Truncating division never grows the magnitude of the dividend.
pub proof fn lemma_dtz_le_abs(a: int, b: int)
    requires
        b >= 1,
    ensures
        a >= 0 ==> 0 <= dtz(a, b) <= a,
        a < 0 ==> a <= dtz(a, b) <= 0,
{
    if a >= 0 {
        assert(0 <= a / b <= a) by (nonlinear_arith)
            requires
                b >= 1,
                a >= 0,
        ;
    } else {
        assert(0 <= (-a) / b <= -a) by (nonlinear_arith)
            requires
                b >= 1,
                -a >= 0,
        ;
    }
}

/// Division of an `i128` rounding toward zero; the executable counterpart of
/// `dtz`.
pub fn div_tz(a: i128, b: i128) -> (r: i128)
    requires
        b > 0,
        a > i128::MIN,
    ensures
        r == dtz(a as int, b as int),
{
    if a >= 0 {
        let q: u128 = (a as u128) / (b as u128);
        proof {
            lemma_dtz_le_abs(a as int, b as int);
        }
        q as i128
    } else {
        let q: u128 = ((-a) as u128) / (b as u128);
        proof {
            lemma_dtz_le_abs(a as int, b as int);
        }
        -(q as i128)
    }
}

/// Floor square root of a `u128`, computed by bisection.
pub fn isqrt(x: u128) -> (r: u128)
    requires
        x < 0x1000_0000_0000_0000_0000_0000_0000_0000,
    ensures
        r * r <= x,
        x < (r + 1) * (r + 1),
        r == sqrt_floor(x as int),
{
    let mut lo: u128 = 0;
    let mut hi: u128 = 0x4000_0000_0000_0000;
    proof {
        assert((hi as int) * (hi as int) > x);
    }
    while hi - lo > 1
        invariant
            0 <= lo < hi,
            hi <= 0x4000_0000_0000_0000,
            lo * lo <= x,
            x < hi * hi,
        decreases hi - lo,
    {
        let mid: u128 = lo + (hi - lo) / 2;
        proof {
            vstd::arithmetic::div_mod::lemma_fundamental_div_mod(x as int, mid as int);
        }
        if mid <= x / mid {
            proof {
                assert(mid * mid <= x) by (nonlinear_arith)
                    requires
                        mid > 0,
                        mid <= (x as int) / (mid as int),
                        x == (mid as int) * ((x as int) / (mid as int)) + (x as int) % (mid as int),
                        0 <= (x as int) % (mid as int) < (mid as int),
                ;
            }
            lo = mid;
        } else {
            proof {
                assert(x < mid * mid) by (nonlinear_arith)
                    requires
                        mid > 0,
                        mid > (x as int) / (mid as int),
                        x == (mid as int) * ((x as int) / (mid as int)) + (x as int) % (mid as int),
                        0 <= (x as int) % (mid as int) < (mid as int),
                ;
            }
            hi = mid;
        }
    }
    proof {
        lemma_sqrt_floor_unique(x as int, lo as int);
    }
    lo
}

} // verus!
