//! Fixed-point scalar arithmetic: truncating division and integer square
//! roots, with the spec-level functions the rest of the library's contracts
//! are written in.

use vstd::prelude::*;
use vstd::arithmetic::div_mod::*;
use vstd::arithmetic::mul::*;

verus! {

/// One whole unit in the fixed-point encoding: a fixed-point value `v`
/// stands for the real number `v / SCALE`.
pub const SCALE: i64 = 65536;

/// Sentinel ray parameter meaning "no intersection": larger than any
/// legitimate root the solver can produce.
pub const TMAX: i64 = 9223372036854775807;

/// Largest magnitude allowed for scene coordinates, radii and intensities
/// (fixed-point), i.e. 8192 whole units. Keeps every intermediate product
/// of the pipeline inside `i128`.
pub const COORD_MAX: i64 = 536870912;

/// Bound (2^47) on the magnitude of any root the intersection solver returns
/// short of `TMAX`; follows from `COORD_MAX` and the minimum ray scale.
pub const ROOT_MAX: i64 = 140737488355328;

/// Bound (2^61) on the coordinates of a hit point or surface normal computed
/// from a root within `ROOT_MAX`.
pub const POINT_MAX: i64 = 2305843009213693952;

/// Bound (2^62) on vector coordinates accepted by the dot product and the
/// norm: three such products still fit in `i128`, and their sum is below
/// the square-root routine's limit.
pub const GEOM_MAX: i64 = 4611686018427387904;

/// Truncating division (round toward zero), the rounding `/` performs on
/// machine integers; meaningful for `b > 0`.
pub open spec fn tdiv(a: int, b: int) -> int {
    if a >= 0 {
        a / b
    } else {
        -((-a) / b)
    }
}

/// `r` is the integer square root of `x`, rounded down.
pub open spec fn is_sqrt(x: int, r: int) -> bool {
    0 <= r && r * r <= x && x < (r + 1) * (r + 1)
}

/// The integer square root, rounded down, of a non-negative number.
pub open spec fn sqrt_floor(x: int) -> int {
    choose|r: int| is_sqrt(x, r)
}

/// At most one integer qualifies as the rounded-down square root.
pub proof fn lemma_sqrt_unique(x: int, r1: int, r2: int)
    requires
        is_sqrt(x, r1),
        is_sqrt(x, r2),
    ensures
        r1 == r2,
{
    if r1 < r2 {
        assert((r1 + 1) * (r1 + 1) <= r2 * r2) by (nonlinear_arith)
            requires
                0 <= r1,
                r1 + 1 <= r2,
        ;
    }
    if r2 < r1 {
        assert((r2 + 1) * (r2 + 1) <= r1 * r1) by (nonlinear_arith)
            requires
                0 <= r2,
                r2 + 1 <= r1,
        ;
    }
}

/// A witness for `is_sqrt` pins down `sqrt_floor` itself.
pub proof fn lemma_sqrt_is(x: int, r: int)
    requires
        is_sqrt(x, r),
    ensures
        sqrt_floor(x) == r,
{
    assert(exists|q: int| is_sqrt(x, q));
    lemma_sqrt_unique(x, sqrt_floor(x), r);
}

/// Every non-negative number has a rounded-down square root, so
/// `sqrt_floor` is itself a witness.
pub proof fn lemma_sqrt_exists(x: int)
    requires
        0 <= x,
    ensures
        is_sqrt(x, sqrt_floor(x)),
    decreases x,
{
    if x == 0 {
        assert(is_sqrt(0, 0));
        lemma_sqrt_is(0, 0);
    } else {
        lemma_sqrt_exists(x - 1);
        let r0 = sqrt_floor(x - 1);
        if x < (r0 + 1) * (r0 + 1) {
            assert(is_sqrt(x, r0));
            lemma_sqrt_is(x, r0);
        } else {
            assert(x == (r0 + 1) * (r0 + 1));
            assert((r0 + 1) * (r0 + 1) < (r0 + 2) * (r0 + 2)) by (nonlinear_arith)
                requires
                    0 <= r0,
            ;
            assert(is_sqrt(x, r0 + 1));
            lemma_sqrt_is(x, r0 + 1);
        }
    }
}

/// The square root of a number at least 1 is at least 1.
pub proof fn lemma_sqrt_pos(x: int, r: int)
    requires
        is_sqrt(x, r),
        x >= 1,
    ensures
        r >= 1,
{
    if r == 0 {
        assert(x < (r + 1) * (r + 1));
        assert((r + 1) * (r + 1) == 1) by (nonlinear_arith)
            requires
                r == 0,
        ;
    }
}

/// The square root of a number no larger than `c * c` is at most `c`.
pub proof fn lemma_sqrt_bound(x: int, r: int, c: int)
    requires
        is_sqrt(x, r),
        0 <= c,
        x <= c * c,
    ensures
        r <= c,
{
    if r > c {
        assert((c + 1) * (c + 1) <= r * r) by (nonlinear_arith)
            requires
                0 <= c,
                c + 1 <= r,
        ;
        assert(c * c < (c + 1) * (c + 1)) by (nonlinear_arith)
            requires
                0 <= c,
        ;
    }
}

/// Truncating division stays within `c / b` when the numerator stays
/// within `c`.
pub proof fn lemma_tdiv_bound(a: int, b: int, c: int)
    requires
        b > 0,
        -c <= a <= c,
    ensures
        -(c / b) <= tdiv(a, b) <= c / b,
{
    if a >= 0 {
        lemma_div_is_ordered(a, c, b);
        lemma_div_pos_is_pos(a, b);
        lemma_div_pos_is_pos(c, b);
    } else {
        lemma_div_is_ordered(-a, c, b);
        lemma_div_pos_is_pos(-a, b);
        lemma_div_pos_is_pos(c, b);
    }
}

/// Truncating division is monotone for non-negative numerators.
pub proof fn lemma_tdiv_mono(a1: int, a2: int, b: int)
    requires
        b > 0,
        0 <= a1 <= a2,
    ensures
        0 <= tdiv(a1, b) <= tdiv(a2, b),
{
    lemma_div_is_ordered(a1, a2, b);
    lemma_div_pos_is_pos(a1, b);
}

/// Dividing an exact multiple of the divisor recovers the factor.
pub proof fn lemma_tdiv_multiple(k: int, b: int)
    requires
        b > 0,
    ensures
        tdiv(k * b, b) == k,
{
    if k >= 0 {
        lemma_mul_nonnegative(k, b);
        lemma_div_multiples_vanish(k, b);
        assert(b * k == k * b) by (nonlinear_arith);
    } else {
        lemma_mul_nonnegative(-k, b);
        assert(-(k * b) == (-k) * b) by (nonlinear_arith);
        lemma_div_multiples_vanish(-k, b);
        assert(b * (-k) == (-k) * b) by (nonlinear_arith);
    }
}

/// A product is bounded by the product of the bounds.
pub proof fn lemma_mul_abs_bound(x: int, mx: int, y: int, my: int)
    requires
        -mx <= x <= mx,
        -my <= y <= my,
        0 <= mx,
        0 <= my,
    ensures
        -(mx * my) <= x * y <= mx * my,
{
    assert(-(mx * my) <= x * y <= mx * my) by (nonlinear_arith)
        requires
            -mx <= x <= mx,
            -my <= y <= my,
            0 <= mx,
            0 <= my,
    ;
}

/// Truncating division of two `i128` values, matching `tdiv`.
pub fn div_trunc(a: i128, b: i128) -> (q: i128)
    requires
        b > 0,
    ensures
        q == tdiv(a as int, b as int),
{
    a / b
}

/// The integer square root, rounded down, computed by bisection.
pub fn isqrt(x: u128) -> (r: u128)
    requires
        x < 0x40000000000000000000000000000000u128,
    ensures
        is_sqrt(x as int, r as int),
        r as int == sqrt_floor(x as int),
        r <= 0x8000000000000000u128,
{
    let mut lo: u128 = 0;
    let mut hi: u128 = 0x8000000000000000u128;
    while lo < hi
        invariant
            lo <= hi <= 0x8000000000000000u128,
            lo * lo <= x,
            x < (hi + 1) * (hi + 1),
        decreases hi - lo,
    {
        let mid: u128 = lo + (hi - lo + 1) / 2;
        proof {
            lemma_mul_upper_bound(mid as int, 0x8000000000000000int, mid as int, 0x8000000000000000int);
        }
        let sq: u128 = mid * mid;
        if sq <= x {
            lo = mid;
        } else {
            hi = mid - 1;
        }
    }
    proof {
        lemma_sqrt_is(x as int, lo as int);
    }
    lo
}

} // verus!
