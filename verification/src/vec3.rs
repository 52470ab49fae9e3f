//! The geometry kernel: three-component vectors over fixed-point
//! coordinates, with their mathematical model (`V3`, unbounded integers)
//! and the vector operations the renderer is specified in.

use vstd::prelude::*;
use crate::math::{
    COORD_MAX, GEOM_MAX, POINT_MAX, ROOT_MAX, SCALE, div_trunc, is_sqrt, isqrt,
    lemma_sqrt_bound, lemma_tdiv_bound, sqrt_floor, tdiv,
};

verus! {

/// Mathematical model of a vector: unbounded integer coordinates
/// (fixed-point, so a coordinate `x` stands for the real `x / SCALE`).
pub ghost struct V3 {
    pub x: int,
    pub y: int,
    pub z: int,
}

impl V3 {
    /// Component-wise sum.
    pub open spec fn add(self, o: V3) -> V3 {
        V3 { x: self.x + o.x, y: self.y + o.y, z: self.z + o.z }
    }

    /// Component-wise difference.
    pub open spec fn sub(self, o: V3) -> V3 {
        V3 { x: self.x - o.x, y: self.y - o.y, z: self.z - o.z }
    }

    /// Scaling by a fixed-point factor `k`, rescaled back by `SCALE`.
    pub open spec fn scale(self, k: int) -> V3 {
        V3 {
            x: tdiv(k * self.x, SCALE as int),
            y: tdiv(k * self.y, SCALE as int),
            z: tdiv(k * self.z, SCALE as int),
        }
    }

    /// Dot product of the raw coordinates (no rescaling: the result of two
    /// fixed-point vectors carries a factor of `SCALE * SCALE`).
    pub open spec fn dot(self, o: V3) -> int {
        self.x * o.x + self.y * o.y + self.z * o.z
    }

    /// Euclidean length of the raw coordinates, rounded down; for a
    /// fixed-point vector this is again fixed-point.
    pub open spec fn norm(self) -> int {
        sqrt_floor(self.dot(self))
    }

    /// Every coordinate within `[-m, m]`.
    pub open spec fn bounded(self, m: int) -> bool {
        -m <= self.x <= m && -m <= self.y <= m && -m <= self.z <= m
    }
}

/// Bounds on the three coordinate products and on the dot product itself,
/// from bounds on the coordinates.
pub proof fn lemma_dot_bounds(a: V3, b: V3, m: int, n: int)
    requires
        0 <= m,
        0 <= n,
        a.bounded(m),
        b.bounded(n),
    ensures
        -(m * n) <= a.x * b.x <= m * n,
        -(m * n) <= a.y * b.y <= m * n,
        -(m * n) <= a.z * b.z <= m * n,
        -3 * (m * n) <= a.dot(b) <= 3 * (m * n),
{
    assert(-(m * n) <= a.x * b.x <= m * n) by (nonlinear_arith)
        requires
            -m <= a.x <= m,
            -n <= b.x <= n,
            0 <= m,
            0 <= n,
    ;
    assert(-(m * n) <= a.y * b.y <= m * n) by (nonlinear_arith)
        requires
            -m <= a.y <= m,
            -n <= b.y <= n,
            0 <= m,
            0 <= n,
    ;
    assert(-(m * n) <= a.z * b.z <= m * n) by (nonlinear_arith)
        requires
            -m <= a.z <= m,
            -n <= b.z <= n,
            0 <= m,
            0 <= n,
    ;
}

/// A vector dotted with itself is a sum of squares, hence non-negative.
pub proof fn lemma_self_dot_nonneg(a: V3)
    ensures
        a.dot(a) >= 0,
{
    assert(a.x * a.x >= 0) by (nonlinear_arith);
    assert(a.y * a.y >= 0) by (nonlinear_arith);
    assert(a.z * a.z >= 0) by (nonlinear_arith);
}

/// A vector of three fixed-point coordinates, used for positions,
/// directions and normals.
#[derive(Clone, Copy, PartialEq, Eq, Structural, Debug)]
pub struct Vec3 {
    pub x: i64,
    pub y: i64,
    pub z: i64,
}

impl View for Vec3 {
    type V = V3;

    open spec fn view(&self) -> V3 {
        V3 { x: self.x as int, y: self.y as int, z: self.z as int }
    }
}

impl Vec3 {
    /// Component-wise sum.
    pub fn add(self, o: Vec3) -> (r: Vec3)
        requires
            i64::MIN <= self@.x + o@.x <= i64::MAX,
            i64::MIN <= self@.y + o@.y <= i64::MAX,
            i64::MIN <= self@.z + o@.z <= i64::MAX,
        ensures
            r@ == self@.add(o@),
    {
        Vec3 { x: self.x + o.x, y: self.y + o.y, z: self.z + o.z }
    }

    /// Component-wise difference.
    pub fn sub(self, o: Vec3) -> (r: Vec3)
        requires
            i64::MIN <= self@.x - o@.x <= i64::MAX,
            i64::MIN <= self@.y - o@.y <= i64::MAX,
            i64::MIN <= self@.z - o@.z <= i64::MAX,
        ensures
            r@ == self@.sub(o@),
    {
        Vec3 { x: self.x - o.x, y: self.y - o.y, z: self.z - o.z }
    }

    /// Scaling by a fixed-point factor within `ROOT_MAX`.
    pub fn scale(self, k: i64) -> (r: Vec3)
        requires
            self@.bounded(COORD_MAX as int),
            -ROOT_MAX <= k <= ROOT_MAX,
        ensures
            r@ == self@.scale(k as int),
            r@.bounded(POINT_MAX as int / 2),
    {
        proof {
            lemma_scale_coord(k as int, self@.x);
            lemma_scale_coord(k as int, self@.y);
            lemma_scale_coord(k as int, self@.z);
        }
        let kk = k as i128;
        Vec3 {
            x: div_trunc(kk * (self.x as i128), SCALE as i128) as i64,
            y: div_trunc(kk * (self.y as i128), SCALE as i128) as i64,
            z: div_trunc(kk * (self.z as i128), SCALE as i128) as i64,
        }
    }

    /// Dot product of the raw coordinates, exact in `i128`.
    pub fn dot(self, o: Vec3) -> (r: i128)
        requires
            self@.bounded(GEOM_MAX as int),
            o@.bounded(GEOM_MAX as int),
        ensures
            r == self@.dot(o@),
    {
        proof {
            lemma_dot_bounds(self@, o@, GEOM_MAX as int, GEOM_MAX as int);
        }
        (self.x as i128) * (o.x as i128) + (self.y as i128) * (o.y as i128) + (self.z as i128)
            * (o.z as i128)
    }

    /// Euclidean length of the raw coordinates, rounded down.
    pub fn norm(self) -> (r: i64)
        requires
            self@.bounded(GEOM_MAX as int),
        ensures
            r == self@.norm(),
            is_sqrt(self@.dot(self@), r as int),
            0 <= r <= 8000000000000000000,
    {
        proof {
            lemma_dot_bounds(self@, self@, GEOM_MAX as int, GEOM_MAX as int);
            lemma_self_dot_nonneg(self@);
        }
        let d: i128 = self.dot(self);
        let r: u128 = isqrt(d as u128);
        proof {
            lemma_sqrt_bound(d as int, r as int, 8000000000000000000int);
        }
        r as i64
    }
}

/// A scaled coordinate stays within `2^60` when the factor is within
/// `ROOT_MAX` and the coordinate within `COORD_MAX`.
proof fn lemma_scale_coord(k: int, x: int)
    requires
        -ROOT_MAX <= k <= ROOT_MAX,
        -COORD_MAX <= x <= COORD_MAX,
    ensures
        -(ROOT_MAX * COORD_MAX) <= k * x <= ROOT_MAX * COORD_MAX,
        -(POINT_MAX as int / 2) <= tdiv(k * x, SCALE as int) <= POINT_MAX as int / 2,
{
    assert(-(ROOT_MAX * COORD_MAX) <= k * x <= ROOT_MAX * COORD_MAX) by (nonlinear_arith)
        requires
            -ROOT_MAX <= k <= ROOT_MAX,
            -COORD_MAX <= x <= COORD_MAX,
    ;
    lemma_tdiv_bound(k * x, SCALE as int, ROOT_MAX * COORD_MAX);
}

} // verus!
