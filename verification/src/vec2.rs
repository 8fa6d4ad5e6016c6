//! 2D fixed-point vectors: arithmetic, magnitude, normalization, clamping,
//! and the toroidal relative-position and distance operations.

use vstd::prelude::*;
use crate::fp::{
    abs, fp_mul, is_sqrt, isqrt, lemma_mul_abs_bound, lemma_sqrt_monotone, lemma_sqrt_unique,
    lemma_tdiv_abs, mul_fp, sqrt_i, tdiv, COORD_LIMIT, SCALE,
};

verus! {

/// Magnitude bound demanded of the inputs of the toroidal operations, so
/// that shifted coordinates stay within `COORD_LIMIT`.
pub const VEC_LIMIT: i64 = 400_000_000;

/// Largest world extent the toroidal operations accept.
pub const WORLD_LIMIT: i64 = 200_000_000;

#[derive(Clone, Copy, Debug, PartialEq, Eq, Structural)]
pub struct Vec2 {
    pub x: i64,
    pub y: i64,
}

/// The squared magnitude of `(x, y)`.
pub open spec fn mag_sq_of(x: int, y: int) -> int {
    x * x + y * y
}

/// The squared distance of two points.
pub open spec fn dist_sq_of(a: Vec2, b: Vec2) -> int {
    mag_sq_of(a.x - b.x, a.y - b.y)
}

/// One axis of the toroidal re-projection: the coordinate `b` is shifted by
/// a whole world extent `w` when the straight difference to `a` spans more
/// than half the world.
pub open spec fn rel_axis(a: int, b: int, w: int) -> int {
    if 2 * abs(a - b) < w {
        b
    } else if 2 * b < w {
        b + w
    } else {
        b - w
    }
}

/// The toroidally re-projected counterpart of `b` as seen from `a`.
pub open spec fn rel_x_spec(a: Vec2, b: Vec2, w: int) -> int {
    rel_axis(a.x as int, b.x as int, w)
}

/// The toroidally re-projected counterpart of `b` as seen from `a`.
pub open spec fn rel_y_spec(a: Vec2, b: Vec2, h: int) -> int {
    rel_axis(a.y as int, b.y as int, h)
}

/// Squared toroidal distance.
pub open spec fn dist_mod_sq_spec(a: Vec2, b: Vec2, w: int, h: int) -> int {
    mag_sq_of(a.x - rel_x_spec(a, b, w), a.y - rel_y_spec(a, b, h))
}

/// Toroidal distance: distance to the re-projected counterpart.
pub open spec fn dist_mod_spec(a: Vec2, b: Vec2, w: int, h: int) -> int {
    sqrt_i(dist_mod_sq_spec(a, b, w, h))
}

/// Plain Euclidean distance.
pub open spec fn dist_spec(a: Vec2, b: Vec2) -> int {
    sqrt_i(dist_sq_of(a, b))
}

impl Vec2 {
    /// Both components bounded by `c` in magnitude.
    pub open spec fn in_bounds(self, c: int) -> bool {
        abs(self.x as int) <= c && abs(self.y as int) <= c
    }

    /// The magnitude of this vector.
    pub open spec fn mag_spec(self) -> int {
        sqrt_i(mag_sq_of(self.x as int, self.y as int))
    }

    pub fn new() -> (r: Vec2)
        ensures
            r.x == 0 && r.y == 0,
    {
        Vec2 { x: 0, y: 0 }
    }

    pub fn from_tuple(tuple: &(i64, i64)) -> (r: Vec2)
        ensures
            r.x == tuple.0 && r.y == tuple.1,
    {
        Vec2 { x: tuple.0, y: tuple.1 }
    }

    pub fn as_tuple(&self) -> (r: (i64, i64))
        ensures
            r.0 == self.x && r.1 == self.y,
    {
        (self.x, self.y)
    }

    pub fn new_from(x: i64, y: i64) -> (r: Vec2)
        ensures
            r.x == x && r.y == y,
    {
        Vec2 { x, y }
    }

    /// Component-wise sum.
    pub fn add(&mut self, v: &Vec2)
        requires
            abs(old(self).x + v.x) <= i64::MAX as int,
            abs(old(self).y + v.y) <= i64::MAX as int,
        ensures
            final(self).x == old(self).x + v.x,
            final(self).y == old(self).y + v.y,
    {
        self.x = self.x + v.x;
        self.y = self.y + v.y;
    }

    /// Component-wise difference.
    pub fn sub(&mut self, v: &Vec2)
        requires
            abs(old(self).x - v.x) <= i64::MAX as int,
            abs(old(self).y - v.y) <= i64::MAX as int,
        ensures
            final(self).x == old(self).x - v.x,
            final(self).y == old(self).y - v.y,
    {
        self.x = self.x - v.x;
        self.y = self.y - v.y;
    }

    /// Scale by the fixed-point factor `v`.
    pub fn mul(&mut self, v: i64)
        requires
            abs(fp_mul(old(self).x as int, v as int)) <= i64::MAX as int,
            abs(fp_mul(old(self).y as int, v as int)) <= i64::MAX as int,
        ensures
            final(self).x == fp_mul(old(self).x as int, v as int),
            final(self).y == fp_mul(old(self).y as int, v as int),
    {
        self.x = mul_fp(self.x, v);
        self.y = mul_fp(self.y, v);
    }

    /// Divide by the fixed-point factor `v`.
    pub fn div(&mut self, v: i64)
        requires
            v != 0,
            v != i64::MIN,
            old(self).in_bounds(COORD_LIMIT as int),
        ensures
            final(self).x == div_axis(old(self).x as int, v as int),
            final(self).y == div_axis(old(self).y as int, v as int),
    {
        let d: i64 = if v < 0 {
            -v
        } else {
            v
        };
        proof {
            lemma_mul_abs_bound(self.x as int, SCALE as int, COORD_LIMIT as int, SCALE as int);
            lemma_mul_abs_bound(self.y as int, SCALE as int, COORD_LIMIT as int, SCALE as int);
            lemma_tdiv_abs(self.x * SCALE, d as int);
            lemma_tdiv_abs(self.y * SCALE, d as int);
        }
        let qx = (self.x * SCALE) / d;
        let qy = (self.y * SCALE) / d;
        if v < 0 {
            self.x = -qx;
            self.y = -qy;
        } else {
            self.x = qx;
            self.y = qy;
        }
    }

    /// The magnitude, rounded down.
    pub fn mag(&self) -> (r: i64)
        requires
            self.in_bounds(COORD_LIMIT as int),
        ensures
            r == self.mag_spec(),
            is_sqrt(mag_sq_of(self.x as int, self.y as int), r as int),
            0 <= r < 4294967296,
    {
        proof {
            lemma_mul_abs_bound(self.x as int, self.x as int, COORD_LIMIT as int, COORD_LIMIT as int);
            lemma_mul_abs_bound(self.y as int, self.y as int, COORD_LIMIT as int, COORD_LIMIT as int);
            lemma_sq_nonneg(self.x as int);
            lemma_sq_nonneg(self.y as int);
        }
        let sq: i64 = self.x * self.x + self.y * self.y;
        let r = isqrt(sq as u64);
        proof {
            lemma_sqrt_unique(sq as int, r as int);
        }
        r as i64
    }

    /// Scale this vector so that its magnitude does not exceed `v`;
    /// a vector already within the limit is unchanged.
    pub fn limit(&mut self, v: i64)
        requires
            0 <= v <= COORD_LIMIT,
            old(self).in_bounds(COORD_LIMIT as int),
        ensures
            final(self).x == limit_axis(old(self).x as int, v as int, old(self).mag_spec()),
            final(self).y == limit_axis(old(self).y as int, v as int, old(self).mag_spec()),
            final(self).in_bounds(COORD_LIMIT as int),
            old(self).mag_spec() > v ==> final(self).in_bounds(v as int),
            old(self).mag_spec() <= v ==> *final(self) == *old(self),
    {
        let mag = self.mag();
        if mag > v {
            proof {
                lemma_component_le_mag(self.x as int, self.y as int, mag as int);
                lemma_mul_abs_bound(self.x as int, v as int, COORD_LIMIT as int, COORD_LIMIT as int);
                lemma_mul_abs_bound(self.y as int, v as int, COORD_LIMIT as int, COORD_LIMIT as int);
                lemma_scale_down(self.x as int, v as int, mag as int);
                lemma_scale_down(self.y as int, v as int, mag as int);
            }
            self.x = (self.x * v) / mag;
            self.y = (self.y * v) / mag;
        }
    }

    /// Scale this vector up to magnitude `v` when it is shorter.
    pub fn limit_min(&mut self, v: i64)
        requires
            0 <= v <= COORD_LIMIT,
            old(self).in_bounds(COORD_LIMIT as int),
            old(self).mag_spec() > 0,
        ensures
            final(self).x == limit_min_axis(old(self).x as int, v as int, old(self).mag_spec()),
            final(self).y == limit_min_axis(old(self).y as int, v as int, old(self).mag_spec()),
            final(self).in_bounds(COORD_LIMIT as int),
    {
        let mag = self.mag();
        if mag < v {
            proof {
                lemma_component_le_mag(self.x as int, self.y as int, mag as int);
                lemma_mul_abs_bound(self.x as int, v as int, COORD_LIMIT as int, COORD_LIMIT as int);
                lemma_mul_abs_bound(self.y as int, v as int, COORD_LIMIT as int, COORD_LIMIT as int);
                lemma_scale_up(self.x as int, v as int, mag as int);
                lemma_scale_up(self.y as int, v as int, mag as int);
            }
            self.x = (self.x * v) / mag;
            self.y = (self.y * v) / mag;
        }
    }

    /// Normalize to magnitude `v`; the zero vector stays zero.
    pub fn norm(&mut self, v: i64)
        requires
            0 <= v <= COORD_LIMIT,
            old(self).in_bounds(COORD_LIMIT as int),
        ensures
            final(self).x == norm_axis(old(self).x as int, v as int, old(self).mag_spec()),
            final(self).y == norm_axis(old(self).y as int, v as int, old(self).mag_spec()),
            final(self).in_bounds(v as int),
            old(self).mag_spec() == 0 ==> *final(self) == *old(self),
    {
        let mag = self.mag();
        if mag > 0 {
            proof {
                lemma_component_le_mag(self.x as int, self.y as int, mag as int);
                lemma_mul_abs_bound(self.x as int, v as int, COORD_LIMIT as int, COORD_LIMIT as int);
                lemma_mul_abs_bound(self.y as int, v as int, COORD_LIMIT as int, COORD_LIMIT as int);
                lemma_scale_up(self.x as int, v as int, mag as int);
                lemma_scale_up(self.y as int, v as int, mag as int);
            }
            self.x = (self.x * v) / mag;
            self.y = (self.y * v) / mag;
        } else {
            proof {
                lemma_zero_mag(self.x as int, self.y as int);
            }
        }
    }

    /// Euclidean distance to `v`.
    pub fn dist(&self, v: &Vec2) -> (r: i64)
        requires
            self.in_bounds(VEC_LIMIT as int + WORLD_LIMIT as int),
            v.in_bounds(VEC_LIMIT as int + WORLD_LIMIT as int),
        ensures
            r == dist_spec(*self, *v),
            is_sqrt(dist_sq_of(*self, *v), r as int),
            0 <= r < 4294967296,
    {
        proof {
            lemma_mul_abs_bound(self.x - v.x, self.x - v.x, 1_200_000_000, 1_200_000_000);
            lemma_mul_abs_bound(self.y - v.y, self.y - v.y, 1_200_000_000, 1_200_000_000);
            lemma_sq_nonneg(self.x - v.x);
            lemma_sq_nonneg(self.y - v.y);
        }
        let dx: i64 = self.x - v.x;
        let dy: i64 = self.y - v.y;
        let sq: i64 = dx * dx + dy * dy;
        let r = isqrt(sq as u64);
        proof {
            lemma_sqrt_unique(sq as int, r as int);
        }
        r as i64
    }

    /// Squared Euclidean distance (carries twice the fixed-point scale).
    pub fn squared_dist(&self, v: &Vec2) -> (r: i64)
        requires
            self.in_bounds(VEC_LIMIT as int + WORLD_LIMIT as int),
            v.in_bounds(VEC_LIMIT as int + WORLD_LIMIT as int),
        ensures
            r == dist_sq_of(*self, *v),
            r >= 0,
    {
        proof {
            lemma_mul_abs_bound(self.x - v.x, self.x - v.x, 1_200_000_000, 1_200_000_000);
            lemma_mul_abs_bound(self.y - v.y, self.y - v.y, 1_200_000_000, 1_200_000_000);
            lemma_sq_nonneg(self.x - v.x);
            lemma_sq_nonneg(self.y - v.y);
        }
        let dx: i64 = self.x - v.x;
        let dy: i64 = self.y - v.y;
        dx * dx + dy * dy
    }

    /// Manhattan distance.
    pub fn square_dist(&self, v: &Vec2) -> (r: i64)
        requires
            self.in_bounds(VEC_LIMIT as int + WORLD_LIMIT as int),
            v.in_bounds(VEC_LIMIT as int + WORLD_LIMIT as int),
        ensures
            r == abs(self.x - v.x) + abs(self.y - v.y),
    {
        let dx: i64 = if self.x >= v.x {
            self.x - v.x
        } else {
            v.x - self.x
        };
        let dy: i64 = if self.y >= v.y {
            self.y - v.y
        } else {
            v.y - self.y
        };
        dx + dy
    }

    /// Toroidal (wrap-around) distance to `v` in a `w` by `h` world.
    pub fn dist_mod(&self, v: &Vec2, w: i64, h: i64) -> (r: i64)
        requires
            1 <= w <= WORLD_LIMIT,
            1 <= h <= WORLD_LIMIT,
            self.in_bounds(VEC_LIMIT as int),
            v.in_bounds(VEC_LIMIT as int),
        ensures
            r == dist_mod_spec(*self, *v, w as int, h as int),
            is_sqrt(dist_mod_sq_spec(*self, *v, w as int, h as int), r as int),
            0 <= r < 4294967296,
    {
        let relv = self.rel(v, w, h);
        self.dist(&relv)
    }

    /// The toroidally re-projected counterpart of `v` as seen from `self`:
    /// on each axis, if the straight difference exceeds half the world
    /// extent, `v` is translated by a whole extent toward `self`.
    pub fn rel(&self, v: &Vec2, w: i64, h: i64) -> (r: Vec2)
        requires
            1 <= w <= WORLD_LIMIT,
            1 <= h <= WORLD_LIMIT,
            self.in_bounds(VEC_LIMIT as int),
            v.in_bounds(VEC_LIMIT as int),
        ensures
            r.x == rel_x_spec(*self, *v, w as int),
            r.y == rel_y_spec(*self, *v, h as int),
            r.in_bounds(VEC_LIMIT as int + WORLD_LIMIT as int),
    {
        let adx: i64 = if self.x >= v.x {
            self.x - v.x
        } else {
            v.x - self.x
        };
        let x: i64 = if 2 * adx < w {
            v.x
        } else if 2 * v.x < w {
            v.x + w
        } else {
            v.x - w
        };
        let ady: i64 = if self.y >= v.y {
            self.y - v.y
        } else {
            v.y - self.y
        };
        let y: i64 = if 2 * ady < h {
            v.y
        } else if 2 * v.y < h {
            v.y + h
        } else {
            v.y - h
        };
        Vec2 { x, y }
    }
}

/// One axis of `div`: the component scaled by the inverse of `v`,
/// truncating toward zero whatever the signs.
pub open spec fn div_axis(x: int, v: int) -> int {
    if v > 0 {
        tdiv(x * SCALE, v)
    } else {
        -tdiv(x * SCALE, -v)
    }
}

/// One axis of `limit`.
pub open spec fn limit_axis(x: int, v: int, mag: int) -> int {
    if mag > v {
        tdiv(x * v, mag)
    } else {
        x
    }
}

/// One axis of `limit_min`.
pub open spec fn limit_min_axis(x: int, v: int, mag: int) -> int {
    if mag < v {
        tdiv(x * v, mag)
    } else {
        x
    }
}

/// One axis of `norm`.
pub open spec fn norm_axis(x: int, v: int, mag: int) -> int {
    if mag > 0 {
        tdiv(x * v, mag)
    } else {
        x
    }
}

/// A square is non-negative.
pub proof fn lemma_sq_nonneg(x: int)
    by (nonlinear_arith)
    ensures
        x * x >= 0,
{
}

/// The square of the absolute value is the square.
pub proof fn lemma_abs_sq(x: int)
    by (nonlinear_arith)
    ensures
        abs(x) * abs(x) == x * x,
{
}

/// Each component of a vector is bounded by the vector's magnitude.
pub proof fn lemma_component_le_mag(x: int, y: int, r: int)
    by (nonlinear_arith)
    requires
        is_sqrt(mag_sq_of(x, y), r),
    ensures
        abs(x) <= r,
        abs(y) <= r,
        x * x <= r * r,
        y * y <= r * r,
{
}

/// A vector of zero magnitude is the zero vector.
proof fn lemma_zero_mag(x: int, y: int)
    by (nonlinear_arith)
    requires
        is_sqrt(mag_sq_of(x, y), 0),
    ensures
        x == 0 && y == 0,
{
}

/// Scaling a component by `v / mag` with `mag > v` keeps it within `v`,
/// and no larger than it was.
proof fn lemma_scale_down(x: int, v: int, mag: int)
    by (nonlinear_arith)
    requires
        abs(x) <= mag,
        0 <= v <= mag,
        0 < mag,
    ensures
        abs(tdiv(x * v, mag)) <= v,
        abs(tdiv(x * v, mag)) <= abs(x),
{
}

/// Scaling a component by `v / mag` with `mag >= abs(x)` keeps it within `v`.
proof fn lemma_scale_up(x: int, v: int, mag: int)
    by (nonlinear_arith)
    requires
        abs(x) <= COORD_LIMIT as int,
        x * x <= mag * mag,
        0 <= v <= COORD_LIMIT as int,
        0 < mag,
    ensures
        abs(x * v) <= COORD_LIMIT as int * COORD_LIMIT as int,
        abs(tdiv(x * v, mag)) <= v,
{
}

/// On each axis the re-projected difference is no larger than the straight
/// one, for points inside the world.
proof fn lemma_rel_axis_closer(a: int, b: int, w: int)
    requires
        1 <= w,
        0 <= a < w,
        0 <= b < w,
    ensures
        abs(a - rel_axis(a, b, w)) <= abs(a - b),
{
}

/// The re-projected axis difference is symmetric in its two points.
proof fn lemma_rel_axis_symmetric(a: int, b: int, w: int)
    requires
        1 <= w,
        0 <= a < w,
        0 <= b < w,
    ensures
        abs(a - rel_axis(a, b, w)) == abs(b - rel_axis(b, a, w)),
{
}

/// The toroidal distance never exceeds the straight-line distance,
/// for points inside the world.
pub proof fn lemma_dist_mod_le_dist(a: Vec2, b: Vec2, w: int, h: int)
    requires
        1 <= w <= WORLD_LIMIT as int,
        1 <= h <= WORLD_LIMIT as int,
        0 <= a.x < w,
        0 <= a.y < h,
        0 <= b.x < w,
        0 <= b.y < h,
    ensures
        dist_mod_spec(a, b, w, h) <= dist_spec(a, b),
{
    lemma_rel_axis_closer(a.x as int, b.x as int, w);
    lemma_rel_axis_closer(a.y as int, b.y as int, h);
    let rx = rel_x_spec(a, b, w);
    let ry = rel_y_spec(a, b, h);
    assert((a.x - rx) * (a.x - rx) <= (a.x - b.x) * (a.x - b.x)) by (nonlinear_arith)
        requires
            abs(a.x - rx) <= abs(a.x - b.x),
        ;
    assert((a.y - ry) * (a.y - ry) <= (a.y - b.y) * (a.y - b.y)) by (nonlinear_arith)
        requires
            abs(a.y - ry) <= abs(a.y - b.y),
        ;
    lemma_sq_nonneg(a.x - rx);
    lemma_sq_nonneg(a.y - ry);
    lemma_sqrt_monotone(
        dist_mod_sq_spec(a, b, w, h) as nat,
        dist_sq_of(a, b) as nat,
    );
}

/// The toroidal distance is symmetric, for points inside the world.
pub proof fn lemma_dist_mod_symmetric(a: Vec2, b: Vec2, w: int, h: int)
    requires
        1 <= w <= WORLD_LIMIT as int,
        1 <= h <= WORLD_LIMIT as int,
        0 <= a.x < w,
        0 <= a.y < h,
        0 <= b.x < w,
        0 <= b.y < h,
    ensures
        dist_mod_spec(a, b, w, h) == dist_mod_spec(b, a, w, h),
{
    lemma_rel_axis_symmetric(a.x as int, b.x as int, w);
    lemma_rel_axis_symmetric(a.y as int, b.y as int, h);
    lemma_abs_sq(a.x - rel_x_spec(a, b, w));
    lemma_abs_sq(a.y - rel_y_spec(a, b, h));
    lemma_abs_sq(b.x - rel_x_spec(b, a, w));
    lemma_abs_sq(b.y - rel_y_spec(b, a, h));
    assert(dist_mod_sq_spec(a, b, w, h) == dist_mod_sq_spec(b, a, w, h));
}

} // verus!
