//! Two-dimensional fixed-point vectors.

use vstd::prelude::*;
use crate::num::{COORD_LIMIT, clamped, div_trunc, div_trunc_i64, isqrt, sqrt_floor};

verus! {

/// A 2-D vector with fixed-point integer components.
#[derive(Clone, Copy, PartialEq, Eq, Structural, Debug)]
pub struct Vector {
    pub x: i64,
    pub y: i64,
}

/// Both components lie within the fixed-point coordinate range.
pub open spec fn in_range(v: Vector) -> bool {
    -COORD_LIMIT <= v.x <= COORD_LIMIT && -COORD_LIMIT <= v.y <= COORD_LIMIT
}

/// The squared Euclidean distance between two points.
pub open spec fn dist_sq(p: Vector, q: Vector) -> int {
    (p.x - q.x) * (p.x - q.x) + (p.y - q.y) * (p.y - q.y)
}

/// The squared magnitude of a vector.
pub open spec fn mag_sq(v: Vector) -> int {
    v.x * v.x + v.y * v.y
}

impl Vector {
    /// Make a vector.
    pub fn new(x: i64, y: i64) -> (r: Vector)
        ensures
            r == (Vector { x, y }),
    {
        Vector { x, y }
    }

    /// Componentwise sum.
    pub fn add(&self, v: Vector) -> (r: Vector)
        requires
            i64::MIN <= self.x + v.x <= i64::MAX,
            i64::MIN <= self.y + v.y <= i64::MAX,
        ensures
            r.x == self.x + v.x,
            r.y == self.y + v.y,
    {
        Vector { x: self.x + v.x, y: self.y + v.y }
    }

    /// Componentwise difference.
    pub fn sub(&self, v: Vector) -> (r: Vector)
        requires
            i64::MIN <= self.x - v.x <= i64::MAX,
            i64::MIN <= self.y - v.y <= i64::MAX,
        ensures
            r.x == self.x - v.x,
            r.y == self.y - v.y,
    {
        Vector { x: self.x - v.x, y: self.y - v.y }
    }

    /// Componentwise negation.
    pub fn neg(&self) -> (r: Vector)
        requires
            self.x > i64::MIN,
            self.y > i64::MIN,
        ensures
            r.x == -self.x,
            r.y == -self.y,
    {
        Vector { x: -self.x, y: -self.y }
    }

    /// Multiply both components by a scalar.
    pub fn scale(&self, k: i64) -> (r: Vector)
        requires
            i64::MIN <= self.x * k <= i64::MAX,
            i64::MIN <= self.y * k <= i64::MAX,
        ensures
            r.x == self.x * k,
            r.y == self.y * k,
    {
        Vector { x: self.x * k, y: self.y * k }
    }

    /// Divide both components by a positive scalar, truncating toward zero.
    pub fn div_scalar(&self, k: i64) -> (r: Vector)
        requires
            k > 0,
            self.x > i64::MIN,
            self.y > i64::MIN,
        ensures
            r.x == div_trunc(self.x as int, k as int),
            r.y == div_trunc(self.y as int, k as int),
    {
        Vector { x: div_trunc_i64(self.x, k), y: div_trunc_i64(self.y, k) }
    }

    /// The perpendicular vector, rotated a quarter turn anticlockwise.
    pub fn normal(&self) -> (r: Vector)
        requires
            self.y > i64::MIN,
        ensures
            r.x == -self.y,
            r.y == self.x,
    {
        Vector { x: -self.y, y: self.x }
    }

    /// The dot product, computed without overflow in a wide intermediate.
    pub fn dot(&self, v: Vector) -> (r: i128)
        requires
            in_range(*self),
            in_range(v),
        ensures
            r == self.x * v.x + self.y * v.y,
    {
        proof {
            crate::num::lemma_mul_range(self.x as int, v.x as int, COORD_LIMIT as int, COORD_LIMIT as int);
            crate::num::lemma_mul_range(self.y as int, v.y as int, COORD_LIMIT as int, COORD_LIMIT as int);
        }
        self.x as i128 * v.x as i128 + self.y as i128 * v.y as i128
    }

    /// The 2-D cross product (signed parallelogram area).
    pub fn cross(&self, v: Vector) -> (r: i128)
        requires
            in_range(*self),
            in_range(v),
        ensures
            r == self.x * v.y - self.y * v.x,
    {
        proof {
            crate::num::lemma_mul_range(self.x as int, v.y as int, COORD_LIMIT as int, COORD_LIMIT as int);
            crate::num::lemma_mul_range(self.y as int, v.x as int, COORD_LIMIT as int, COORD_LIMIT as int);
        }
        self.x as i128 * v.y as i128 - self.y as i128 * v.x as i128
    }

    /// The squared magnitude.
    pub fn magnitude_squared(&self) -> (r: i128)
        requires
            in_range(*self),
        ensures
            r == mag_sq(*self),
    {
        proof {
            crate::num::lemma_abs_square_bound(self.x as int, COORD_LIMIT as int);
            crate::num::lemma_abs_square_bound(self.y as int, COORD_LIMIT as int);
        }
        self.x as i128 * self.x as i128 + self.y as i128 * self.y as i128
    }

    /// The magnitude, rounded down to the nearest integer.
    pub fn magnitude(&self) -> (r: i64)
        requires
            in_range(*self),
        ensures
            r == sqrt_floor(mag_sq(*self)),
            0 <= r <= 3 * COORD_LIMIT,
    {
        let m = self.magnitude_squared();
        proof {
            crate::num::lemma_abs_square_bound(self.x as int, COORD_LIMIT as int);
            crate::num::lemma_abs_square_bound(self.y as int, COORD_LIMIT as int);
        }
        let s = isqrt(m as u128);
        proof {
            if s > 3 * (COORD_LIMIT as u64) {
                crate::num::lemma_square_monotone(3 * (COORD_LIMIT as int), s as int);
            }
        }
        s as i64
    }

    /// The squared distance to another point.
    pub fn distance_squared(&self, v: Vector) -> (r: i128)
        requires
            in_range(*self),
            in_range(v),
        ensures
            r == dist_sq(*self, v),
    {
        let dx = self.x as i128 - v.x as i128;
        let dy = self.y as i128 - v.y as i128;
        proof {
            assert(0 <= dx * dx <= 4_000_000_000_000_000_000_000_000 && 0 <= dy * dy
                <= 4_000_000_000_000_000_000_000_000) by (nonlinear_arith)
                requires
                    -2_000_000_000_000 <= dx <= 2_000_000_000_000,
                    -2_000_000_000_000 <= dy <= 2_000_000_000_000,
            ;
        }
        dx * dx + dy * dy
    }

    /// The distance to another point, rounded down to the nearest integer.
    pub fn distance(&self, v: Vector) -> (r: i64)
        requires
            in_range(*self),
            in_range(v),
        ensures
            r == sqrt_floor(dist_sq(*self, v)),
            0 <= r <= 3 * COORD_LIMIT,
    {
        let d = self.distance_squared(v);
        proof {
            crate::num::lemma_abs_square_bound(self.x - v.x, 2 * (COORD_LIMIT as int));
            crate::num::lemma_abs_square_bound(self.y - v.y, 2 * (COORD_LIMIT as int));
        }
        let s = isqrt(d as u128);
        proof {
            if s > 3 * (COORD_LIMIT as u64) {
                crate::num::lemma_square_monotone(3 * (COORD_LIMIT as int), s as int);
            }
        }
        s as i64
    }
}

} // verus!
