//! Vectors and matrices of two and three dimensions. Sums of products run from
//! the first to the last.
use vstd::prelude::*;

use crate::num::model::Real;

verus! {

/// A vector of two numbers.
#[derive(Clone, Copy, Debug)]
pub struct Vec2 {
    pub x: Real,
    pub y: Real,
}

/// A matrix of two rows.
#[derive(Clone, Copy, Debug)]
pub struct Mat2 {
    pub r0: Vec2,
    pub r1: Vec2,
}

/// A vector of three numbers.
#[derive(Clone, Copy, Debug)]
pub struct Vec3 {
    pub x: Real,
    pub y: Real,
    pub z: Real,
}

/// A matrix of three rows.
#[derive(Clone, Copy, Debug)]
pub struct Mat3 {
    pub r0: Vec3,
    pub r1: Vec3,
    pub r2: Vec3,
}

impl Vec2 {
    pub open spec fn spec_new(x: Real, y: Real) -> Vec2 {
        Vec2 { x, y }
    }

    pub open spec fn spec_dot(self, b: Vec2) -> Real {
        self.x * b.x + self.y * b.y
    }

    pub open spec fn spec_plus(self, b: Vec2) -> Vec2 {
        Vec2 { x: self.x + b.x, y: self.y + b.y }
    }

    pub open spec fn spec_scaled(self, c: Real) -> Vec2 {
        Vec2 { x: self.x * c, y: self.y * c }
    }

    #[verifier::when_used_as_spec(spec_new)]
    pub fn new(x: Real, y: Real) -> (r: Vec2)
        ensures
            r == Vec2::spec_new(x, y),
    {
        Vec2 { x, y }
    }

    /// The inner product.
    #[verifier::when_used_as_spec(spec_dot)]
    pub fn dot(self, b: Vec2) -> (r: Real)
        ensures
            r == self.spec_dot(b),
    {
        self.x * b.x + self.y * b.y
    }

    #[verifier::when_used_as_spec(spec_plus)]
    pub fn plus(self, b: Vec2) -> (r: Vec2)
        ensures
            r == self.spec_plus(b),
    {
        Vec2 { x: self.x + b.x, y: self.y + b.y }
    }

    #[verifier::when_used_as_spec(spec_scaled)]
    pub fn scaled(self, c: Real) -> (r: Vec2)
        ensures
            r == self.spec_scaled(c),
    {
        Vec2 { x: self.x * c, y: self.y * c }
    }
}

impl Mat2 {
    pub open spec fn spec_new(a: Real, b: Real, c: Real, d: Real) -> Mat2 {
        Mat2 { r0: Vec2 { x: a, y: b }, r1: Vec2 { x: c, y: d } }
    }

    pub open spec fn spec_identity() -> Mat2 {
        Mat2::spec_new(Real::whole(1), Real::whole(0), Real::whole(0), Real::whole(1))
    }

    pub open spec fn spec_apply(self, v: Vec2) -> Vec2 {
        Vec2 { x: self.r0.spec_dot(v), y: self.r1.spec_dot(v) }
    }

    pub open spec fn spec_transposed(self) -> Mat2 {
        Mat2::spec_new(self.r0.x, self.r1.x, self.r0.y, self.r1.y)
    }

    pub open spec fn spec_times(self, b: Mat2) -> Mat2 {
        let t = b.spec_transposed();
        Mat2::spec_new(
            self.r0.spec_dot(t.r0),
            self.r0.spec_dot(t.r1),
            self.r1.spec_dot(t.r0),
            self.r1.spec_dot(t.r1),
        )
    }

    pub open spec fn spec_plus(self, b: Mat2) -> Mat2 {
        Mat2 { r0: self.r0.spec_plus(b.r0), r1: self.r1.spec_plus(b.r1) }
    }

    /// The matrix with the given elements, row by row.
    #[verifier::when_used_as_spec(spec_new)]
    pub fn new(a: Real, b: Real, c: Real, d: Real) -> (r: Mat2)
        ensures
            r == Mat2::spec_new(a, b, c, d),
    {
        Mat2 { r0: Vec2 { x: a, y: b }, r1: Vec2 { x: c, y: d } }
    }

    #[verifier::when_used_as_spec(spec_identity)]
    pub fn identity() -> (r: Mat2)
        ensures
            r == Mat2::spec_identity(),
    {
        Mat2::new(Real::whole(1), Real::whole(0), Real::whole(0), Real::whole(1))
    }

    /// The product with a vector.
    #[verifier::when_used_as_spec(spec_apply)]
    pub fn apply(self, v: Vec2) -> (r: Vec2)
        ensures
            r == self.spec_apply(v),
    {
        Vec2 { x: self.r0.dot(v), y: self.r1.dot(v) }
    }

    #[verifier::when_used_as_spec(spec_transposed)]
    pub fn transposed(self) -> (r: Mat2)
        ensures
            r == self.spec_transposed(),
    {
        Mat2::new(self.r0.x, self.r1.x, self.r0.y, self.r1.y)
    }

    /// The product with a matrix.
    #[verifier::when_used_as_spec(spec_times)]
    pub fn times(self, b: Mat2) -> (r: Mat2)
        ensures
            r == self.spec_times(b),
    {
        let t = b.transposed();
        Mat2::new(self.r0.dot(t.r0), self.r0.dot(t.r1), self.r1.dot(t.r0), self.r1.dot(t.r1))
    }

    #[verifier::when_used_as_spec(spec_plus)]
    pub fn plus(self, b: Mat2) -> (r: Mat2)
        ensures
            r == self.spec_plus(b),
    {
        Mat2 { r0: self.r0.plus(b.r0), r1: self.r1.plus(b.r1) }
    }
}

impl Mat2 {
    pub open spec fn spec_minus(self, b: Mat2) -> Mat2 {
        Mat2::spec_new(
            self.r0.x - b.r0.x,
            self.r0.y - b.r0.y,
            self.r1.x - b.r1.x,
            self.r1.y - b.r1.y,
        )
    }

    pub open spec fn spec_outer(a: Vec2, b: Vec2) -> Mat2 {
        Mat2::spec_new(a.x * b.x, a.x * b.y, a.y * b.x, a.y * b.y)
    }

    #[verifier::when_used_as_spec(spec_minus)]
    pub fn minus(self, b: Mat2) -> (r: Mat2)
        ensures
            r == self.spec_minus(b),
    {
        Mat2::new(
            self.r0.x - b.r0.x,
            self.r0.y - b.r0.y,
            self.r1.x - b.r1.x,
            self.r1.y - b.r1.y,
        )
    }

    /// The product of a column and a row.
    #[verifier::when_used_as_spec(spec_outer)]
    pub fn outer(a: Vec2, b: Vec2) -> (r: Mat2)
        ensures
            r == Mat2::spec_outer(a, b),
    {
        Mat2::new(a.x * b.x, a.x * b.y, a.y * b.x, a.y * b.y)
    }
}

impl Vec3 {
    pub open spec fn spec_new(x: Real, y: Real, z: Real) -> Vec3 {
        Vec3 { x, y, z }
    }

    pub open spec fn spec_dot(self, b: Vec3) -> Real {
        self.x * b.x + self.y * b.y + self.z * b.z
    }

    pub open spec fn spec_plus(self, b: Vec3) -> Vec3 {
        Vec3 { x: self.x + b.x, y: self.y + b.y, z: self.z + b.z }
    }

    pub open spec fn spec_minus(self, b: Vec3) -> Vec3 {
        Vec3 { x: self.x - b.x, y: self.y - b.y, z: self.z - b.z }
    }

    pub open spec fn spec_scaled(self, c: Real) -> Vec3 {
        Vec3 { x: self.x * c, y: self.y * c, z: self.z * c }
    }

    pub open spec fn spec_over(self, c: Real) -> Vec3 {
        Vec3 { x: self.x / c, y: self.y / c, z: self.z / c }
    }

    #[verifier::when_used_as_spec(spec_new)]
    pub fn new(x: Real, y: Real, z: Real) -> (r: Vec3)
        ensures
            r == Vec3::spec_new(x, y, z),
    {
        Vec3 { x, y, z }
    }

    /// The inner product.
    #[verifier::when_used_as_spec(spec_dot)]
    pub fn dot(self, b: Vec3) -> (r: Real)
        ensures
            r == self.spec_dot(b),
    {
        self.x * b.x + self.y * b.y + self.z * b.z
    }

    #[verifier::when_used_as_spec(spec_plus)]
    pub fn plus(self, b: Vec3) -> (r: Vec3)
        ensures
            r == self.spec_plus(b),
    {
        Vec3 { x: self.x + b.x, y: self.y + b.y, z: self.z + b.z }
    }

    #[verifier::when_used_as_spec(spec_minus)]
    pub fn minus(self, b: Vec3) -> (r: Vec3)
        ensures
            r == self.spec_minus(b),
    {
        Vec3 { x: self.x - b.x, y: self.y - b.y, z: self.z - b.z }
    }

    #[verifier::when_used_as_spec(spec_scaled)]
    pub fn scaled(self, c: Real) -> (r: Vec3)
        ensures
            r == self.spec_scaled(c),
    {
        Vec3 { x: self.x * c, y: self.y * c, z: self.z * c }
    }

    #[verifier::when_used_as_spec(spec_over)]
    pub fn over(self, c: Real) -> (r: Vec3)
        ensures
            r == self.spec_over(c),
    {
        Vec3 { x: self.x / c, y: self.y / c, z: self.z / c }
    }
}

impl Mat3 {
    pub open spec fn spec_diagonal(a: Real, b: Real, c: Real) -> Mat3 {
        let o = Real::whole(0);
        Mat3 {
            r0: Vec3 { x: a, y: o, z: o },
            r1: Vec3 { x: o, y: b, z: o },
            r2: Vec3 { x: o, y: o, z: c },
        }
    }

    pub open spec fn spec_apply(self, v: Vec3) -> Vec3 {
        Vec3 { x: self.r0.spec_dot(v), y: self.r1.spec_dot(v), z: self.r2.spec_dot(v) }
    }

    pub open spec fn spec_transposed(self) -> Mat3 {
        Mat3 {
            r0: Vec3 { x: self.r0.x, y: self.r1.x, z: self.r2.x },
            r1: Vec3 { x: self.r0.y, y: self.r1.y, z: self.r2.y },
            r2: Vec3 { x: self.r0.z, y: self.r1.z, z: self.r2.z },
        }
    }

    pub open spec fn spec_times(self, b: Mat3) -> Mat3 {
        let t = b.spec_transposed();
        Mat3 {
            r0: t.spec_rows_dot(self.r0),
            r1: t.spec_rows_dot(self.r1),
            r2: t.spec_rows_dot(self.r2),
        }
    }

    pub open spec fn spec_rows_dot(self, v: Vec3) -> Vec3 {
        Vec3 { x: v.spec_dot(self.r0), y: v.spec_dot(self.r1), z: v.spec_dot(self.r2) }
    }

    pub open spec fn spec_plus(self, b: Mat3) -> Mat3 {
        Mat3 {
            r0: self.r0.spec_plus(b.r0),
            r1: self.r1.spec_plus(b.r1),
            r2: self.r2.spec_plus(b.r2),
        }
    }

    pub open spec fn spec_minus(self, b: Mat3) -> Mat3 {
        Mat3 {
            r0: self.r0.spec_minus(b.r0),
            r1: self.r1.spec_minus(b.r1),
            r2: self.r2.spec_minus(b.r2),
        }
    }

    pub open spec fn spec_outer(a: Vec3, b: Vec3) -> Mat3 {
        Mat3 {
            r0: Vec3 { x: a.x * b.x, y: a.x * b.y, z: a.x * b.z },
            r1: Vec3 { x: a.y * b.x, y: a.y * b.y, z: a.y * b.z },
            r2: Vec3 { x: a.z * b.x, y: a.z * b.y, z: a.z * b.z },
        }
    }

    #[verifier::when_used_as_spec(spec_diagonal)]
    pub fn diagonal(a: Real, b: Real, c: Real) -> (r: Mat3)
        ensures
            r == Mat3::spec_diagonal(a, b, c),
    {
        let o = Real::whole(0);
        Mat3 {
            r0: Vec3 { x: a, y: o, z: o },
            r1: Vec3 { x: o, y: b, z: o },
            r2: Vec3 { x: o, y: o, z: c },
        }
    }

    /// The product with a vector.
    #[verifier::when_used_as_spec(spec_apply)]
    pub fn apply(self, v: Vec3) -> (r: Vec3)
        ensures
            r == self.spec_apply(v),
    {
        Vec3 { x: self.r0.dot(v), y: self.r1.dot(v), z: self.r2.dot(v) }
    }

    #[verifier::when_used_as_spec(spec_transposed)]
    pub fn transposed(self) -> (r: Mat3)
        ensures
            r == self.spec_transposed(),
    {
        Mat3 {
            r0: Vec3 { x: self.r0.x, y: self.r1.x, z: self.r2.x },
            r1: Vec3 { x: self.r0.y, y: self.r1.y, z: self.r2.y },
            r2: Vec3 { x: self.r0.z, y: self.r1.z, z: self.r2.z },
        }
    }

    /// The inner products of a vector with the rows.
    #[verifier::when_used_as_spec(spec_rows_dot)]
    pub fn rows_dot(self, v: Vec3) -> (r: Vec3)
        ensures
            r == self.spec_rows_dot(v),
    {
        Vec3 { x: v.dot(self.r0), y: v.dot(self.r1), z: v.dot(self.r2) }
    }

    /// The product with a matrix.
    #[verifier::when_used_as_spec(spec_times)]
    pub fn times(self, b: Mat3) -> (r: Mat3)
        ensures
            r == self.spec_times(b),
    {
        let t = b.transposed();
        Mat3 { r0: t.rows_dot(self.r0), r1: t.rows_dot(self.r1), r2: t.rows_dot(self.r2) }
    }

    #[verifier::when_used_as_spec(spec_plus)]
    pub fn plus(self, b: Mat3) -> (r: Mat3)
        ensures
            r == self.spec_plus(b),
    {
        Mat3 { r0: self.r0.plus(b.r0), r1: self.r1.plus(b.r1), r2: self.r2.plus(b.r2) }
    }

    #[verifier::when_used_as_spec(spec_minus)]
    pub fn minus(self, b: Mat3) -> (r: Mat3)
        ensures
            r == self.spec_minus(b),
    {
        Mat3 { r0: self.r0.minus(b.r0), r1: self.r1.minus(b.r1), r2: self.r2.minus(b.r2) }
    }

    /// The product of a column and a row.
    #[verifier::when_used_as_spec(spec_outer)]
    pub fn outer(a: Vec3, b: Vec3) -> (r: Mat3)
        ensures
            r == Mat3::spec_outer(a, b),
    {
        Mat3 {
            r0: Vec3 { x: a.x * b.x, y: a.x * b.y, z: a.x * b.z },
            r1: Vec3 { x: a.y * b.x, y: a.y * b.y, z: a.y * b.z },
            r2: Vec3 { x: a.z * b.x, y: a.z * b.y, z: a.z * b.z },
        }
    }
}

} // verus!
