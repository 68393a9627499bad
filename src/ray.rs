//! Rays: half-lines with a time stamp.
use vstd::prelude::*;
use crate::arith::{fx_mul, ONE};
use crate::vector3::{Point3, Vector3};

verus! {

#[derive(Clone, Copy, Debug)]
pub struct Ray {
    pub origin: Point3,
    pub direction: Vector3,
    pub time: i64,
}

impl Ray {
    /// Origin and direction within the coordinate bound, so that every
    /// intersection test is free of overflow.
    pub open spec fn bounded(self) -> bool {
        self.origin.0.bounded() && self.direction.bounded()
    }

    pub fn new(origin: Point3, direction: Vector3, time: i64) -> (r: Self)
        ensures
            r.origin == origin && r.direction == direction && r.time == time,
    {
        Ray { origin, direction, time }
    }

    pub fn origin(&self) -> (r: &Point3)
        ensures
            *r == self.origin,
    {
        &self.origin
    }

    pub fn direction(&self) -> (r: &Vector3)
        ensures
            *r == self.direction,
    {
        &self.direction
    }

    pub fn time(&self) -> (r: i64)
        ensures
            r == self.time,
    {
        self.time
    }

    /// The point `origin + t * direction`, each coordinate rounded down.
    pub fn at(&self, t: i64) -> (r: Point3)
        requires
            self.bounded(),
            -ONE * ONE <= t <= ONE * ONE,
        ensures
            r.0.x == self.origin.0.x + fx_mul(self.direction.x as int, t as int),
            r.0.y == self.origin.0.y + fx_mul(self.direction.y as int, t as int),
            r.0.z == self.origin.0.z + fx_mul(self.direction.z as int, t as int),
    {
        proof {
            lemma_at_bound(self.direction.x as int, t as int);
            lemma_at_bound(self.direction.y as int, t as int);
            lemma_at_bound(self.direction.z as int, t as int);
        }
        let v = self.direction.mul_scalar(t);
        Point3(self.origin.0.plus(&v))
    }
}

proof fn lemma_at_bound(d: int, t: int)
    requires
        -0x8000_0000 <= d <= 0x8000_0000,
        -0x1_0000_0000 <= t <= 0x1_0000_0000,
    ensures
        -0x1_0000_0000_0000 <= fx_mul(d, t) <= 0x1_0000_0000_0000,
{
    assert(-0x1_0000_0000_0000 <= (d * t) / 65536 <= 0x1_0000_0000_0000) by (nonlinear_arith)
        requires -0x8000_0000 <= d <= 0x8000_0000, -0x1_0000_0000 <= t <= 0x1_0000_0000;
}

} // verus!
