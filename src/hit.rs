//! The record of a ray meeting a surface.
use vstd::prelude::*;
use crate::arith::ONE;
use crate::ray::Ray;
use crate::vector3::{Point3, Vector3};

verus! {

#[derive(Clone, Copy, Debug)]
pub struct HitRecord {
    pub point: Point3,
    pub normal: Vector3,
    /// Index of the surface's material in the scene's material table.
    pub material: usize,
    pub t: i64,
    pub front_face: bool,
}

/// The record of a hit, with the normal turned against the incoming ray.
pub open spec fn spec_record(
    point: Point3,
    t: i64,
    outward_normal: Vector3,
    ray: Ray,
    material: usize,
) -> HitRecord {
    let front_face = ray.direction.dot_raw(outward_normal) < 0;
    HitRecord {
        point,
        normal: if front_face {
            outward_normal
        } else {
            Vector3 {
                x: (-outward_normal.x) as i64,
                y: (-outward_normal.y) as i64,
                z: (-outward_normal.z) as i64,
            }
        },
        material,
        t,
        front_face,
    }
}

impl HitRecord {
    /// A normal of at most unit length on each axis, at a point within the coordinate bound.
    pub open spec fn wf(self) -> bool {
        self.normal.within(ONE as int) && self.point.0.bounded()
    }

    pub fn point(&self) -> (r: &Point3)
        ensures
            *r == self.point,
    {
        &self.point
    }

    pub fn normal(&self) -> (r: &Vector3)
        ensures
            *r == self.normal,
    {
        &self.normal
    }

    pub fn t(&self) -> (r: i64)
        ensures
            r == self.t,
    {
        self.t
    }

    pub fn front_face(&self) -> (r: bool)
        ensures
            r == self.front_face,
    {
        self.front_face
    }

    pub fn material(&self) -> (r: usize)
        ensures
            r == self.material,
    {
        self.material
    }

    /// A record whose `front_face` says whether the ray came from outside
    /// (against `outward_normal`), and whose normal opposes the ray.
    pub fn new(point: Point3, t: i64, outward_normal: Vector3, ray: &Ray, material: usize) -> (r:
        Self)
        requires
            ray.direction.bounded(),
            outward_normal.bounded(),
        ensures
            r == spec_record(point, t, outward_normal, *ray, material),
    {
        let front_face = ray.direction.dot_exact(&outward_normal) < 0;
        let normal = if front_face {
            outward_normal
        } else {
            outward_normal.negate()
        };
        HitRecord { point, normal, material, t, front_face }
    }
}

} // verus!
