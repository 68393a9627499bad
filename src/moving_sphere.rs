//! Spheres that move linearly between two times.
use vstd::prelude::*;
use crate::bvh::aabb::AABB;
use crate::hit::HitRecord;
use crate::ray::Ray;
use crate::sphere::{hit_sphere, sphere_bounding_box, spec_hit_sphere, sphere_wf, Sphere};
use crate::vector3::{Point3, Vector3};

verus! {

#[derive(Clone, Copy, Debug)]
pub struct MovingSphere {
    pub center0: Point3,
    pub center1: Point3,
    pub radius: i64,
    pub time0: i64,
    pub time1: i64,
    pub material: usize,
}

/// `a + (b - a) * (time - t0) / (t1 - t0)`, rounded down.
pub open spec fn lerp(a: int, b: int, time: int, t0: int, t1: int) -> int {
    a + ((b - a) * (time - t0)) / (t1 - t0)
}

impl MovingSphere {
    /// Both end positions are well-formed spheres, over a time span of positive length.
    pub open spec fn wf(self) -> bool {
        &&& sphere_wf(self.center0, self.radius as int)
        &&& sphere_wf(self.center1, self.radius as int)
        &&& self.time0 < self.time1
    }

    pub open spec fn spec_center(self, time: int) -> Point3 {
        let (a, b, t0, t1) = (self.center0.0, self.center1.0, self.time0 as int, self.time1 as int);
        Point3(
            Vector3 {
                x: lerp(a.x as int, b.x as int, time, t0, t1) as i64,
                y: lerp(a.y as int, b.y as int, time, t0, t1) as i64,
                z: lerp(a.z as int, b.z as int, time, t0, t1) as i64,
            },
        )
    }

    pub fn new(
        center0: Point3,
        center1: Point3,
        radius: i64,
        time0: i64,
        time1: i64,
        material: usize,
    ) -> (r: Self)
        ensures
            r.center0 == center0 && r.center1 == center1 && r.radius == radius,
            r.time0 == time0 && r.time1 == time1 && r.material == material,
    {
        MovingSphere { center0, center1, radius, time0, time1, material }
    }

    /// The center at `time`, between the two end positions.
    pub fn center(&self, time: i64) -> (r: Point3)
        requires
            self.wf(),
            self.time0 <= time <= self.time1,
        ensures
            r == self.spec_center(time as int),
            sphere_wf(r, self.radius as int),
    {
        let x = lerp_exec(self.center0.0.x, self.center1.0.x, time, self.time0, self.time1);
        let y = lerp_exec(self.center0.0.y, self.center1.0.y, time, self.time0, self.time1);
        let z = lerp_exec(self.center0.0.z, self.center1.0.z, time, self.time0, self.time1);
        Point3::new(x, y, z)
    }

    /// The hit of the sphere where it stands at the ray's time.
    pub fn hit(&self, ray: &Ray, t_min: i64, t_max: i64) -> (r: Option<HitRecord>)
        requires
            self.wf(),
            ray.bounded(),
            self.time0 <= ray.time <= self.time1,
        ensures
            r == spec_hit_sphere(
                self.spec_center(ray.time as int),
                self.radius as int,
                self.material,
                *ray,
                t_min as int,
                t_max as int,
            ),
    {
        let center = self.center(ray.time);
        hit_sphere(&center, self.radius, self.material, ray, t_min, t_max)
    }

    /// The box holding the sphere at both ends of its path.
    pub fn bounding_box(&self) -> (r: AABB)
        requires
            self.wf(),
        ensures
            r == (Sphere { center: self.center0, radius: self.radius, material: 0 }).spec_bounding_box().spec_surrounding(
                (Sphere { center: self.center1, radius: self.radius, material: 0 }).spec_bounding_box(),
            ),
    {
        let b0 = sphere_bounding_box(&self.center0, self.radius);
        let b1 = sphere_bounding_box(&self.center1, self.radius);
        b0.surrounding_box(&b1)
    }
}

fn lerp_exec(a: i64, b: i64, time: i64, t0: i64, t1: i64) -> (r: i64)
    requires
        t0 < t1,
        t0 <= time <= t1,
        -0x1000_0000 <= a <= 0x1000_0000,
        -0x1000_0000 <= b <= 0x1000_0000,
    ensures
        r == lerp(a as int, b as int, time as int, t0 as int, t1 as int),
        a <= b ==> a <= r <= b,
        b <= a ==> b <= r <= a,
{
    proof {
        assert(-0x1_0000_0000_0000_0000_0000_0000 < (b - a) * (time - t0) < 0x1_0000_0000_0000_0000_0000_0000)
            by (nonlinear_arith)
            requires
                -0x1000_0000 <= a <= 0x1000_0000,
                -0x1000_0000 <= b <= 0x1000_0000,
                t0 <= time <= t1,
                i64::MIN <= t0, t1 <= i64::MAX;
    }
    let num = ((b as i128) - (a as i128)) * ((time as i128) - (t0 as i128));
    let den = (t1 as i128) - (t0 as i128);
    let q = crate::arith::floor_div(num, den);
    proof {
        let d = b - a;
        let k = time - t0;
        assert(d >= 0 ==> 0 <= q <= d) by (nonlinear_arith)
            requires q == (d * k) / (den as int), 0 <= k <= den, den > 0;
        assert(d <= 0 ==> d <= q <= 0) by (nonlinear_arith)
            requires q == (d * k) / (den as int), 0 <= k <= den, den > 0;
    }
    (a as i128 + q) as i64
}

} // verus!
