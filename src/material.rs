//! How surfaces scatter light.
use vstd::prelude::*;
use crate::arith::ONE;
use crate::hit::HitRecord;
use crate::ray::Ray;
use crate::vector3::{Color, Vector3};
use rand::rngs::ThreadRng;

pub mod dielectric;
pub mod lambertian;
pub mod metal;

use dielectric::Dielectric;
use lambertian::Lambertian;
use metal::Metal;

verus! {

/// Each channel within `[0, ONE]`: a fraction of light.
pub open spec fn is_fraction(c: Color) -> bool {
    0 <= c.0.x <= ONE && 0 <= c.0.y <= ONE && 0 <= c.0.z <= ONE
}

#[derive(Clone, Copy, Debug)]
pub struct ScatterResult {
    pub attenuation: Color,
    pub scattered: Ray,
}

impl ScatterResult {
    pub fn new(attenuation: Color, scattered: Ray) -> (r: Self)
        ensures
            r.attenuation == attenuation && r.scattered == scattered,
    {
        ScatterResult { attenuation, scattered }
    }
}

/// What may come of a scatter: a fraction of light along a ray within the
/// coordinate bound that leaves from the hit point at the incoming ray's time.
pub open spec fn scatter_ok(r: ScatterResult, input: Ray, record: HitRecord) -> bool {
    &&& is_fraction(r.attenuation)
    &&& r.scattered.bounded()
    &&& r.scattered.origin == record.point
    &&& r.scattered.time == input.time
}

#[derive(Clone, Copy, Debug)]
pub enum Material {
    Lambertian(Lambertian),
    Metal(Metal),
    Dielectric(Dielectric),
}

impl Material {
    pub open spec fn wf(self) -> bool {
        match self {
            Material::Lambertian(m) => m.wf(),
            Material::Metal(m) => m.wf(),
            Material::Dielectric(m) => m.wf(),
        }
    }

    /// Scatters `input` at `record`, or absorbs it (`None`).
    pub fn scatter(&self, rng: &mut ThreadRng, input: &Ray, record: &HitRecord) -> (r: Option<
        ScatterResult,
    >)
        requires
            self.wf(),
            record.wf(),
            input.bounded(),
            !input.direction.is_zero(),
        ensures
            r matches Some(s) ==> scatter_ok(s, *input, *record),
            match self {
                Material::Lambertian(m) => exists|u: Vector3|
                    u.within(ONE as int) && r == Some(m.spec_scatter(*input, *record, u)),
                Material::Metal(m) => exists|p: Vector3|
                    p.within(ONE as int) && p.dot_raw(p) < ONE * ONE && r == m.spec_scatter(
                        *input,
                        *record,
                        p,
                    ),
                Material::Dielectric(m) => exists|draw: int|
                    0 <= draw < ONE && r == Some(m.spec_scatter(*input, *record, draw)),
            },
    {
        match self {
            Material::Lambertian(m) => Some(m.scatter(rng, input, record)),
            Material::Metal(m) => m.scatter(rng, input, record),
            Material::Dielectric(m) => Some(m.scatter(rng, input, record)),
        }
    }
}

} // verus!
