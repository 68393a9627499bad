//! Diffuse surfaces.
use vstd::prelude::*;
use crate::arith::ONE;
use crate::hit::HitRecord;
use crate::material::{is_fraction, scatter_ok, ScatterResult};
use crate::ray::Ray;
use crate::texture::SolidColor;
use crate::vector3::{Color, Vector3};
use rand::rngs::ThreadRng;

verus! {

#[derive(Clone, Copy, Debug)]
pub struct Lambertian {
    pub albedo: SolidColor,
}

/// The normal pushed by the unit sample `u`, or the normal itself where the
/// two cancel out.
pub open spec fn diffuse_direction(normal: Vector3, u: Vector3) -> Vector3 {
    let s = Vector3 {
        x: (normal.x + u.x) as i64,
        y: (normal.y + u.y) as i64,
        z: (normal.z + u.z) as i64,
    };
    if s.is_zero() {
        normal
    } else {
        s
    }
}

impl Lambertian {
    pub open spec fn wf(self) -> bool {
        is_fraction(self.albedo.color_value)
    }

    pub open spec fn spec_scatter(self, input: Ray, record: HitRecord, u: Vector3) -> ScatterResult {
        ScatterResult {
            attenuation: self.albedo.color_value,
            scattered: Ray {
                origin: record.point,
                direction: diffuse_direction(record.normal, u),
                time: input.time,
            },
        }
    }

    pub fn new(albedo: Color) -> (r: Self)
        ensures
            r.albedo.color_value == albedo,
    {
        Lambertian { albedo: SolidColor::new(albedo) }
    }

    pub fn new_texture(albedo: SolidColor) -> (r: Self)
        ensures
            r.albedo == albedo,
    {
        Lambertian { albedo }
    }

    /// The scatter for the random unit sample `u`.
    pub fn scatter_with(&self, input: &Ray, record: &HitRecord, u: &Vector3) -> (r: ScatterResult)
        requires
            self.wf(),
            record.wf(),
            u.within(ONE as int),
        ensures
            r == self.spec_scatter(*input, *record, *u),
            scatter_ok(r, *input, *record),
    {
        let s = record.normal.plus(u);
        let scatter_direction = if s.approx_zero() {
            record.normal
        } else {
            s
        };
        ScatterResult::new(
            self.albedo.value(&record.point),
            Ray::new(record.point, scatter_direction, input.time),
        )
    }

    /// Scatters towards the normal plus a random unit vector; never absorbs.
    pub fn scatter(&self, rng: &mut ThreadRng, input: &Ray, record: &HitRecord) -> (r:
        ScatterResult)
        requires
            self.wf(),
            record.wf(),
        ensures
            exists|u: Vector3| u.within(ONE as int) && r == self.spec_scatter(*input, *record, u),
            scatter_ok(r, *input, *record),
    {
        let u = Vector3::random_unit_vector(rng);
        self.scatter_with(input, record, &u)
    }
}

} // verus!
