//! Reflective surfaces, optionally blurred.
use vstd::prelude::*;
use crate::arith::{fx_mul, ONE};
use crate::hit::HitRecord;
use crate::material::{is_fraction, scatter_ok, ScatterResult};
use crate::ray::Ray;
use crate::vector3::{Color, Vector3};
use rand::rngs::ThreadRng;

verus! {

#[derive(Clone, Copy, Debug)]
pub struct Metal {
    pub albedo: Color,
    pub fuzz: i64,
}

impl Metal {
    pub open spec fn wf(self) -> bool {
        is_fraction(self.albedo) && 0 <= self.fuzz <= ONE
    }

    /// The mirror direction of the incoming ray, pushed by `fuzz` times the
    /// sample `p` from the unit ball.
    pub open spec fn spec_direction(self, input: Ray, record: HitRecord, p: Vector3) -> Vector3 {
        let reflected = input.direction.spec_unit().spec_reflect(record.normal);
        Vector3 {
            x: (reflected.x + fx_mul(p.x as int, self.fuzz as int)) as i64,
            y: (reflected.y + fx_mul(p.y as int, self.fuzz as int)) as i64,
            z: (reflected.z + fx_mul(p.z as int, self.fuzz as int)) as i64,
        }
    }

    /// The scatter for the sample `p`: absorbed where the pushed direction
    /// does not leave the surface.
    pub open spec fn spec_scatter(self, input: Ray, record: HitRecord, p: Vector3) -> Option<
        ScatterResult,
    > {
        let d = self.spec_direction(input, record, p);
        if d.dot_raw(record.normal) > 0 {
            Some(
                ScatterResult {
                    attenuation: self.albedo,
                    scattered: Ray { origin: record.point, direction: d, time: input.time },
                },
            )
        } else {
            None
        }
    }

    /// A metal whose fuzz is clamped to `[0, ONE]`.
    pub fn new(albedo: Color, fuzz: i64) -> (r: Self)
        ensures
            r.albedo == albedo,
            r.fuzz == if fuzz < 0 { 0 } else if fuzz > ONE { ONE } else { fuzz },
    {
        let fuzz = if fuzz < 0 {
            0
        } else if fuzz > ONE {
            ONE
        } else {
            fuzz
        };
        Metal { albedo, fuzz }
    }

    /// The scatter for the sample `p` from the unit ball.
    pub fn scatter_with(&self, input: &Ray, record: &HitRecord, p: &Vector3) -> (r: Option<
        ScatterResult,
    >)
        requires
            self.wf(),
            record.wf(),
            input.bounded(),
            !input.direction.is_zero(),
            p.within(ONE as int),
        ensures
            r == self.spec_scatter(*input, *record, *p),
            r matches Some(s) ==> scatter_ok(s, *input, *record),
    {
        let unit = input.direction.unit_vector();
        let reflected = unit.reflect(&record.normal);
        proof {
            lemma_fuzz_bound(p.x as int, self.fuzz as int);
            lemma_fuzz_bound(p.y as int, self.fuzz as int);
            lemma_fuzz_bound(p.z as int, self.fuzz as int);
        }
        let offset = p.mul_scalar(self.fuzz);
        let direction = reflected.plus(&offset);
        if direction.dot_exact(&record.normal) > 0 {
            Some(ScatterResult::new(self.albedo, Ray::new(record.point, direction, input.time)))
        } else {
            None
        }
    }

    /// Reflects with a random blur; absorbs where the blurred ray would go
    /// into the surface.
    pub fn scatter(&self, rng: &mut ThreadRng, input: &Ray, record: &HitRecord) -> (r: Option<
        ScatterResult,
    >)
        requires
            self.wf(),
            record.wf(),
            input.bounded(),
            !input.direction.is_zero(),
        ensures
            exists|p: Vector3|
                p.within(ONE as int) && p.dot_raw(p) < ONE * ONE && r == self.spec_scatter(
                    *input,
                    *record,
                    p,
                ),
            r matches Some(s) ==> scatter_ok(s, *input, *record),
    {
        let p = Vector3::random_in_unit_sphere(rng);
        self.scatter_with(input, record, &p)
    }
}

proof fn lemma_fuzz_bound(p: int, f: int)
    requires
        -65536 <= p <= 65536,
        0 <= f <= 65536,
    ensures
        -65536 <= fx_mul(p, f) <= 65536,
{
    assert(-65536 <= (p * f) / 65536 <= 65536) by (nonlinear_arith)
        requires -65536 <= p <= 65536, 0 <= f <= 65536;
}

} // verus!
