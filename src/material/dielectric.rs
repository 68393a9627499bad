//! Transparent, refracting surfaces.
use vstd::prelude::*;
use crate::arith::{floor_sqrt, fx_div, fx_mul, ONE};
use crate::hit::HitRecord;
use crate::material::{scatter_ok, ScatterResult};
use crate::ray::Ray;
use crate::random::gen_range;
use crate::vector3::{Color, Vector3};
use rand::rngs::ThreadRng;

verus! {

#[derive(Clone, Copy, Debug)]
pub struct Dielectric {
    pub index_of_refraction: i64,
}

/// Schlick's approximation of the reflectance: `r0 + (1 - r0)(1 - cos)^5`
/// with `r0 = ((1 - ratio) / (1 + ratio))^2`.
pub open spec fn reflectance(cos: int, ratio: int) -> int {
    let q = fx_div(ONE - ratio, ONE + ratio);
    let r0 = fx_mul(q, q);
    let x = ONE - cos;
    let x2 = fx_mul(x, x);
    let x4 = fx_mul(x2, x2);
    let x5 = fx_mul(x4, x);
    r0 + fx_mul(ONE - r0, x5)
}

impl Dielectric {
    /// An index of refraction for which the ratio of indices stays within `[1/16, 16]`.
    pub open spec fn wf(self) -> bool {
        ONE / 16 <= self.index_of_refraction <= 16 * ONE
    }

    /// `1 / index` when entering through the front face, else `index`.
    pub open spec fn refraction_ratio(self, front_face: bool) -> int {
        if front_face {
            (ONE * ONE) / (self.index_of_refraction as int)
        } else {
            self.index_of_refraction as int
        }
    }

    /// The outgoing direction for a uniform draw `draw` from `[0, ONE)`:
    /// reflected under total internal reflection or when the reflectance
    /// exceeds the draw, refracted otherwise.
    pub open spec fn spec_direction(self, input: Ray, record: HitRecord, draw: int) -> Vector3 {
        let ratio = self.refraction_ratio(record.front_face);
        let unit = input.direction.spec_unit();
        let d = (-unit.dot_raw(record.normal)) / (ONE as int);
        let cos_theta = if d < ONE { d } else { ONE as int };
        let rest = ONE - fx_mul(cos_theta, cos_theta);
        let sin_theta = floor_sqrt((if rest < 0 { 0 } else { rest }) * ONE);
        let cannot_refract = fx_mul(ratio, sin_theta) > ONE;
        if cannot_refract || reflectance(cos_theta, ratio) > draw {
            unit.spec_reflect(record.normal)
        } else {
            unit.spec_refract(record.normal, ratio)
        }
    }

    pub open spec fn spec_scatter(self, input: Ray, record: HitRecord, draw: int) -> ScatterResult {
        ScatterResult {
            attenuation: Color(Vector3 { x: ONE, y: ONE, z: ONE }),
            scattered: Ray {
                origin: record.point,
                direction: self.spec_direction(input, record, draw),
                time: input.time,
            },
        }
    }

    pub fn new(index_of_refraction: i64) -> (r: Self)
        ensures
            r.index_of_refraction == index_of_refraction,
    {
        Dielectric { index_of_refraction }
    }

    /// The scatter for the uniform draw `draw` from `[0, ONE)`.
    pub fn scatter_with(&self, input: &Ray, record: &HitRecord, draw: i64) -> (r: ScatterResult)
        requires
            self.wf(),
            record.wf(),
            input.bounded(),
            !input.direction.is_zero(),
        ensures
            r == self.spec_scatter(*input, *record, draw as int),
            r.attenuation == Color::white_spec(),
            scatter_ok(r, *input, *record),
    {
        let ior = self.index_of_refraction;
        let refraction_ratio = if record.front_face {
            ((ONE as i128) * (ONE as i128) / (ior as i128)) as i64
        } else {
            ior
        };
        proof {
            if record.front_face {
                let big: int = 4294967296int;
                assert(4096 <= big / (ior as int) <= 16 * 65536) by (nonlinear_arith)
                    requires 4096 <= ior <= 16 * 65536, big == 4294967296int;
            }
        }
        let unit_direction = input.direction.unit_vector();
        let neg = unit_direction.negate();
        let d = neg.dot(&record.normal);
        assert(neg.dot_raw(record.normal) == -unit_direction.dot_raw(record.normal)) by (nonlinear_arith)
            requires neg.x == -unit_direction.x, neg.y == -unit_direction.y, neg.z == -unit_direction.z;
        let cos_theta: i64 = if d < ONE { d } else { ONE };
        proof {
            lemma_cos_bound(unit_direction, record.normal, d as int);
        }
        let cc = mul_small(cos_theta, cos_theta);
        proof {
            assert(0 <= cc <= 9 * 65536) by (nonlinear_arith)
                requires cc == (cos_theta * cos_theta) / 65536, -3 * 65536 <= cos_theta <= 65536;
        }
        let rest = ONE - cc;
        let clamped: i64 = if rest < 0 { 0 } else { rest };
        let sin_theta = crate::arith::isqrt((clamped as u128) * (ONE as u128)) as i64;
        proof {
            assert(sin_theta <= 0x10_0000) by (nonlinear_arith)
                requires sin_theta * sin_theta <= clamped * 65536, 0 <= clamped <= 65536, sin_theta >= 0;
        }
        let cannot_refract = mul_small(refraction_ratio, sin_theta) > ONE;
        let direction = if cannot_refract || schlick(cos_theta, refraction_ratio) > draw {
            unit_direction.reflect(&record.normal)
        } else {
            unit_direction.refract(&record.normal, refraction_ratio)
        };
        ScatterResult::new(Color::white(), Ray::new(record.point, direction, input.time))
    }

    /// Reflects or refracts at random, as the reflectance decides; never
    /// absorbs, and passes all light.
    pub fn scatter(&self, rng: &mut ThreadRng, input: &Ray, record: &HitRecord) -> (r: ScatterResult)
        requires
            self.wf(),
            record.wf(),
            input.bounded(),
            !input.direction.is_zero(),
        ensures
            exists|draw: int| 0 <= draw < ONE && r == self.spec_scatter(*input, *record, draw),
            r.attenuation == Color::white_spec(),
            scatter_ok(r, *input, *record),
    {
        let draw = gen_range(rng, 0, ONE);
        self.scatter_with(input, record, draw)
    }
}

/// `reflectance(cos, ratio)`, computed.
fn schlick(cos: i64, ratio: i64) -> (r: i64)
    requires
        -3 * ONE <= cos <= ONE,
        ONE / 16 <= ratio <= 16 * ONE,
    ensures
        r == reflectance(cos as int, ratio as int),
{
    let num = ((ONE - ratio) as i128) * (ONE as i128);
    let den = (ONE + ratio) as i128;
    let qq = crate::arith::floor_div(num, den);
    proof {
        assert(-65536 <= qq <= 65536) by (nonlinear_arith)
            requires qq == num / den, num == (65536 - ratio) * 65536, den == 65536 + ratio, 4096 <= ratio;
    }
    let q = qq as i64;
    let r0 = mul_small(q, q);
    let x = ONE - cos;
    let x2 = mul_small(x, x);
    proof {
        assert(0 <= r0 <= 65536) by (nonlinear_arith)
            requires r0 == (q * q) / 65536, -65536 <= q <= 65536;
        assert(0 <= x2 <= 16 * 65536) by (nonlinear_arith)
            requires x2 == (x * x) / 65536, 0 <= x <= 4 * 65536;
    }
    let x4 = mul_small(x2, x2);
    proof {
        assert(0 <= x4 <= 256 * 65536) by (nonlinear_arith)
            requires x4 == (x2 * x2) / 65536, 0 <= x2 <= 16 * 65536;
    }
    let x5 = mul_small(x4, x);
    proof {
        assert(0 <= x5 <= 1024 * 65536) by (nonlinear_arith)
            requires x5 == (x4 * x) / 65536, 0 <= x4 <= 256 * 65536, 0 <= x <= 4 * 65536;
    }
    let tail = mul_small(ONE - r0, x5);
    proof {
        assert(0 <= tail <= 1024 * 65536) by (nonlinear_arith)
            requires tail == ((65536 - r0) * x5) / 65536, 0 <= r0 <= 65536, 0 <= x5 <= 1024 * 65536;
    }
    r0 + tail
}

/// `fx_mul(a, b)` for operands small enough for an `i128` product.
fn mul_small(a: i64, b: i64) -> (r: i64)
    requires
        -0x40_0000_0000 <= a <= 0x40_0000_0000,
        -0x40_0000_0000 <= b <= 0x40_0000_0000,
    ensures
        r == fx_mul(a as int, b as int),
{
    proof {
        assert(-0x1000_0000_0000_0000_0000 <= a * b <= 0x1000_0000_0000_0000_0000) by (nonlinear_arith)
            requires -0x40_0000_0000 <= a <= 0x40_0000_0000, -0x40_0000_0000 <= b <= 0x40_0000_0000;
        assert(-0x1000_0000_0000_0000 <= (a * b) / 65536 <= 0x1000_0000_0000_0000) by (nonlinear_arith)
            requires -0x1000_0000_0000_0000_0000 <= a * b <= 0x1000_0000_0000_0000_0000;
    }
    crate::arith::floor_div((a as i128) * (b as i128), ONE as i128) as i64
}

proof fn lemma_cos_bound(u: Vector3, n: Vector3, d: int)
    requires
        u.within(ONE as int),
        n.within(ONE as int),
        d == (-u.dot_raw(n)) / (ONE as int),
    ensures
        -3 * ONE <= d <= 3 * ONE,
{
    assert(-65536 * 65536 <= u.x * n.x <= 65536 * 65536) by (nonlinear_arith)
        requires -65536 <= u.x <= 65536, -65536 <= n.x <= 65536;
    assert(-65536 * 65536 <= u.y * n.y <= 65536 * 65536) by (nonlinear_arith)
        requires -65536 <= u.y <= 65536, -65536 <= n.y <= 65536;
    assert(-65536 * 65536 <= u.z * n.z <= 65536 * 65536) by (nonlinear_arith)
        requires -65536 <= u.z <= 65536, -65536 <= n.z <= 65536;
    let m = -u.dot_raw(n);
    assert(-3 * 65536 <= m / 65536 <= 3 * 65536) by (nonlinear_arith)
        requires -3 * 65536 * 65536 <= m <= 3 * 65536 * 65536;
}

} // verus!
