//! Three-component fixed-point vectors, points and colors.
use vstd::prelude::*;
use crate::random::gen_range;
use rand::rngs::ThreadRng;
use crate::arith::{floor_div, floor_sqrt, fx_div, fx_mul, is_floor_sqrt, isqrt, ONE};

verus! {

/// Components smaller than this in magnitude count as zero.
pub const EPS: i64 = 1;

/// Largest coordinate magnitude (in fixed-point units) for which every vector
/// operation below is free of overflow.
pub const MAX_COORD: i64 = 268435456;

#[derive(Clone, Copy, Debug, PartialEq, Eq, Structural)]
pub struct Vector3 {
    pub x: i64,
    pub y: i64,
    pub z: i64,
}

impl Vector3 {
    pub open spec fn within(self, b: int) -> bool {
        -b <= self.x <= b && -b <= self.y <= b && -b <= self.z <= b
    }

    pub open spec fn bounded(self) -> bool {
        self.within(MAX_COORD as int)
    }

    pub open spec fn coord(self, axis: int) -> int {
        if axis == 0 {
            self.x as int
        } else if axis == 1 {
            self.y as int
        } else {
            self.z as int
        }
    }

    /// The dot product at full precision (in squared fixed-point units).
    pub open spec fn dot_raw(self, o: Vector3) -> int {
        self.x * o.x + self.y * o.y + self.z * o.z
    }

    pub open spec fn is_zero(self) -> bool {
        self.x == 0 && self.y == 0 && self.z == 0
    }

    pub open spec fn spec_length(self) -> int {
        floor_sqrt(self.dot_raw(self))
    }

    pub fn new(x: i64, y: i64, z: i64) -> (r: Self)
        ensures
            r.x == x && r.y == y && r.z == z,
    {
        Vector3 { x, y, z }
    }

    pub fn zero() -> (r: Self)
        ensures
            r.is_zero(),
    {
        Self::new(0, 0, 0)
    }

    pub fn one() -> (r: Self)
        ensures
            r.x == ONE && r.y == ONE && r.z == ONE,
    {
        Self::new(ONE, ONE, ONE)
    }

    pub fn new_x(x: i64) -> (r: Self)
        ensures
            r.x == x && r.y == 0 && r.z == 0,
    {
        Self::new(x, 0, 0)
    }

    pub fn new_y(y: i64) -> (r: Self)
        ensures
            r.x == 0 && r.y == y && r.z == 0,
    {
        Self::new(0, y, 0)
    }

    pub fn new_z(z: i64) -> (r: Self)
        ensures
            r.x == 0 && r.y == 0 && r.z == z,
    {
        Self::new(0, 0, z)
    }

    pub fn x(&self) -> (r: i64)
        ensures
            r == self.x,
    {
        self.x
    }

    pub fn y(&self) -> (r: i64)
        ensures
            r == self.y,
    {
        self.y
    }

    pub fn z(&self) -> (r: i64)
        ensures
            r == self.z,
    {
        self.z
    }

    /// The component on `axis` (0 for x, 1 for y, 2 for z).
    pub fn element(&self, axis: usize) -> (r: i64)
        requires
            axis < 3,
        ensures
            r == self.coord(axis as int),
    {
        if axis == 0 {
            self.x
        } else if axis == 1 {
            self.y
        } else {
            self.z
        }
    }

    pub fn plus(&self, rhs: &Vector3) -> (r: Vector3)
        requires
            i64::MIN <= self.x + rhs.x <= i64::MAX,
            i64::MIN <= self.y + rhs.y <= i64::MAX,
            i64::MIN <= self.z + rhs.z <= i64::MAX,
        ensures
            r.x == self.x + rhs.x && r.y == self.y + rhs.y && r.z == self.z + rhs.z,
    {
        Vector3 { x: self.x + rhs.x, y: self.y + rhs.y, z: self.z + rhs.z }
    }

    pub fn minus(&self, rhs: &Vector3) -> (r: Vector3)
        requires
            i64::MIN <= self.x - rhs.x <= i64::MAX,
            i64::MIN <= self.y - rhs.y <= i64::MAX,
            i64::MIN <= self.z - rhs.z <= i64::MAX,
        ensures
            r.x == self.x - rhs.x && r.y == self.y - rhs.y && r.z == self.z - rhs.z,
    {
        Vector3 { x: self.x - rhs.x, y: self.y - rhs.y, z: self.z - rhs.z }
    }

    pub fn negate(&self) -> (r: Vector3)
        requires
            self.x > i64::MIN && self.y > i64::MIN && self.z > i64::MIN,
        ensures
            r.x == -self.x && r.y == -self.y && r.z == -self.z,
    {
        Vector3 { x: -self.x, y: -self.y, z: -self.z }
    }

    /// Each component times the fixed-point scalar `s`, rounded down.
    pub fn mul_scalar(&self, s: i64) -> (r: Vector3)
        requires
            i64::MIN <= fx_mul(self.x as int, s as int) <= i64::MAX,
            i64::MIN <= fx_mul(self.y as int, s as int) <= i64::MAX,
            i64::MIN <= fx_mul(self.z as int, s as int) <= i64::MAX,
        ensures
            r.x == fx_mul(self.x as int, s as int),
            r.y == fx_mul(self.y as int, s as int),
            r.z == fx_mul(self.z as int, s as int),
    {
        Vector3 {
            x: mul_fx(self.x, s),
            y: mul_fx(self.y, s),
            z: mul_fx(self.z, s),
        }
    }

    /// Each component divided by the positive fixed-point scalar `s`, rounded down.
    pub fn div_scalar(&self, s: i64) -> (r: Vector3)
        requires
            s > 0,
            i64::MIN <= fx_div(self.x as int, s as int) <= i64::MAX,
            i64::MIN <= fx_div(self.y as int, s as int) <= i64::MAX,
            i64::MIN <= fx_div(self.z as int, s as int) <= i64::MAX,
        ensures
            r.x == fx_div(self.x as int, s as int),
            r.y == fx_div(self.y as int, s as int),
            r.z == fx_div(self.z as int, s as int),
    {
        Vector3 {
            x: div_fx(self.x, s),
            y: div_fx(self.y, s),
            z: div_fx(self.z, s),
        }
    }

    /// The dot product at full precision.
    pub fn dot_exact(&self, rhs: &Vector3) -> (r: i128)
        requires
            self.bounded(),
            rhs.bounded(),
        ensures
            r == self.dot_raw(*rhs),
            -0x4_0000_0000_0000_0000 < r < 0x4_0000_0000_0000_0000,
    {
        proof {
            lemma_bounded_products(*self, *rhs);
        }
        (self.x as i128) * (rhs.x as i128) + (self.y as i128) * (rhs.y as i128) + (self.z as i128)
            * (rhs.z as i128)
    }

    pub open spec fn spec_dot(self, o: Vector3) -> int {
        self.dot_raw(o) / (ONE as int)
    }

    /// The unit vector in the direction of `self`, rounded down.
    pub open spec fn spec_unit(self) -> Vector3 {
        let l = self.spec_length();
        Vector3 {
            x: fx_div(self.x as int, l) as i64,
            y: fx_div(self.y as int, l) as i64,
            z: fx_div(self.z as int, l) as i64,
        }
    }

    /// `self` mirrored about the plane with normal `n`: `self - 2 (self . n) n`.
    pub open spec fn spec_reflect(self, n: Vector3) -> Vector3 {
        let k = 2 * self.spec_dot(n);
        Vector3 {
            x: (self.x - fx_mul(n.x as int, k)) as i64,
            y: (self.y - fx_mul(n.y as int, k)) as i64,
            z: (self.z - fx_mul(n.z as int, k)) as i64,
        }
    }

    /// Snell's law for the unit vector `self` meeting a surface with unit
    /// normal `n`, with `ratio` the ratio of refractive indices.
    pub open spec fn spec_refract(self, n: Vector3, ratio: int) -> Vector3 {
        let d = (-self.dot_raw(n)) / (ONE as int);
        let cos_theta = if d < ONE { d } else { ONE as int };
        let perp = Vector3 {
            x: fx_mul(self.x + fx_mul(n.x as int, cos_theta), ratio) as i64,
            y: fx_mul(self.y + fx_mul(n.y as int, cos_theta), ratio) as i64,
            z: fx_mul(self.z + fx_mul(n.z as int, cos_theta), ratio) as i64,
        };
        let rest = ONE - perp.spec_dot(perp);
        let par = -floor_sqrt((if rest < 0 { -rest } else { rest }) * ONE);
        Vector3 {
            x: (perp.x + fx_mul(n.x as int, par)) as i64,
            y: (perp.y + fx_mul(n.y as int, par)) as i64,
            z: (perp.z + fx_mul(n.z as int, par)) as i64,
        }
    }

    /// The unit vector in the direction of `self`.
    pub fn unit_vector(&self) -> (r: Vector3)
        requires
            self.bounded(),
            !self.is_zero(),
        ensures
            r == self.spec_unit(),
            r.within(ONE as int),
    {
        let l = self.length();
        proof {
            let d = self.dot_raw(*self);
            assert(self.x * self.x >= 0 && self.y * self.y >= 0 && self.z * self.z >= 0)
                by (nonlinear_arith);
            lemma_coord_within_length(self.x as int, d, l as int);
            lemma_coord_within_length(self.y as int, d, l as int);
            lemma_coord_within_length(self.z as int, d, l as int);
            assert(l > 0) by {
                if l == 0 {
                    assert(d < 1);
                    if self.x != 0 {
                        assert(self.x * self.x >= 1) by (nonlinear_arith) requires self.x != 0;
                    } else if self.y != 0 {
                        assert(self.y * self.y >= 1) by (nonlinear_arith) requires self.y != 0;
                    } else {
                        assert(self.z * self.z >= 1) by (nonlinear_arith) requires self.z != 0;
                    }
                }
            }
            lemma_fx_div_unit(self.x as int, l as int);
            lemma_fx_div_unit(self.y as int, l as int);
            lemma_fx_div_unit(self.z as int, l as int);
        }
        self.div_scalar(l)
    }

    /// `self` mirrored about the plane with normal `normal`.
    pub fn reflect(&self, normal: &Vector3) -> (r: Vector3)
        requires
            self.within(2 * ONE),
            normal.within(2 * ONE),
        ensures
            r == self.spec_reflect(*normal),
            r.within(64 * ONE),
    {
        proof {
            lemma_small_dot(*self, *normal);
        }
        let d = self.dot(normal);
        let k = 2 * d;
        proof {
            lemma_mul_bound(normal.x as int, k as int, 131072, 1572864);
            lemma_mul_bound(normal.y as int, k as int, 131072, 1572864);
            lemma_mul_bound(normal.z as int, k as int, 131072, 1572864);
        }
        let l = normal.mul_scalar(k);
        self.minus(&l)
    }

    /// The direction of a refracted ray, by Snell's law split into the parts
    /// perpendicular and parallel to the normal.
    pub fn refract(&self, normal: &Vector3, etai_over_etat: i64) -> (r: Vector3)
        requires
            self.within(2 * ONE),
            normal.within(2 * ONE),
            0 <= etai_over_etat <= 16 * ONE,
        ensures
            r == self.spec_refract(*normal, etai_over_etat as int),
            r.bounded(),
    {
        let neg = self.negate();
        let d = neg.dot(normal);
        proof {
            lemma_small_dot(neg, *normal);
            assert(neg.dot_raw(*normal) == -self.dot_raw(*normal)) by (nonlinear_arith)
                requires neg.x == -self.x, neg.y == -self.y, neg.z == -self.z;
        }
        let cos_theta: i64 = if d < ONE { d } else { ONE };
        proof {
            lemma_mul_bound(normal.x as int, cos_theta as int, 2 * ONE, 12 * ONE);
            lemma_mul_bound(normal.y as int, cos_theta as int, 2 * ONE, 12 * ONE);
            lemma_mul_bound(normal.z as int, cos_theta as int, 2 * ONE, 12 * ONE);
        }
        let nc = normal.mul_scalar(cos_theta);
        let s = self.plus(&nc);
        proof {
            lemma_mul_bound(s.x as int, etai_over_etat as int, 27 * ONE, 16 * ONE);
            lemma_mul_bound(s.y as int, etai_over_etat as int, 27 * ONE, 16 * ONE);
            lemma_mul_bound(s.z as int, etai_over_etat as int, 27 * ONE, 16 * ONE);
        }
        let perp = s.mul_scalar(etai_over_etat);
        let lsq = perp.length_squared();
        proof {
            lemma_mul_bound(perp.x as int, perp.x as int, 433 * ONE, 433 * ONE);
            lemma_mul_bound(perp.y as int, perp.y as int, 433 * ONE, 433 * ONE);
            lemma_mul_bound(perp.z as int, perp.z as int, 433 * ONE, 433 * ONE);
        }
        let rest = ONE - lsq;
        let abs_rest: i64 = if rest < 0 { -rest } else { rest };
        assert(abs_rest <= 0x10_0000_0000);
        assert((abs_rest as u128) * (ONE as u128) <= 0x10_0000_0000 * 65536);
        let root = isqrt((abs_rest as u128) * (ONE as u128));
        proof {
            assert(root <= 0x400_0000) by (nonlinear_arith)
                requires root * root <= abs_rest * 65536, 0 <= abs_rest <= 0x10_0000_0000, root >= 0;
        }
        let par = -(root as i64);
        proof {
            lemma_mul_bound(normal.x as int, par as int, 131072, 0x400_0000);
            lemma_mul_bound(normal.y as int, par as int, 131072, 0x400_0000);
            lemma_mul_bound(normal.z as int, par as int, 131072, 0x400_0000);
        }
        let pv = normal.mul_scalar(par);
        perp.plus(&pv)
    }

    /// Whether every component is below the zero tolerance in magnitude.
    pub fn approx_zero(&self) -> (r: bool)
        ensures
            r == self.is_zero(),
    {
        -EPS < self.x && self.x < EPS && -EPS < self.y && self.y < EPS && -EPS < self.z && self.z
            < EPS
    }

    /// The component-wise square root (used for gamma correction).
    pub fn sqrt(&self) -> (r: Vector3)
        requires
            self.within(MAX_COORD as int),
            self.x >= 0 && self.y >= 0 && self.z >= 0,
        ensures
            r.x == floor_sqrt(self.x * ONE),
            r.y == floor_sqrt(self.y * ONE),
            r.z == floor_sqrt(self.z * ONE),
    {
        Vector3 { x: sqrt_fx(self.x), y: sqrt_fx(self.y), z: sqrt_fx(self.z) }
    }

    /// A vector whose components are drawn from `[0, ONE)`.
    pub fn random(rng: &mut ThreadRng) -> (r: Vector3)
        ensures
            0 <= r.x < ONE && 0 <= r.y < ONE && 0 <= r.z < ONE,
    {
        Self::random_range(rng, 0, ONE)
    }

    /// A vector whose components are drawn from `[lo, hi)`.
    pub fn random_range(rng: &mut ThreadRng, lo: i64, hi: i64) -> (r: Vector3)
        requires
            lo < hi,
        ensures
            lo <= r.x < hi && lo <= r.y < hi && lo <= r.z < hi,
    {
        let x = gen_range(rng, lo, hi);
        let y = gen_range(rng, lo, hi);
        let z = gen_range(rng, lo, hi);
        Vector3 { x, y, z }
    }

    /// A point strictly inside the unit ball, by rejection sampling from the
    /// enclosing cube; after `MAX_TRIES` rejected draws the center is returned.
    pub fn random_in_unit_sphere(rng: &mut ThreadRng) -> (r: Vector3)
        ensures
            r.dot_raw(r) < ONE * ONE,
            r.within(ONE as int),
    {
        let mut tries: u64 = 0;
        while tries < MAX_TRIES
            decreases MAX_TRIES - tries,
        {
            let p = Self::random_range(rng, -ONE, ONE);
            let d = p.dot_exact(&p);
            if d < (ONE as i128) * (ONE as i128) {
                return p;
            }
            tries = tries + 1;
        }
        Self::zero()
    }

    /// A unit vector in a random direction.
    pub fn random_unit_vector(rng: &mut ThreadRng) -> (r: Vector3)
        ensures
            r.within(ONE as int),
    {
        let p = Self::random_in_unit_sphere(rng);
        if p.approx_zero() {
            Self::new_x(ONE)
        } else {
            p.unit_vector()
        }
    }

    /// The dot product as a fixed-point scalar, rounded down.
    pub fn dot(&self, rhs: &Vector3) -> (r: i64)
        requires
            self.bounded(),
            rhs.bounded(),
        ensures
            r == self.dot_raw(*rhs) / (ONE as int),
            -0x4_0000_0000_0000 <= r <= 0x4_0000_0000_0000,
    {
        let d = self.dot_exact(rhs);
        let q = floor_div(d, ONE as i128);
        proof {
            assert(-0x4_0000_0000_0000 <= q <= 0x4_0000_0000_0000) by (nonlinear_arith)
                requires q == d / 65536, -0x4_0000_0000_0000_0000 < d < 0x4_0000_0000_0000_0000;
        }
        q as i64
    }

    pub fn length_squared(&self) -> (r: i64)
        requires
            self.bounded(),
        ensures
            r == self.dot_raw(*self) / (ONE as int),
    {
        self.dot(self)
    }

    /// The euclidean length, as a fixed-point scalar rounded down.
    pub fn length(&self) -> (r: i64)
        requires
            self.bounded(),
        ensures
            r == self.spec_length(),
            is_floor_sqrt(self.dot_raw(*self), r as int),
            0 <= r < 0x2_0000_0000,
    {
        let d = self.dot_exact(self);
        proof {
            assert(0 <= d) by (nonlinear_arith)
                requires d == self.x * self.x + self.y * self.y + self.z * self.z;
        }
        let s = isqrt(d as u128);
        proof {
            assert(s < 0x2_0000_0000) by (nonlinear_arith)
                requires s * s <= d, d < 0x4_0000_0000_0000_0000, s >= 0;
        }
        s as i64
    }

    pub fn cross(&self, rhs: &Vector3) -> (r: Vector3)
        requires
            self.bounded(),
            rhs.bounded(),
        ensures
            r == self.spec_cross(*rhs),
            r.x == (self.y * rhs.z - self.z * rhs.y) / (ONE as int),
            r.y == (self.z * rhs.x - self.x * rhs.z) / (ONE as int),
            r.z == (self.x * rhs.y - self.y * rhs.x) / (ONE as int),
    {
        Vector3 {
            x: cross_term(self.y, rhs.z, self.z, rhs.y),
            y: cross_term(self.z, rhs.x, self.x, rhs.z),
            z: cross_term(self.x, rhs.y, self.y, rhs.x),
        }
    }

    pub open spec fn spec_cross(self, rhs: Vector3) -> Vector3 {
        Vector3 {
            x: ((self.y * rhs.z - self.z * rhs.y) / (ONE as int)) as i64,
            y: ((self.z * rhs.x - self.x * rhs.z) / (ONE as int)) as i64,
            z: ((self.x * rhs.y - self.y * rhs.x) / (ONE as int)) as i64,
        }
    }

    pub fn add_assign(&mut self, rhs: &Vector3)
        requires
            i64::MIN <= old(self).x + rhs.x <= i64::MAX,
            i64::MIN <= old(self).y + rhs.y <= i64::MAX,
            i64::MIN <= old(self).z + rhs.z <= i64::MAX,
        ensures
            final(self).x == old(self).x + rhs.x,
            final(self).y == old(self).y + rhs.y,
            final(self).z == old(self).z + rhs.z,
    {
        self.x = self.x + rhs.x;
        self.y = self.y + rhs.y;
        self.z = self.z + rhs.z;
    }

    pub fn sub_assign(&mut self, rhs: &Vector3)
        requires
            i64::MIN <= old(self).x - rhs.x <= i64::MAX,
            i64::MIN <= old(self).y - rhs.y <= i64::MAX,
            i64::MIN <= old(self).z - rhs.z <= i64::MAX,
        ensures
            final(self).x == old(self).x - rhs.x,
            final(self).y == old(self).y - rhs.y,
            final(self).z == old(self).z - rhs.z,
    {
        self.x = self.x - rhs.x;
        self.y = self.y - rhs.y;
        self.z = self.z - rhs.z;
    }

    /// A point strictly inside the unit disk of the xy-plane, by rejection
    /// sampling from the enclosing square; after `MAX_TRIES` rejected draws
    /// the center is returned.
    pub fn random_in_unit_disk(rng: &mut ThreadRng) -> (r: Vector3)
        ensures
            r.x * r.x + r.y * r.y < ONE * ONE,
            r.z == 0,
            r.within(ONE as int),
    {
        let mut tries: u64 = 0;
        while tries < MAX_TRIES
            decreases MAX_TRIES - tries,
        {
            let x = gen_range(rng, -ONE, ONE);
            let y = gen_range(rng, -ONE, ONE);
            let p = Vector3::new(x, y, 0);
            let d = p.dot_exact(&p);
            if d < (ONE as i128) * (ONE as i128) {
                return p;
            }
            tries = tries + 1;
        }
        Self::zero()
    }

    /// The component-wise product of two colors or vectors.
    pub fn hadamard_product(&self, rhs: &Vector3) -> (r: Vector3)
        requires
            self.bounded(),
            rhs.bounded(),
        ensures
            r.x == fx_mul(self.x as int, rhs.x as int),
            r.y == fx_mul(self.y as int, rhs.y as int),
            r.z == fx_mul(self.z as int, rhs.z as int),
    {
        proof {
            lemma_fx_mul_bounded(self.x as int, rhs.x as int);
            lemma_fx_mul_bounded(self.y as int, rhs.y as int);
            lemma_fx_mul_bounded(self.z as int, rhs.z as int);
        }
        Vector3 {
            x: mul_fx(self.x, rhs.x),
            y: mul_fx(self.y, rhs.y),
            z: mul_fx(self.z, rhs.z),
        }
    }
}

/// Draws a rejection sampler makes before giving up.
pub const MAX_TRIES: u64 = 1000;

proof fn lemma_coord_within_length(c: int, d: int, l: int)
    requires
        c * c <= d,
        d < (l + 1) * (l + 1),
        l >= 0,
    ensures
        -l <= c <= l,
{
    if c > l {
        assert(c * c >= (l + 1) * (l + 1)) by (nonlinear_arith) requires c >= l + 1, l >= 0;
    }
    if c < -l {
        assert(c * c >= (l + 1) * (l + 1)) by (nonlinear_arith) requires -c >= l + 1, l >= 0;
    }
}

pub proof fn lemma_fx_div_unit(c: int, l: int)
    requires
        -l <= c <= l,
        l > 0,
    ensures
        -65536 <= fx_div(c, l) <= 65536,
{
    assert(-65536 <= (c * 65536) / l <= 65536) by (nonlinear_arith)
        requires -l <= c <= l, l > 0;
}

pub proof fn lemma_mul_bound(a: int, b: int, ba: int, bb: int)
    requires
        -ba <= a <= ba,
        -bb <= b <= bb,
    ensures
        -(ba * bb) <= a * b <= ba * bb,
        -(ba * bb) / 65536 - 1 <= fx_mul(a, b) <= (ba * bb) / 65536,
{
    assert(-(ba * bb) <= a * b <= ba * bb) by (nonlinear_arith)
        requires -ba <= a <= ba, -bb <= b <= bb;
    let p = a * b;
    let q = ba * bb;
    assert(-q / 65536 - 1 <= p / 65536 <= q / 65536) by (nonlinear_arith)
        requires -q <= p <= q;
}

proof fn lemma_small_dot(a: Vector3, b: Vector3)
    requires
        a.within(2 * ONE),
        b.within(2 * ONE),
    ensures
        -12 * ONE <= a.spec_dot(b) <= 12 * ONE,
        -12 * ONE <= (-a.dot_raw(b)) / (ONE as int) <= 12 * ONE,
{
    lemma_mul_bound(a.x as int, b.x as int, 131072, 131072);
    lemma_mul_bound(a.y as int, b.y as int, 131072, 131072);
    lemma_mul_bound(a.z as int, b.z as int, 131072, 131072);
    let d = a.dot_raw(b);
    assert(-12 * 65536 <= d / 65536 <= 12 * 65536) by (nonlinear_arith)
        requires -12 * 65536 * 65536 <= d <= 12 * 65536 * 65536;
    assert(-12 * 65536 <= (-d) / 65536 <= 12 * 65536) by (nonlinear_arith)
        requires -12 * 65536 * 65536 <= d <= 12 * 65536 * 65536;
}

pub proof fn lemma_bounded_products(a: Vector3, b: Vector3)
    requires
        a.bounded(),
        b.bounded(),
    ensures
        -0x4000_0000_0000_0000 <= a.x * b.x <= 0x4000_0000_0000_0000,
        -0x4000_0000_0000_0000 <= a.y * b.y <= 0x4000_0000_0000_0000,
        -0x4000_0000_0000_0000 <= a.z * b.z <= 0x4000_0000_0000_0000,
        -0x4_0000_0000_0000_0000 < a.dot_raw(b) < 0x4_0000_0000_0000_0000,
{
    lemma_product_bound(a.x as int, b.x as int);
    lemma_product_bound(a.y as int, b.y as int);
    lemma_product_bound(a.z as int, b.z as int);
}

pub proof fn lemma_product_bound(a: int, b: int)
    requires
        -0x8000_0000 <= a <= 0x8000_0000,
        -0x8000_0000 <= b <= 0x8000_0000,
    ensures
        -0x4000_0000_0000_0000 <= a * b <= 0x4000_0000_0000_0000,
{
    assert(-0x4000_0000_0000_0000 <= a * b <= 0x4000_0000_0000_0000) by (nonlinear_arith)
        requires -0x8000_0000 <= a <= 0x8000_0000, -0x8000_0000 <= b <= 0x8000_0000;
}

pub proof fn lemma_fx_mul_bounded(a: int, b: int)
    requires
        -0x8000_0000 <= a <= 0x8000_0000,
        -0x8000_0000 <= b <= 0x8000_0000,
    ensures
        -0x4000_0000_0000 <= fx_mul(a, b) <= 0x4000_0000_0000,
{
    lemma_product_bound(a, b);
    let p = a * b;
    assert(-0x4000_0000_0000 <= p / 65536 <= 0x4000_0000_0000) by (nonlinear_arith)
        requires -0x4000_0000_0000_0000 <= p <= 0x4000_0000_0000_0000;
}

/// `fx_mul(a, b)` computed at full precision.
fn mul_fx(a: i64, b: i64) -> (r: i64)
    requires
        i64::MIN <= fx_mul(a as int, b as int) <= i64::MAX,
    ensures
        r == fx_mul(a as int, b as int),
{
    proof {
        assert(-0x4000_0000_0000_0000_0000_0000_0000_0000 <= a * b
            <= 0x4000_0000_0000_0000_0000_0000_0000_0000) by (nonlinear_arith)
            requires i64::MIN <= a <= i64::MAX, i64::MIN <= b <= i64::MAX;
    }
    floor_div((a as i128) * (b as i128), ONE as i128) as i64
}

/// `fx_div(a, b)` computed at full precision.
fn div_fx(a: i64, b: i64) -> (r: i64)
    requires
        b > 0,
        i64::MIN <= fx_div(a as int, b as int) <= i64::MAX,
    ensures
        r == fx_div(a as int, b as int),
{
    floor_div((a as i128) * (ONE as i128), b as i128) as i64
}

/// The square root of a non-negative fixed-point scalar, rounded down.
fn sqrt_fx(a: i64) -> (r: i64)
    requires
        0 <= a <= MAX_COORD,
    ensures
        r == floor_sqrt(a * ONE),
{
    assert((a as u128) * (ONE as u128) <= 0x8000_0000 * 65536) by (nonlinear_arith)
        requires 0 <= a <= 0x8000_0000;
    let s = isqrt((a as u128) * (ONE as u128));
    proof {
        assert(s < 0x1000_0000) by (nonlinear_arith)
            requires s * s <= a * 65536, 0 <= a <= 0x8000_0000, s >= 0;
    }
    s as i64
}

/// `(a * b - c * d) / ONE` for bounded inputs.
fn cross_term(a: i64, b: i64, c: i64, d: i64) -> (r: i64)
    requires
        -0x8000_0000 <= a <= 0x8000_0000,
        -0x8000_0000 <= b <= 0x8000_0000,
        -0x8000_0000 <= c <= 0x8000_0000,
        -0x8000_0000 <= d <= 0x8000_0000,
    ensures
        r == (a * b - c * d) / (ONE as int),
{
    proof {
        lemma_product_bound(a as int, b as int);
        lemma_product_bound(c as int, d as int);
    }
    let p = (a as i128) * (b as i128) - (c as i128) * (d as i128);
    let q = floor_div(p, ONE as i128);
    proof {
        assert(-0x8000_0000_0000 <= q <= 0x8000_0000_0000) by (nonlinear_arith)
            requires q == p / 65536, -0x8000_0000_0000_0000 <= p <= 0x8000_0000_0000_0000;
    }
    q as i64
}

/// A position in the scene.
#[derive(Clone, Copy, Debug, PartialEq, Eq, Structural)]
pub struct Point3(pub Vector3);

impl Point3 {
    pub open spec fn spec_zero() -> Point3 {
        Point3(Vector3 { x: 0, y: 0, z: 0 })
    }

    pub fn new(x: i64, y: i64, z: i64) -> (r: Self)
        ensures
            r.0.x == x && r.0.y == y && r.0.z == z,
    {
        Point3(Vector3::new(x, y, z))
    }

    pub fn zero() -> (r: Self)
        ensures
            r.0.is_zero(),
    {
        Point3(Vector3::zero())
    }

    pub fn new_x(x: i64) -> (r: Self)
        ensures
            r.0.x == x && r.0.y == 0 && r.0.z == 0,
    {
        Point3(Vector3::new_x(x))
    }

    pub fn new_y(y: i64) -> (r: Self)
        ensures
            r.0.x == 0 && r.0.y == y && r.0.z == 0,
    {
        Point3(Vector3::new_y(y))
    }

    pub fn new_z(z: i64) -> (r: Self)
        ensures
            r.0.x == 0 && r.0.y == 0 && r.0.z == z,
    {
        Point3(Vector3::new_z(z))
    }

    pub fn x(&self) -> (r: i64)
        ensures
            r == self.0.x,
    {
        self.0.x
    }

    pub fn y(&self) -> (r: i64)
        ensures
            r == self.0.y,
    {
        self.0.y
    }

    pub fn z(&self) -> (r: i64)
        ensures
            r == self.0.z,
    {
        self.0.z
    }

    pub fn as_vector(&self) -> (r: Vector3)
        ensures
            r == self.0,
    {
        self.0
    }
}

/// A radiance or attenuation, one fixed-point value per channel.
#[derive(Clone, Copy, Debug, PartialEq, Eq, Structural)]
pub struct Color(pub Vector3);

impl Color {
    pub fn new(r: i64, g: i64, b: i64) -> (c: Self)
        ensures
            c.0.x == r && c.0.y == g && c.0.z == b,
    {
        Color(Vector3::new(r, g, b))
    }

    pub fn new_all(c: i64) -> (r: Self)
        ensures
            r.0.x == c && r.0.y == c && r.0.z == c,
    {
        Color(Vector3::new(c, c, c))
    }

    pub fn r(&self) -> (r: i64)
        ensures
            r == self.0.x,
    {
        self.0.x
    }

    pub fn g(&self) -> (r: i64)
        ensures
            r == self.0.y,
    {
        self.0.y
    }

    pub fn b(&self) -> (r: i64)
        ensures
            r == self.0.z,
    {
        self.0.z
    }

    pub fn red() -> (r: Self)
        ensures
            r.0.x == ONE && r.0.y == 0 && r.0.z == 0,
    {
        Color::new(ONE, 0, 0)
    }

    pub open spec fn white_spec() -> Color {
        Color(Vector3 { x: ONE, y: ONE, z: ONE })
    }

    pub fn white() -> (r: Self)
        ensures
            r == Color::white_spec(),
    {
        Color::new_all(ONE)
    }

    pub fn black() -> (r: Self)
        ensures
            r.0.is_zero(),
    {
        Color::new_all(0)
    }
}

} // verus!
