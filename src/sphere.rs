//! Spheres: the intersection test and the bounding box.
use vstd::prelude::*;
use crate::arith::{floor_div, floor_sqrt, fx_div, isqrt, lemma_floor_sqrt, ONE};
use crate::bvh::aabb::{frac_le, frac_lt, has_bound, lemma_frac_le_lt_le, AABB};
use crate::hit::{spec_record, HitRecord};
use crate::ray::Ray;
use crate::vector3::{lemma_fx_div_unit, Point3, Vector3, MAX_COORD};

verus! {

#[derive(Clone, Copy, Debug)]
pub struct Sphere {
    pub center: Point3,
    pub radius: i64,
    /// Index of the sphere's material in the scene's material table.
    pub material: usize,
}

/// A positive radius, and the whole sphere within the coordinate bound.
pub open spec fn sphere_wf(center: Point3, radius: int) -> bool {
    &&& 0 < radius
    &&& -MAX_COORD <= center.0.x - radius && center.0.x + radius <= MAX_COORD
    &&& -MAX_COORD <= center.0.y - radius && center.0.y + radius <= MAX_COORD
    &&& -MAX_COORD <= center.0.z - radius && center.0.z + radius <= MAX_COORD
}

/// The coefficients of `|origin + tau * direction - center|^2 - radius^2`,
/// scaled: `(a, half_b, discriminant)` with the quadratic `a tau^2 + 2 half_b tau + c`.
pub open spec fn quadratic(center: Point3, radius: int, ray: Ray) -> (int, int, int) {
    let ox = ray.origin.0.x - center.0.x;
    let oy = ray.origin.0.y - center.0.y;
    let oz = ray.origin.0.z - center.0.z;
    let d = ray.direction;
    let a = d.x * d.x + d.y * d.y + d.z * d.z;
    let half_b = ox * d.x + oy * d.y + oz * d.z;
    let c = ox * ox + oy * oy + oz * oz - radius * radius;
    (a, half_b, half_b * half_b - a * c)
}

/// The parameter `n / a` lies strictly inside the window `(t_min, t_max)` (fixed-point).
pub open spec fn in_window(n: int, a: int, t_min: int, t_max: int) -> bool {
    t_min * a < n * ONE && n * ONE < t_max * a
}

/// The numerator (over `a`) of the root the ray meets first inside the window:
/// the nearer root if it lies inside, else the farther one.
pub open spec fn hit_root(center: Point3, radius: int, ray: Ray, t_min: int, t_max: int) -> Option<
    int,
> {
    let (a, half_b, disc) = quadratic(center, radius, ray);
    if a == 0 || disc < 0 {
        None
    } else {
        let s = floor_sqrt(disc);
        if in_window(-half_b - s, a, t_min, t_max) {
            Some(-half_b - s)
        } else if in_window(-half_b + s, a, t_min, t_max) {
            Some(-half_b + s)
        } else {
            None
        }
    }
}

/// The ray's point at parameter `n / a`, each coordinate rounded down.
pub open spec fn point_at(ray: Ray, n: int, a: int) -> Point3 {
    Point3(
        Vector3 {
            x: (ray.origin.0.x + (ray.direction.x * n) / a) as i64,
            y: (ray.origin.0.y + (ray.direction.y * n) / a) as i64,
            z: (ray.origin.0.z + (ray.direction.z * n) / a) as i64,
        },
    )
}

/// The outward unit normal at `p`: `(p - center) / radius`.
pub open spec fn outward_normal(center: Point3, radius: int, p: Point3) -> Vector3 {
    Vector3 {
        x: fx_div(p.0.x - center.0.x, radius) as i64,
        y: fx_div(p.0.y - center.0.y, radius) as i64,
        z: fx_div(p.0.z - center.0.z, radius) as i64,
    }
}

pub open spec fn spec_hit_sphere(
    center: Point3,
    radius: int,
    material: usize,
    ray: Ray,
    t_min: int,
    t_max: int,
) -> Option<HitRecord> {
    match hit_root(center, radius, ray, t_min, t_max) {
        None => None,
        Some(n) => {
            let a = quadratic(center, radius, ray).0;
            let p = point_at(ray, n, a);
            Some(
                spec_record(
                    p,
                    ((n * ONE) / a) as i64,
                    outward_normal(center, radius, p),
                    ray,
                    material,
                ),
            )
        },
    }
}

impl Sphere {
    pub open spec fn wf(self) -> bool {
        sphere_wf(self.center, self.radius as int)
    }

    pub open spec fn spec_hit(self, ray: Ray, t_min: int, t_max: int) -> Option<HitRecord> {
        spec_hit_sphere(self.center, self.radius as int, self.material, ray, t_min, t_max)
    }

    pub open spec fn spec_bounding_box(self) -> AABB {
        let c = self.center.0;
        let r = self.radius;
        AABB {
            minimum: Point3(Vector3 { x: (c.x - r) as i64, y: (c.y - r) as i64, z: (c.z - r) as i64 }),
            maximum: Point3(Vector3 { x: (c.x + r) as i64, y: (c.y + r) as i64, z: (c.z + r) as i64 }),
        }
    }

    pub fn new(center: Point3, radius: i64, material: usize) -> (r: Self)
        ensures
            r.center == center && r.radius == radius && r.material == material,
    {
        Sphere { center, radius, material }
    }

    pub fn hit(&self, ray: &Ray, t_min: i64, t_max: i64) -> (r: Option<HitRecord>)
        requires
            self.wf(),
            ray.bounded(),
        ensures
            r == self.spec_hit(*ray, t_min as int, t_max as int),
    {
        hit_sphere(&self.center, self.radius, self.material, ray, t_min, t_max)
    }

    /// The box from `center - radius` to `center + radius` on every axis.
    pub fn bounding_box(&self) -> (r: AABB)
        requires
            self.wf(),
        ensures
            r == self.spec_bounding_box(),
            r.bounded(),
    {
        sphere_bounding_box(&self.center, self.radius)
    }
}

pub fn sphere_bounding_box(center: &Point3, radius: i64) -> (r: AABB)
    requires
        sphere_wf(*center, radius as int),
    ensures
        r == (Sphere { center: *center, radius, material: 0 }).spec_bounding_box(),
        r.bounded(),
{
    let c = center.0;
    AABB::new(
        Point3::new(c.x - radius, c.y - radius, c.z - radius),
        Point3::new(c.x + radius, c.y + radius, c.z + radius),
    )
}

/// Solves the sphere's quadratic in exact integer arithmetic and returns the
/// record of the first root inside `(t_min, t_max)`, if any.
pub fn hit_sphere(
    center: &Point3,
    radius: i64,
    material: usize,
    ray: &Ray,
    t_min: i64,
    t_max: i64,
) -> (r: Option<HitRecord>)
    requires
        sphere_wf(*center, radius as int),
        ray.bounded(),
    ensures
        r == spec_hit_sphere(*center, radius as int, material, *ray, t_min as int, t_max as int),
{
    let ox = (ray.origin.0.x as i128) - (center.0.x as i128);
    let oy = (ray.origin.0.y as i128) - (center.0.y as i128);
    let oz = (ray.origin.0.z as i128) - (center.0.z as i128);
    let dx = ray.direction.x as i128;
    let dy = ray.direction.y as i128;
    let dz = ray.direction.z as i128;
    let rr = radius as i128;
    proof {
        lemma_quadratic_bounds(ox as int, oy as int, oz as int, dx as int, dy as int, dz as int, rr as int);
    }
    let a = dx * dx + dy * dy + dz * dz;
    let half_b = ox * dx + oy * dy + oz * dz;
    let c = ox * ox + oy * oy + oz * oz - rr * rr;
    let disc = half_b * half_b - a * c;
    assert((a as int, half_b as int, disc as int) == quadratic(*center, radius as int, *ray));
    if a == 0 || disc < 0 {
        return None;
    }
    let s = isqrt(disc as u128) as i128;
    proof {
        assert(s <= 0x1000_0000_0000_0000) by (nonlinear_arith)
            requires s * s <= disc, disc < 0x100_0000_0000_0000_0000_0000_0000_0000, s >= 0;
    }
    let n1 = -half_b - s;
    let n2 = -half_b + s;
    let root = if window_holds(n1, a, t_min, t_max) {
        n1
    } else if window_holds(n2, a, t_min, t_max) {
        n2
    } else {
        return None;
    };
    proof {
        assert((root + half_b) * (root + half_b) == s * s) by (nonlinear_arith)
            requires root == -half_b - s || root == -half_b + s;
        lemma_in_ball(ox as int, oy as int, oz as int, dx as int, dy as int, dz as int, rr as int, root as int);
        lemma_floor_in(ox as int, dx as int, rr as int, a as int, root as int);
        lemma_floor_in(oy as int, dy as int, rr as int, a as int, root as int);
        lemma_floor_in(oz as int, dz as int, rr as int, a as int, root as int);
        assert(t_min <= (root * 65536) / (a as int) < t_max) by (nonlinear_arith)
            requires t_min * a < root * 65536, root * 65536 < t_max * a, a > 0;
        assert(-0x200_0000_0000_0000_0000_0000 <= dx * root <= 0x200_0000_0000_0000_0000_0000) by (nonlinear_arith)
            requires -0x1000_0000 <= dx <= 0x1000_0000, -0x2000_0000_0000_0000 <= root <= 0x2000_0000_0000_0000;
        assert(-0x200_0000_0000_0000_0000_0000 <= dy * root <= 0x200_0000_0000_0000_0000_0000) by (nonlinear_arith)
            requires -0x1000_0000 <= dy <= 0x1000_0000, -0x2000_0000_0000_0000 <= root <= 0x2000_0000_0000_0000;
        assert(-0x200_0000_0000_0000_0000_0000 <= dz * root <= 0x200_0000_0000_0000_0000_0000) by (nonlinear_arith)
            requires -0x1000_0000 <= dz <= 0x1000_0000, -0x2000_0000_0000_0000 <= root <= 0x2000_0000_0000_0000;
    }
    let t = floor_div(root * (ONE as i128), a) as i64;
    let px = (ray.origin.0.x as i128 + floor_div(dx * root, a)) as i64;
    let py = (ray.origin.0.y as i128 + floor_div(dy * root, a)) as i64;
    let pz = (ray.origin.0.z as i128 + floor_div(dz * root, a)) as i64;
    let p = Point3::new(px, py, pz);
    proof {
        lemma_fx_div_unit(p.0.x - center.0.x, radius as int);
        lemma_fx_div_unit(p.0.y - center.0.y, radius as int);
        lemma_fx_div_unit(p.0.z - center.0.z, radius as int);
    }
    let nx = floor_div(((px - center.0.x) as i128) * (ONE as i128), rr) as i64;
    let ny = floor_div(((py - center.0.y) as i128) * (ONE as i128), rr) as i64;
    let nz = floor_div(((pz - center.0.z) as i128) * (ONE as i128), rr) as i64;
    let normal = Vector3::new(nx, ny, nz);
    Some(HitRecord::new(p, t, normal, ray, material))
}

/// `in_window(n, a, t_min, t_max)`, computed.
fn window_holds(n: i128, a: i128, t_min: i64, t_max: i64) -> (r: bool)
    requires
        0 < a <= 0x400_0000_0000_0000,
        -0x2000_0000_0000_0000 <= n <= 0x2000_0000_0000_0000,
    ensures
        r == in_window(n as int, a as int, t_min as int, t_max as int),
{
    proof {
        assert(-0x200_0000_0000_0000_0000_0000_0000_0000 <= t_min * a <= 0x200_0000_0000_0000_0000_0000_0000_0000)
            by (nonlinear_arith)
            requires 0 < a <= 0x400_0000_0000_0000, i64::MIN <= t_min <= i64::MAX;
        assert(-0x200_0000_0000_0000_0000_0000_0000_0000 <= t_max * a <= 0x200_0000_0000_0000_0000_0000_0000_0000)
            by (nonlinear_arith)
            requires 0 < a <= 0x400_0000_0000_0000, i64::MIN <= t_max <= i64::MAX;
    }
    assert(ONE as i128 == 65536);
    let m = n * (ONE as i128);
    (t_min as i128) * a < m && m < (t_max as i128) * a
}

/// Sizes of the quadratic's coefficients for a sphere and ray within the coordinate bound.
proof fn lemma_quadratic_bounds(ox: int, oy: int, oz: int, dx: int, dy: int, dz: int, r: int)
    requires
        -0x2000_0000 <= ox <= 0x2000_0000,
        -0x2000_0000 <= oy <= 0x2000_0000,
        -0x2000_0000 <= oz <= 0x2000_0000,
        -0x1000_0000 <= dx <= 0x1000_0000,
        -0x1000_0000 <= dy <= 0x1000_0000,
        -0x1000_0000 <= dz <= 0x1000_0000,
        0 < r <= 0x1000_0000,
    ensures
        0 <= dx * dx <= 0x100_0000_0000_0000,
        0 <= dy * dy <= 0x100_0000_0000_0000,
        0 <= dz * dz <= 0x100_0000_0000_0000,
        -0x200_0000_0000_0000 <= ox * dx <= 0x200_0000_0000_0000,
        -0x200_0000_0000_0000 <= oy * dy <= 0x200_0000_0000_0000,
        -0x200_0000_0000_0000 <= oz * dz <= 0x200_0000_0000_0000,
        0 <= ox * ox <= 0x400_0000_0000_0000,
        0 <= oy * oy <= 0x400_0000_0000_0000,
        0 <= oz * oz <= 0x400_0000_0000_0000,
        0 <= r * r <= 0x100_0000_0000_0000,
        0 <= dx * dx + dy * dy + dz * dz <= 0x400_0000_0000_0000,
        -0x800_0000_0000_0000 <= ox * dx + oy * dy + oz * dz <= 0x800_0000_0000_0000,
        -0x100_0000_0000_0000 <= ox * ox + oy * oy + oz * oz - r * r <= 0x1000_0000_0000_0000,
        ({
            let a = dx * dx + dy * dy + dz * dz;
            let hb = ox * dx + oy * dy + oz * dz;
            let c = ox * ox + oy * oy + oz * oz - r * r;
            &&& 0 <= hb * hb <= 0x40_0000_0000_0000_0000_0000_0000_0000
            &&& -0x40_0000_0000_0000_0000_0000_0000_0000 <= a * c <= 0x40_0000_0000_0000_0000_0000_0000_0000
            &&& -0x100_0000_0000_0000_0000_0000_0000_0000 < hb * hb - a * c < 0x100_0000_0000_0000_0000_0000_0000_0000
        }),
{
    assert(0 <= dx * dx <= 0x100_0000_0000_0000) by (nonlinear_arith)
        requires -0x1000_0000 <= dx <= 0x1000_0000;
    assert(0 <= dy * dy <= 0x100_0000_0000_0000) by (nonlinear_arith)
        requires -0x1000_0000 <= dy <= 0x1000_0000;
    assert(0 <= dz * dz <= 0x100_0000_0000_0000) by (nonlinear_arith)
        requires -0x1000_0000 <= dz <= 0x1000_0000;
    assert(-0x200_0000_0000_0000 <= ox * dx <= 0x200_0000_0000_0000) by (nonlinear_arith)
        requires -0x2000_0000 <= ox <= 0x2000_0000, -0x1000_0000 <= dx <= 0x1000_0000;
    assert(-0x200_0000_0000_0000 <= oy * dy <= 0x200_0000_0000_0000) by (nonlinear_arith)
        requires -0x2000_0000 <= oy <= 0x2000_0000, -0x1000_0000 <= dy <= 0x1000_0000;
    assert(-0x200_0000_0000_0000 <= oz * dz <= 0x200_0000_0000_0000) by (nonlinear_arith)
        requires -0x2000_0000 <= oz <= 0x2000_0000, -0x1000_0000 <= dz <= 0x1000_0000;
    assert(0 <= ox * ox <= 0x400_0000_0000_0000) by (nonlinear_arith)
        requires -0x2000_0000 <= ox <= 0x2000_0000;
    assert(0 <= oy * oy <= 0x400_0000_0000_0000) by (nonlinear_arith)
        requires -0x2000_0000 <= oy <= 0x2000_0000;
    assert(0 <= oz * oz <= 0x400_0000_0000_0000) by (nonlinear_arith)
        requires -0x2000_0000 <= oz <= 0x2000_0000;
    assert(0 <= r * r <= 0x100_0000_0000_0000) by (nonlinear_arith)
        requires 0 < r <= 0x1000_0000;
    let a = dx * dx + dy * dy + dz * dz;
    let hb = ox * dx + oy * dy + oz * dz;
    let c = ox * ox + oy * oy + oz * oz - r * r;
    assert(0 <= hb * hb <= 0x40_0000_0000_0000_0000_0000_0000_0000) by (nonlinear_arith)
        requires -0x800_0000_0000_0000 <= hb <= 0x800_0000_0000_0000;
    assert(-0x40_0000_0000_0000_0000_0000_0000_0000 <= a * c <= 0x40_0000_0000_0000_0000_0000_0000_0000) by (nonlinear_arith)
        requires 0 <= a <= 0x400_0000_0000_0000, -0x100_0000_0000_0000 <= c <= 0x1000_0000_0000_0000;
}

/// A root `n / a` at most `sqrt(disc)` from the vertex `-half_b / a` lies in the
/// closed ball: on every axis, `|oc * a + d * n| <= r * a`.
pub proof fn lemma_in_ball(ox: int, oy: int, oz: int, dx: int, dy: int, dz: int, r: int, n: int)
    requires
        r > 0,
        dx * dx + dy * dy + dz * dz > 0,
        ({
            let a = dx * dx + dy * dy + dz * dz;
            let hb = ox * dx + oy * dy + oz * dz;
            let c = ox * ox + oy * oy + oz * oz - r * r;
            (n + hb) * (n + hb) <= hb * hb - a * c
        }),
    ensures
        ({
            let a = dx * dx + dy * dy + dz * dz;
            &&& -(r * a) <= ox * a + dx * n <= r * a
            &&& -(r * a) <= oy * a + dy * n <= r * a
            &&& -(r * a) <= oz * a + dz * n <= r * a
            &&& (ox * a + dx * n) * (ox * a + dx * n) + (oy * a + dy * n) * (oy * a + dy * n) + (oz * a
                + dz * n) * (oz * a + dz * n) <= (r * a) * (r * a)
        }),
{
    let a = dx * dx + dy * dy + dz * dz;
    let hb = ox * dx + oy * dy + oz * dz;
    let oo = ox * ox + oy * oy + oz * oz;
    let ex = ox * a + dx * n;
    let ey = oy * a + dy * n;
    let ez = oz * a + dz * n;
    let a2 = a * a;
    lemma_square_expand(ox, a, dx, n);
    lemma_square_expand(oy, a, dy, n);
    lemma_square_expand(oz, a, dz, n);
    assert(a2 * (ox * ox) + a2 * (oy * oy) + a2 * (oz * oz) == a2 * oo) by (nonlinear_arith)
        requires oo == ox * ox + oy * oy + oz * oz;
    assert(2 * a * n * (ox * dx) + 2 * a * n * (oy * dy) + 2 * a * n * (oz * dz) == 2 * a * n * hb)
        by (nonlinear_arith)
        requires hb == ox * dx + oy * dy + oz * dz;
    assert(n * n * (dx * dx) + n * n * (dy * dy) + n * n * (dz * dz) == n * n * a) by (nonlinear_arith)
        requires a == dx * dx + dy * dy + dz * dz;
    let x = n * n + 2 * n * hb;
    let y = a * (r * r) - a * oo;
    assert(x <= y) by (nonlinear_arith)
        requires
            (n + hb) * (n + hb) <= hb * hb - a * (oo - r * r),
            x == n * n + 2 * n * hb,
            y == a * (r * r) - a * oo;
    assert(a * x <= a * y) by (nonlinear_arith)
        requires x <= y, a > 0;
    assert(a * x == n * n * a + 2 * a * n * hb) by (nonlinear_arith)
        requires x == n * n + 2 * n * hb;
    assert(a * y == (r * a) * (r * a) - a2 * oo) by (nonlinear_arith)
        requires y == a * (r * r) - a * oo, a2 == a * a;
    assert(ex * ex >= 0 && ey * ey >= 0 && ez * ez >= 0) by (nonlinear_arith);
    assert(r * a > 0) by (nonlinear_arith) requires r > 0, a > 0;
    lemma_square_le(ex, r * a);
    lemma_square_le(ey, r * a);
    lemma_square_le(ez, r * a);
}

proof fn lemma_square_expand(p: int, u: int, q: int, v: int)
    ensures
        (p * u + q * v) * (p * u + q * v) == (u * u) * (p * p) + 2 * u * v * (p * q) + v * v * (q * q),
{
    let x = p * u;
    let y = q * v;
    lemma_square_sum(x, y);
    lemma_mul_swap(p, u, p, u);
    lemma_mul_swap(p, u, q, v);
    lemma_mul_swap(q, v, q, v);
}

proof fn lemma_square_sum(x: int, y: int)
    ensures
        (x + y) * (x + y) == x * x + 2 * x * y + y * y,
{
    assert((x + y) * (x + y) == x * x + 2 * x * y + y * y) by (nonlinear_arith);
}

proof fn lemma_mul_swap(p: int, u: int, q: int, v: int)
    ensures
        (p * u) * (q * v) == (u * v) * (p * q),
        2 * (p * u) * (q * v) == 2 * u * v * (p * q),
{
    assert((p * u) * (q * v) == (u * v) * (p * q)) by (nonlinear_arith);
    assert(2 * (p * u) * (q * v) == 2 * u * v * (p * q)) by (nonlinear_arith)
        requires (p * u) * (q * v) == (u * v) * (p * q);
}

proof fn lemma_square_le(x: int, y: int)
    requires
        y > 0,
        x * x <= y * y,
    ensures
        -y <= x <= y,
{
    if x > y {
        assert(x * x > y * y) by (nonlinear_arith) requires x > y, y > 0;
    }
    if x < -y {
        assert(x * x > y * y) by (nonlinear_arith) requires -x > y, y > 0;
    }
}

/// From `|o * a + d * n| <= r * a`: the rounded-down offset `o + (d * n) / a`
/// stays within `[-r, r]`.
proof fn lemma_floor_in(o: int, d: int, r: int, a: int, n: int)
    requires
        a > 0,
        -(r * a) <= o * a + d * n <= r * a,
    ensures
        -r <= o + (d * n) / a <= r,
{
    assert((-r - o) * a <= d * n) by (nonlinear_arith)
        requires -(r * a) <= o * a + d * n;
    assert(d * n <= (r - o) * a) by (nonlinear_arith)
        requires o * a + d * n <= r * a;
    let m = d * n;
    assert(-r - o <= m / a <= r - o) by (nonlinear_arith)
        requires (-r - o) * a <= m, m <= (r - o) * a, a > 0;
}

/// The offset from the center of the ray's point at `n / a` on `axis`, scaled by `a`.
pub open spec fn ball_offset(s: Sphere, ray: Ray, n: int, a: int, axis: int) -> int {
    (ray.origin.0.coord(axis) - s.center.0.coord(axis)) * a + ray.direction.coord(axis) * n
}

/// One axis of a point of the ball inside a box: the parameter `n / a` lies
/// between the slab's entry and exit, which differ, and it meets either only
/// where the point is on the ball's extreme on that axis.
proof fn lemma_axis(o: int, d: int, c: int, r: int, lo: int, hi: int, n: int, a: int)
    requires
        a > 0,
        r > 0,
        lo <= c - r,
        c + r <= hi,
        -(r * a) <= (o - c) * a + d * n <= r * a,
    ensures
        d == 0 ==> lo <= o <= hi,
        d != 0 ==> ({
            let en = if d > 0 { lo - o } else { o - hi };
            let xn = if d > 0 { hi - o } else { o - lo };
            let ed = if d > 0 { d } else { -d };
            let e = (o - c) * a + d * n;
            &&& en * a <= n * ed
            &&& n * ed <= xn * a
            &&& en * ed < xn * ed
            &&& (en * a == n * ed ==> e * e == (r * a) * (r * a))
            &&& (n * ed == xn * a ==> e * e == (r * a) * (r * a))
        }),
{
    let e = (o - c) * a + d * n;
    assert(lo * a <= (c - r) * a && (c + r) * a <= hi * a) by (nonlinear_arith)
        requires lo <= c - r, c + r <= hi, a > 0;
    assert(o * a + d * n == e + c * a) by (nonlinear_arith)
        requires e == (o - c) * a + d * n;
    assert((c - r) * a == c * a - r * a && (c + r) * a == c * a + r * a) by (nonlinear_arith);
    if d == 0 {
        assert(d * n == 0) by (nonlinear_arith) requires d == 0;
        assert(lo * a <= o * a <= hi * a);
        assert(lo <= o <= hi) by (nonlinear_arith)
            requires lo * a <= o * a, o * a <= hi * a, a > 0;
    } else if d > 0 {
        assert((lo - o) * a <= n * d) by (nonlinear_arith)
            requires lo * a <= o * a + d * n;
        assert(n * d <= (hi - o) * a) by (nonlinear_arith)
            requires o * a + d * n <= hi * a;
        assert((lo - o) * d < (hi - o) * d) by (nonlinear_arith)
            requires lo < hi, d > 0;
        if (lo - o) * a == n * d {
            assert(o * a + d * n == lo * a) by (nonlinear_arith)
                requires (lo - o) * a == n * d;
            assert(e == -(r * a));
            assert(e * e == (r * a) * (r * a)) by (nonlinear_arith) requires e == -(r * a);
        }
        if n * d == (hi - o) * a {
            assert(o * a + d * n == hi * a) by (nonlinear_arith)
                requires n * d == (hi - o) * a;
            assert(e == r * a);
            assert(e * e == (r * a) * (r * a)) by (nonlinear_arith) requires e == r * a;
        }
    } else {
        assert((o - hi) * a <= n * (-d)) by (nonlinear_arith)
            requires o * a + d * n <= hi * a;
        assert(n * (-d) <= (o - lo) * a) by (nonlinear_arith)
            requires lo * a <= o * a + d * n;
        assert((o - hi) * (-d) < (o - lo) * (-d)) by (nonlinear_arith)
            requires lo < hi, d < 0;
        if (o - hi) * a == n * (-d) {
            assert(o * a + d * n == hi * a) by (nonlinear_arith)
                requires (o - hi) * a == n * (-d);
            assert(e == r * a);
            assert(e * e == (r * a) * (r * a)) by (nonlinear_arith) requires e == r * a;
        }
        if n * (-d) == (o - lo) * a {
            assert(o * a + d * n == lo * a) by (nonlinear_arith)
                requires n * (-d) == (o - lo) * a;
            assert(e == -(r * a));
            assert(e * e == (r * a) * (r * a)) by (nonlinear_arith) requires e == -(r * a);
        }
    }
}

pub open spec fn axis_facts(s: Sphere, b: AABB, ray: Ray, n: int, a: int, i: int) -> bool {
    let r = s.radius as int;
    let tau = (n, a);
    let en = b.entry(ray, i);
    let xn = b.exit(ray, i);
    let e = ball_offset(s, ray, n, a, i);
    &&& (ray.direction.coord(i) == 0 ==> b.lo(i) <= ray.origin.0.coord(i) <= b.hi(i))
    &&& (ray.direction.coord(i) != 0 ==> {
        &&& en.1 > 0
        &&& frac_le(en, tau)
        &&& frac_le(tau, xn)
        &&& frac_lt(en, xn)
        &&& (!frac_lt(en, tau) ==> e * e == (r * a) * (r * a))
        &&& (!frac_lt(tau, xn) ==> e * e == (r * a) * (r * a))
    })
}

proof fn lemma_axis_facts(s: Sphere, b: AABB, ray: Ray, n: int, a: int, i: int)
    requires
        0 <= i < 3,
        s.wf(),
        a > 0,
        s.spec_bounding_box().inside(b),
        -(s.radius * a) <= ball_offset(s, ray, n, a, i) <= s.radius * a,
    ensures
        axis_facts(s, b, ray, n, a, i),
{
    assert(b.lo(i) <= s.spec_bounding_box().lo(i) && s.spec_bounding_box().hi(i) <= b.hi(i));
    lemma_axis(
        ray.origin.0.coord(i),
        ray.direction.coord(i),
        s.center.0.coord(i),
        s.radius as int,
        b.lo(i),
        b.hi(i),
        n,
        a,
    );
}

/// A sphere that the ray hits inside the window lies in no box that the ray misses.
pub proof fn lemma_hit_inside_box(s: Sphere, b: AABB, ray: Ray, t_min: int, t_max: int)
    requires
        s.wf(),
        ray.bounded(),
        s.spec_bounding_box().inside(b),
        s.spec_hit(ray, t_min, t_max) is Some,
    ensures
        b.spec_hit(ray, t_min, t_max),
{
    let c = s.center;
    let r = s.radius as int;
    let (a, hb, disc) = quadratic(c, r, ray);
    let n = hit_root(c, r, ray, t_min, t_max)->Some_0;
    lemma_floor_sqrt(disc);
    let sq = floor_sqrt(disc);
    assert((n + hb) * (n + hb) == sq * sq) by (nonlinear_arith)
        requires n == -hb - sq || n == -hb + sq;
    let ox = ray.origin.0.x - c.0.x;
    let oy = ray.origin.0.y - c.0.y;
    let oz = ray.origin.0.z - c.0.z;
    let d = ray.direction;
    assert(d.x * d.x >= 0 && d.y * d.y >= 0 && d.z * d.z >= 0) by (nonlinear_arith);
    lemma_in_ball(ox, oy, oz, d.x as int, d.y as int, d.z as int, r, n);
    let tau = (n, a);
    let one = ONE as int;
    assert forall|i: int|
        0 <= i < 3 && ray.direction.coord(i) == 0 implies b.lo(i) <= #[trigger] ray.origin.0.coord(i)
        <= b.hi(i) by {
        lemma_axis_facts(s, b, ray, n, a, i);
    }
    let e0 = ball_offset(s, ray, n, a, 0);
    let e1 = ball_offset(s, ray, n, a, 1);
    let e2 = ball_offset(s, ray, n, a, 2);
    assert(e0 * e0 + e1 * e1 + e2 * e2 <= (r * a) * (r * a));
    assert(e0 * e0 >= 0 && e1 * e1 >= 0 && e2 * e2 >= 0) by (nonlinear_arith);
    assert((r * a) * (r * a) > 0) by (nonlinear_arith) requires r > 0, a > 0;
    assert(frac_lt((t_min, one), tau));
    assert(frac_lt(tau, (t_max, one)));
    assert forall|i: int, j: int|
        0 <= i < 4 && 0 <= j < 4 && has_bound(ray, i) && has_bound(ray, j) implies frac_lt(
        #[trigger] b.lower(ray, t_min, i),
        #[trigger] b.upper(ray, t_max, j),
    ) by {
        let l = b.lower(ray, t_min, i);
        let u = b.upper(ray, t_max, j);
        if i < 3 {
            lemma_axis_facts(s, b, ray, n, a, i);
        }
        if j < 3 {
            lemma_axis_facts(s, b, ray, n, a, j);
        }
        if i == j && i < 3 {
        } else if frac_lt(l, tau) {
            lemma_frac_le_lt_le(l, l, tau, u);
        } else if frac_lt(tau, u) {
            lemma_frac_le_lt_le(l, tau, u, u);
        } else {
            assert(i != 3 && j != 3);
            assert(ball_offset(s, ray, n, a, i) * ball_offset(s, ray, n, a, i) == (r * a) * (r * a));
            assert(ball_offset(s, ray, n, a, j) * ball_offset(s, ray, n, a, j) == (r * a) * (r * a));
            assert(false);
        }
    }
}

/// Every hit the sphere reports has a unit-bounded normal at a point within the coordinate bound.
pub proof fn lemma_sphere_record_wf(s: Sphere, ray: Ray, t_min: int, t_max: int)
    requires
        s.wf(),
        ray.bounded(),
    ensures
        s.spec_hit(ray, t_min, t_max) matches Some(h) ==> h.wf(),
{
    if s.spec_hit(ray, t_min, t_max) is Some {
        let c = s.center;
        let r = s.radius as int;
        let (a, hb, disc) = quadratic(c, r, ray);
        let n = hit_root(c, r, ray, t_min, t_max)->Some_0;
        lemma_floor_sqrt(disc);
        let sq = floor_sqrt(disc);
        assert((n + hb) * (n + hb) == sq * sq) by (nonlinear_arith)
            requires n == -hb - sq || n == -hb + sq;
        let ox = ray.origin.0.x - c.0.x;
        let oy = ray.origin.0.y - c.0.y;
        let oz = ray.origin.0.z - c.0.z;
        let d = ray.direction;
        assert(d.x * d.x >= 0 && d.y * d.y >= 0 && d.z * d.z >= 0) by (nonlinear_arith);
        lemma_in_ball(ox, oy, oz, d.x as int, d.y as int, d.z as int, r, n);
        lemma_floor_in(ox, d.x as int, r, a, n);
        lemma_floor_in(oy, d.y as int, r, a, n);
        lemma_floor_in(oz, d.z as int, r, a, n);
        let p = point_at(ray, n, a);
        lemma_fx_div_unit(p.0.x - c.0.x, r);
        lemma_fx_div_unit(p.0.y - c.0.y, r);
        lemma_fx_div_unit(p.0.z - c.0.z, r);
    }
}

/// A ray fired from outside a sphere straight at its center hits it before
/// reaching the center, and the hit lies on the ball with a unit-bounded normal.
pub proof fn lemma_aimed_ray_hits(s: Sphere, ray: Ray, t_min: int, t_max: int)
    requires
        s.wf(),
        ray.bounded(),
        ray.direction.x == s.center.0.x - ray.origin.0.x,
        ray.direction.y == s.center.0.y - ray.origin.0.y,
        ray.direction.z == s.center.0.z - ray.origin.0.z,
        ray.direction.dot_raw(ray.direction) > s.radius * s.radius,
        t_min <= 0,
        ONE < t_max,
    ensures
        s.spec_hit(ray, t_min, t_max) matches Some(h) && 0 <= h.t <= ONE && h.wf(),
{
    let c = s.center;
    let r = s.radius as int;
    let d = ray.direction;
    let (a, hb, disc) = quadratic(c, r, ray);
    let q = d.dot_raw(d);
    assert(a == q);
    assert(hb == -q) by (nonlinear_arith)
        requires
            hb == (ray.origin.0.x - c.0.x) * d.x + (ray.origin.0.y - c.0.y) * d.y + (ray.origin.0.z - c.0.z) * d.z,
            d.x == c.0.x - ray.origin.0.x,
            d.y == c.0.y - ray.origin.0.y,
            d.z == c.0.z - ray.origin.0.z,
            q == d.x * d.x + d.y * d.y + d.z * d.z;
    let oo = (ray.origin.0.x - c.0.x) * (ray.origin.0.x - c.0.x) + (ray.origin.0.y - c.0.y) * (
    ray.origin.0.y - c.0.y) + (ray.origin.0.z - c.0.z) * (ray.origin.0.z - c.0.z);
    assert(oo == q) by (nonlinear_arith)
        requires
            oo == (ray.origin.0.x - c.0.x) * (ray.origin.0.x - c.0.x) + (ray.origin.0.y - c.0.y) * (
            ray.origin.0.y - c.0.y) + (ray.origin.0.z - c.0.z) * (ray.origin.0.z - c.0.z),
            d.x == c.0.x - ray.origin.0.x,
            d.y == c.0.y - ray.origin.0.y,
            d.z == c.0.z - ray.origin.0.z,
            q == d.x * d.x + d.y * d.y + d.z * d.z;
    assert(disc == q * (r * r)) by (nonlinear_arith)
        requires disc == hb * hb - a * (oo - r * r), hb == -q, a == q, oo == q;
    assert(r * r >= 0) by (nonlinear_arith);
    assert(disc >= 0 && disc < q * q) by (nonlinear_arith)
        requires disc == q * (r * r), r * r < q, r * r >= 0;
    lemma_floor_sqrt(disc);
    let sq = floor_sqrt(disc);
    assert(sq < q) by (nonlinear_arith)
        requires sq * sq <= disc, disc < q * q, sq >= 0, q > 0;
    let n1 = -hb - sq;
    assert(n1 == q - sq);
    assert(t_min * a <= 0) by (nonlinear_arith) requires t_min <= 0, a > 0;
    assert(n1 * 65536 < t_max * a) by (nonlinear_arith)
        requires 0 < n1 <= q, a == q, 65536 < t_max;
    assert(0 <= (n1 * 65536) / a <= 65536) by (nonlinear_arith)
        requires 0 < n1 <= a;
    lemma_sphere_record_wf(s, ray, t_min, t_max);
}

} // verus!
