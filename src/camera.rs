//! The thin-lens camera that casts a ray for each image sample.
use vstd::prelude::*;
use crate::arith::{fx_mul, ONE};
use crate::ray::Ray;
use crate::vector3::{lemma_mul_bound, Point3, Vector3};
use rand::rngs::ThreadRng;

verus! {

/// `v` times the fixed-point scalar `k`, each component rounded down.
pub open spec fn scaled(v: Vector3, k: int) -> Vector3 {
    Vector3 {
        x: fx_mul(v.x as int, k) as i64,
        y: fx_mul(v.y as int, k) as i64,
        z: fx_mul(v.z as int, k) as i64,
    }
}

pub open spec fn sum(a: Vector3, b: Vector3) -> Vector3 {
    Vector3 { x: (a.x + b.x) as i64, y: (a.y + b.y) as i64, z: (a.z + b.z) as i64 }
}

pub open spec fn diff(a: Vector3, b: Vector3) -> Vector3 {
    Vector3 { x: (a.x - b.x) as i64, y: (a.y - b.y) as i64, z: (a.z - b.z) as i64 }
}

pub struct Camera {
    pub origin: Point3,
    pub lower_left_corner: Point3,
    pub horizontal: Vector3,
    pub vertical: Vector3,
    pub u: Vector3,
    pub v: Vector3,
    pub w: Vector3,
    pub lens_radius: i64,
}

impl Camera {
    /// Sizes for which every ray the camera casts is within the coordinate bound.
    pub open spec fn wf(self) -> bool {
        &&& self.origin.0.within(0x400_0000)
        &&& self.lower_left_corner.0.within(0x1000_0000)
        &&& diff(self.lower_left_corner.0, self.origin.0).within(0x800_0000)
        &&& self.horizontal.within(0x200_0000)
        &&& self.vertical.within(0x400_0000)
        &&& self.u.within(2 * ONE)
        &&& self.v.within(2 * ONE)
        &&& 0 <= self.lens_radius <= 8 * ONE
    }

    /// The ray through the viewport point `(s, t)` from the lens point given
    /// by the unit-disk sample `p`.
    pub open spec fn spec_ray(self, p: Vector3, s: int, t: int) -> Ray {
        let rd = scaled(p, self.lens_radius as int);
        let offset = sum(scaled(self.u, rd.x as int), scaled(self.v, rd.y as int));
        Ray {
            origin: Point3(sum(self.origin.0, offset)),
            direction: diff(
                sum(
                    sum(diff(self.lower_left_corner.0, self.origin.0), scaled(self.horizontal, s)),
                    scaled(self.vertical, t),
                ),
                offset,
            ),
            time: 0,
        }
    }

    /// A camera at `look_from` facing `look_at`, with `half_height` the tangent
    /// of half the vertical field of view.
    pub fn new(
        look_from: Point3,
        look_at: Point3,
        up_vector: Vector3,
        half_height: i64,
        aspect_ratio: i64,
        aperture: i64,
        focus_dist: i64,
    ) -> (r: Self)
        requires
            look_from.0.within(0x400_0000),
            look_at.0.within(0x400_0000),
            !diff(look_from.0, look_at.0).is_zero(),
            up_vector.within(16 * ONE),
            !up_vector.spec_cross(diff(look_from.0, look_at.0).spec_unit()).is_zero(),
            0 <= half_height <= 0x4000_0000,
            0 <= aspect_ratio <= 0x4000_0000,
            0 <= aperture <= 16 * ONE,
            0 <= focus_dist <= 512 * ONE,
            fx_mul(fx_mul(aspect_ratio as int, 2 * half_height), focus_dist as int) <= 512 * ONE,
            fx_mul(2 * half_height, focus_dist as int) <= 512 * ONE,
        ensures
            r.wf(),
            r.origin == look_from,
            r.w == diff(look_from.0, look_at.0).spec_unit(),
            r.u == up_vector.spec_cross(r.w).spec_unit(),
            r.v == r.w.spec_cross(r.u),
            r.horizontal == scaled(r.u, fx_mul(fx_mul(aspect_ratio as int, 2 * half_height), focus_dist as int)),
            r.vertical == scaled(r.v, fx_mul(2 * half_height, focus_dist as int)),
            r.lower_left_corner.0 == diff(
                diff(diff(look_from.0, scaled(r.horizontal, ONE / 2)), scaled(r.vertical, ONE / 2)),
                scaled(r.w, focus_dist as int),
            ),
            r.lens_radius == aperture / 2,
    {
        let viewport_height = 2 * half_height;
        proof {
            assert(0 <= fx_mul(aspect_ratio as int, viewport_height as int) <= 0x1_0000_0000_0000) by (nonlinear_arith)
                requires 0 <= aspect_ratio <= 0x4000_0000, 0 <= viewport_height <= 0x8000_0000;
        }
        let viewport_width = crate::vector3::Vector3::new_x(aspect_ratio).mul_scalar(viewport_height).x;
        let w = look_from.0.minus(&look_at.0).unit_vector();
        let cu = up_vector.cross(&w);
        assert(cu.bounded()) by {
            assert(-32 * 65536 * 65536 <= up_vector.y * w.z - up_vector.z * w.y <= 32 * 65536 * 65536) by (nonlinear_arith)
                requires up_vector.within(1048576int), w.within(65536);
            assert(-32 * 65536 * 65536 <= up_vector.z * w.x - up_vector.x * w.z <= 32 * 65536 * 65536) by (nonlinear_arith)
                requires up_vector.within(1048576int), w.within(65536);
            assert(-32 * 65536 * 65536 <= up_vector.x * w.y - up_vector.y * w.x <= 32 * 65536 * 65536) by (nonlinear_arith)
                requires up_vector.within(1048576int), w.within(65536);
        }
        let u = cu.unit_vector();
        proof {
            lemma_mul_bound(u.x as int, w.y as int, 65536, 65536);
        }
        let v = w.cross(&u);
        assert(v.within(2 * ONE)) by {
            assert(-2 * 65536 * 65536 <= w.y * u.z - w.z * u.y <= 2 * 65536 * 65536) by (nonlinear_arith)
                requires w.within(65536), u.within(65536);
            assert(-2 * 65536 * 65536 <= w.z * u.x - w.x * u.z <= 2 * 65536 * 65536) by (nonlinear_arith)
                requires w.within(65536), u.within(65536);
            assert(-2 * 65536 * 65536 <= w.x * u.y - w.y * u.x <= 2 * 65536 * 65536) by (nonlinear_arith)
                requires w.within(65536), u.within(65536);
        }
        proof {
            assert(0 <= fx_mul(viewport_width as int, focus_dist as int)) by (nonlinear_arith)
                requires 0 <= viewport_width, 0 <= focus_dist;
            assert(0 <= fx_mul(viewport_height as int, focus_dist as int)) by (nonlinear_arith)
                requires 0 <= viewport_height, 0 <= focus_dist;
        }
        let kh = Vector3::new_x(viewport_width).mul_scalar(focus_dist).x;
        let kv = Vector3::new_x(viewport_height).mul_scalar(focus_dist).x;
        proof {
            lemma_mul_bound(u.x as int, kh as int, 65536, 33554432int);
            lemma_mul_bound(u.y as int, kh as int, 65536, 33554432int);
            lemma_mul_bound(u.z as int, kh as int, 65536, 33554432int);
            lemma_mul_bound(v.x as int, kv as int, 131072int, 33554432int);
            lemma_mul_bound(v.y as int, kv as int, 131072int, 33554432int);
            lemma_mul_bound(v.z as int, kv as int, 131072int, 33554432int);
        }
        let horizontal = u.mul_scalar(kh);
        let vertical = v.mul_scalar(kv);
        proof {
            lemma_mul_bound(horizontal.x as int, ONE / 2, 0x200_0000, 32768);
            lemma_mul_bound(horizontal.y as int, ONE / 2, 0x200_0000, 32768);
            lemma_mul_bound(horizontal.z as int, ONE / 2, 0x200_0000, 32768);
            lemma_mul_bound(vertical.x as int, ONE / 2, 0x400_0000, 32768);
            lemma_mul_bound(vertical.y as int, ONE / 2, 0x400_0000, 32768);
            lemma_mul_bound(vertical.z as int, ONE / 2, 0x400_0000, 32768);
            lemma_mul_bound(w.x as int, focus_dist as int, 65536, 33554432int);
            lemma_mul_bound(w.y as int, focus_dist as int, 65536, 33554432int);
            lemma_mul_bound(w.z as int, focus_dist as int, 65536, 33554432int);
        }
        let hh = horizontal.mul_scalar(ONE / 2);
        let vv = vertical.mul_scalar(ONE / 2);
        let wf = w.mul_scalar(focus_dist);
        let lower_left_corner = Point3(look_from.0.minus(&hh).minus(&vv).minus(&wf));
        Camera {
            origin: look_from,
            lower_left_corner,
            horizontal,
            vertical,
            u,
            v,
            w,
            lens_radius: aperture / 2,
        }
    }

    /// The ray for viewport coordinates `(s, t)` (fixed-point, within
    /// `[0, ONE]`) and the unit-disk sample `p`.
    pub fn ray_with(&self, p: &Vector3, s: i64, t: i64) -> (r: Ray)
        requires
            self.wf(),
            p.within(ONE as int),
            0 <= s <= ONE,
            0 <= t <= ONE,
        ensures
            r == self.spec_ray(*p, s as int, t as int),
            r.bounded(),
    {
        proof {
            lemma_mul_bound(p.x as int, self.lens_radius as int, 65536, 524288int);
            lemma_mul_bound(p.y as int, self.lens_radius as int, 65536, 524288int);
            lemma_mul_bound(p.z as int, self.lens_radius as int, 65536, 524288int);
        }
        let rd = p.mul_scalar(self.lens_radius);
        proof {
            lemma_mul_bound(self.u.x as int, rd.x as int, 131072int, 524288int);
            lemma_mul_bound(self.u.y as int, rd.x as int, 131072int, 524288int);
            lemma_mul_bound(self.u.z as int, rd.x as int, 131072int, 524288int);
            lemma_mul_bound(self.v.x as int, rd.y as int, 131072int, 524288int);
            lemma_mul_bound(self.v.y as int, rd.y as int, 131072int, 524288int);
            lemma_mul_bound(self.v.z as int, rd.y as int, 131072int, 524288int);
            lemma_mul_bound(self.horizontal.x as int, s as int, 0x200_0000int, 65536);
            lemma_mul_bound(self.horizontal.y as int, s as int, 0x200_0000int, 65536);
            lemma_mul_bound(self.horizontal.z as int, s as int, 0x200_0000int, 65536);
            lemma_mul_bound(self.vertical.x as int, t as int, 0x400_0000int, 65536);
            lemma_mul_bound(self.vertical.y as int, t as int, 0x400_0000int, 65536);
            lemma_mul_bound(self.vertical.z as int, t as int, 0x400_0000int, 65536);
        }
        let offset = self.u.mul_scalar(rd.x).plus(&self.v.mul_scalar(rd.y));
        let to_corner = self.lower_left_corner.0.minus(&self.origin.0);
        let direction = to_corner.plus(&self.horizontal.mul_scalar(s)).plus(&self.vertical.mul_scalar(t)).minus(
            &offset,
        );
        Ray::new(Point3(self.origin.0.plus(&offset)), direction, 0)
    }

    /// The ray for viewport coordinates `(s, t)`, from a random point of the lens.
    pub fn ray(&self, rng: &mut ThreadRng, s: i64, t: i64) -> (r: Ray)
        requires
            self.wf(),
            0 <= s <= ONE,
            0 <= t <= ONE,
        ensures
            exists|p: Vector3|
                p.within(ONE as int) && p.x * p.x + p.y * p.y < ONE * ONE && p.z == 0 && r
                    == self.spec_ray(p, s as int, t as int),
            r.bounded(),
    {
        let p = Vector3::random_in_unit_disk(rng);
        self.ray_with(&p, s, t)
    }

    pub fn origin(&self) -> (r: &Point3)
        ensures
            *r == self.origin,
    {
        &self.origin
    }
}

/// `tan(1 degree)`: half the height of a two-degree vertical field of view.
pub const DEFAULT_HALF_HEIGHT: i64 = 1144;

/// The aspect ratio 16:9.
pub const DEFAULT_ASPECT_RATIO: i64 = 116508;

impl Default for Camera {
    /// A camera at the origin looking down the negative z axis, with a
    /// two-degree field of view, a 16:9 image, unit aperture and focus.
    fn default() -> (r: Self)
        ensures
            r.wf(),
            r.origin == Point3::spec_zero(),
            r.w == (Vector3 { x: 0, y: 0, z: ONE }),
            r.u == (Vector3 { x: ONE, y: 0, z: 0 }),
            r.v == (Vector3 { x: 0, y: ONE, z: 0 }),
            r.lens_radius == ONE / 2,
    {
        let from = Point3::zero();
        let at = Point3::new_z(-ONE);
        let up = Vector3::new_y(ONE);
        proof {
            let d = diff(from.0, at.0);
            assert(d == (Vector3 { x: 0, y: 0, z: ONE }));
            assert(d.dot_raw(d) == ONE * ONE) by (nonlinear_arith)
                requires d.x == 0, d.y == 0, d.z == 65536;
            crate::arith::lemma_floor_sqrt_unique(ONE * ONE, ONE as int);
            assert(d.spec_length() == ONE);
            assert(d.spec_unit() == (Vector3 { x: 0, y: 0, z: ONE }));
            let c = up.spec_cross(d.spec_unit());
            assert(c == (Vector3 { x: ONE, y: 0, z: 0 }));
            assert(c.dot_raw(c) == ONE * ONE) by (nonlinear_arith)
                requires c.x == 65536, c.y == 0, c.z == 0;
            assert(c.spec_unit() == (Vector3 { x: ONE, y: 0, z: 0 }));
            let vw = fx_mul(DEFAULT_ASPECT_RATIO as int, 2 * DEFAULT_HALF_HEIGHT);
            assert(vw == 4067);
            assert(fx_mul(vw, ONE as int) == 4067);
            assert(fx_mul(2 * DEFAULT_HALF_HEIGHT, ONE as int) == 2288);
        }
        Camera::new(from, at, up, DEFAULT_HALF_HEIGHT, DEFAULT_ASPECT_RATIO, ONE, ONE)
    }
}

} // verus!
