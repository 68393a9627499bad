//! The closed set of hittable kinds, and a scene searched by linear scan.
use vstd::prelude::*;
use crate::arith::ONE;
use crate::bvh::aabb::AABB;
use crate::camera::Camera;
use crate::hit::HitRecord;
use crate::ray::Ray;
use crate::arith::{floor_sqrt, lemma_floor_sqrt};
use crate::sphere::{quadratic, Sphere};
use vstd::seq_lib::to_multiset_contains;
use crate::vector3::Point3;
use unwrap_ord::UnwrapOrd;

verus! {

#[derive(Clone, Copy, Debug)]
pub enum HitObject {
    Sphere(Sphere),
}

impl HitObject {
    pub open spec fn wf(self) -> bool {
        match self {
            HitObject::Sphere(s) => s.wf(),
        }
    }

    pub open spec fn spec_hit(self, ray: Ray, t_min: int, t_max: int) -> Option<HitRecord> {
        match self {
            HitObject::Sphere(s) => s.spec_hit(ray, t_min, t_max),
        }
    }

    pub open spec fn spec_bounding_box(self) -> AABB {
        match self {
            HitObject::Sphere(s) => s.spec_bounding_box(),
        }
    }

    /// Squared distance from `p` to the center, less (or plus) the squared radius.
    pub open spec fn spec_distance_squared(self, p: Point3, plus: bool) -> int {
        match self {
            HitObject::Sphere(s) => {
                let dx = s.center.0.x - p.0.x;
                let dy = s.center.0.y - p.0.y;
                let dz = s.center.0.z - p.0.z;
                let rr = s.radius * s.radius;
                (dx * dx + dy * dy + dz * dz + if plus { rr } else { -rr }) / (ONE as int)
            },
        }
    }

    pub fn hit(&self, ray: &Ray, t_min: i64, t_max: i64) -> (r: Option<HitRecord>)
        requires
            self.wf(),
            ray.bounded(),
        ensures
            r == self.spec_hit(*ray, t_min as int, t_max as int),
    {
        match self {
            HitObject::Sphere(s) => s.hit(ray, t_min, t_max),
        }
    }

    /// The object's bounding box; every kind in this set has one.
    pub fn bounding_box(&self) -> (r: Option<AABB>)
        requires
            self.wf(),
        ensures
            r == Some(self.spec_bounding_box()),
            self.spec_bounding_box().bounded(),
    {
        match self {
            HitObject::Sphere(s) => Some(s.bounding_box()),
        }
    }

    /// A key for ordering objects by how near they come to `point`.
    pub fn nearest_squared(&self, point: &Point3) -> (r: i64)
        requires
            self.wf(),
            point.0.bounded(),
        ensures
            r == self.spec_distance_squared(*point, false),
    {
        self.distance_squared(point, false)
    }

    /// A key for ordering objects by how far they reach from `point`.
    pub fn farest_squared(&self, point: &Point3) -> (r: i64)
        requires
            self.wf(),
            point.0.bounded(),
        ensures
            r == self.spec_distance_squared(*point, true),
    {
        self.distance_squared(point, true)
    }

    fn distance_squared(&self, point: &Point3, plus: bool) -> (r: i64)
        requires
            self.wf(),
            point.0.bounded(),
        ensures
            r == self.spec_distance_squared(*point, plus),
    {
        match self {
            HitObject::Sphere(s) => {
                let dx = (s.center.0.x as i128) - (point.0.x as i128);
                let dy = (s.center.0.y as i128) - (point.0.y as i128);
                let dz = (s.center.0.z as i128) - (point.0.z as i128);
                proof {
                    assert(0 <= s.radius * s.radius <= 0x100_0000_0000_0000) by (nonlinear_arith)
                        requires 0 < s.radius <= 0x1000_0000;
                }
                let rr = (s.radius as i128) * (s.radius as i128);
                proof {
                    assert(0 <= dx * dx <= 0x400_0000_0000_0000) by (nonlinear_arith)
                        requires -0x2000_0000 <= dx <= 0x2000_0000;
                    assert(0 <= dy * dy <= 0x400_0000_0000_0000) by (nonlinear_arith)
                        requires -0x2000_0000 <= dy <= 0x2000_0000;
                    assert(0 <= dz * dz <= 0x400_0000_0000_0000) by (nonlinear_arith)
                        requires -0x2000_0000 <= dz <= 0x2000_0000;
                    assert(0 <= rr <= 0x100_0000_0000_0000) by (nonlinear_arith)
                        requires 0 < s.radius <= 0x1000_0000, rr == s.radius * s.radius;
                }
                let sum = dx * dx + dy * dy + dz * dz + if plus {
                    rr
                } else {
                    -rr
                };
                crate::arith::floor_div(sum, ONE as i128) as i64
            },
        }
    }
}

/// The nearest hit found by scanning `objs` in order: each object is tested
/// against the window closed at the best distance found so far.
pub open spec fn scan(objs: Seq<HitObject>, ray: Ray, t_min: int, t_max: int) -> Option<HitRecord>
    decreases objs.len(),
{
    if objs.len() == 0 {
        None
    } else {
        let rest = scan(objs.drop_last(), ray, t_min, t_max);
        let t = match rest {
            Some(h) => h.t as int,
            None => t_max,
        };
        match objs.last().spec_hit(ray, t_min, t) {
            Some(h) => Some(h),
            None => rest,
        }
    }
}

/// The scan reports only well-formed records.
pub proof fn lemma_scan_wf(objs: Seq<HitObject>, ray: Ray, t_min: int, t_max: int)
    requires
        all_wf(objs),
        ray.bounded(),
    ensures
        scan(objs, ray, t_min, t_max) matches Some(h) ==> h.wf(),
    decreases objs.len(),
{
    if objs.len() > 0 {
        let rest = objs.drop_last();
        assert(all_wf(rest)) by {
            assert forall|i: int| 0 <= i < rest.len() implies (#[trigger] rest[i]).wf() by {
                assert(rest[i] == objs[i]);
            }
        }
        lemma_scan_wf(rest, ray, t_min, t_max);
        let t = match scan(rest, ray, t_min, t_max) {
            Some(h) => h.t as int,
            None => t_max,
        };
        assert(objs.last().wf());
        match objs.last() {
            HitObject::Sphere(s) => {
                crate::sphere::lemma_sphere_record_wf(s, ray, t_min, t);
            },
        }
    }
}

/// The distance at which the ray first meets `o` past `t_min`, whatever the
/// window's far end: `o` is hit inside `(t_min, t)` exactly when this is below `t`.
pub open spec fn hit_key(o: HitObject, ray: Ray, t_min: int) -> Option<int> {
    match o {
        HitObject::Sphere(s) => {
            let (a, half_b, disc) = quadratic(s.center, s.radius as int, ray);
            if a == 0 || disc < 0 {
                None
            } else {
                let sq = floor_sqrt(disc);
                if t_min * a < (-half_b - sq) * ONE {
                    Some(((-half_b - sq) * ONE) / a)
                } else if t_min * a < (-half_b + sq) * ONE {
                    Some(((-half_b + sq) * ONE) / a)
                } else {
                    None
                }
            }
        },
    }
}

proof fn lemma_window_floor(n: int, a: int, t: int)
    requires
        a > 0,
    ensures
        (n * ONE < t * a) == ((n * ONE) / a < t),
{
    let m = n * 65536;
    assert((m < t * a) == (m / a < t)) by (nonlinear_arith)
        requires a > 0;
}

/// `o` is hit inside `(t_min, t)` exactly when its key is below `t`, and then at its key.
pub proof fn lemma_hit_key(o: HitObject, ray: Ray, t_min: int, t: int)
    requires
        i64::MIN <= t_min,
        t <= i64::MAX,
    ensures
        (o.spec_hit(ray, t_min, t) is Some) == (hit_key(o, ray, t_min) matches Some(k) && k < t),
        o.spec_hit(ray, t_min, t) matches Some(h) ==> hit_key(o, ray, t_min) == Some(h.t as int),
{
    match o {
        HitObject::Sphere(s) => {
            let (a, half_b, disc) = quadratic(s.center, s.radius as int, ray);
            if a != 0 && disc >= 0 {
                assert(a > 0) by {
                    let d = ray.direction;
                    assert(d.x * d.x >= 0 && d.y * d.y >= 0 && d.z * d.z >= 0) by (nonlinear_arith);
                }
                let sq = floor_sqrt(disc);
                let n1 = -half_b - sq;
                let n2 = -half_b + sq;
                lemma_window_floor(n1, a, t);
                lemma_window_floor(n2, a, t);
                lemma_floor_sqrt(disc);
                assert(n1 <= n2);
                assert(n1 * 65536 <= n2 * 65536);
                let m1 = n1 * 65536;
                let m2 = n2 * 65536;
                assert(t_min * a < m1 ==> t_min <= m1 / a) by (nonlinear_arith)
                    requires a > 0;
                assert(t_min * a < m2 ==> t_min <= m2 / a) by (nonlinear_arith)
                    requires a > 0;
            }
        },
    }
}

/// The smallest key among `objs`, or `t_max` when none is smaller.
pub open spec fn min_key(objs: Seq<HitObject>, ray: Ray, t_min: int, t_max: int) -> int
    decreases objs.len(),
{
    if objs.len() == 0 {
        t_max
    } else {
        let m = min_key(objs.drop_last(), ray, t_min, t_max);
        match hit_key(objs.last(), ray, t_min) {
            Some(k) => if k < m { k } else { m },
            None => m,
        }
    }
}

/// The scan ends at the smallest key below `t_max`; it finds nothing when there is none.
pub proof fn lemma_scan_min_key(objs: Seq<HitObject>, ray: Ray, t_min: i64, t_max: i64)
    ensures
        match scan(objs, ray, t_min as int, t_max as int) {
            Some(h) => h.t as int == min_key(objs, ray, t_min as int, t_max as int) && h.t < t_max,
            None => min_key(objs, ray, t_min as int, t_max as int) == t_max as int,
        },
    decreases objs.len(),
{
    if objs.len() > 0 {
        let rest = objs.drop_last();
        lemma_scan_min_key(rest, ray, t_min, t_max);
        let t = match scan(rest, ray, t_min as int, t_max as int) {
            Some(h) => h.t as int,
            None => t_max as int,
        };
        lemma_hit_key(objs.last(), ray, t_min as int, t);
    }
}

/// `min_key` is at most `t_max` and every key, and is `t_max` or one of the keys.
pub proof fn lemma_min_key_bounds(objs: Seq<HitObject>, ray: Ray, t_min: int, t_max: int)
    ensures
        min_key(objs, ray, t_min, t_max) <= t_max,
        forall|i: int|
            0 <= i < objs.len() ==> (#[trigger] hit_key(objs[i], ray, t_min) matches Some(k) ==> min_key(
                objs,
                ray,
                t_min,
                t_max,
            ) <= k),
        min_key(objs, ray, t_min, t_max) == t_max || exists|i: int|
            0 <= i < objs.len() && #[trigger] hit_key(objs[i], ray, t_min) == Some(
                min_key(objs, ray, t_min, t_max),
            ),
    decreases objs.len(),
{
    if objs.len() > 0 {
        let rest = objs.drop_last();
        lemma_min_key_bounds(rest, ray, t_min, t_max);
        let m = min_key(objs, ray, t_min, t_max);
        assert forall|i: int| 0 <= i < objs.len() implies (#[trigger] hit_key(objs[i], ray, t_min) matches Some(k) ==> m <= k) by {
            if i < rest.len() {
                assert(objs[i] == rest[i]);
            }
        }
        if m != t_max {
            if hit_key(objs.last(), ray, t_min) == Some(m) {
                assert(hit_key(objs[objs.len() - 1], ray, t_min) == Some(m));
            } else {
                let j = choose|j: int| 0 <= j < rest.len() && #[trigger] hit_key(rest[j], ray, t_min) == Some(min_key(rest, ray, t_min, t_max));
                assert(objs[j] == rest[j]);
                assert(hit_key(objs[j], ray, t_min) == Some(m));
            }
        }
    }
}

/// Reordering the objects does not change `min_key`.
pub proof fn lemma_min_key_permutation(a: Seq<HitObject>, b: Seq<HitObject>, ray: Ray, t_min: int, t_max: int)
    requires
        a.to_multiset() == b.to_multiset(),
    ensures
        min_key(a, ray, t_min, t_max) == min_key(b, ray, t_min, t_max),
{
    lemma_min_key_le(a, b, ray, t_min, t_max);
    lemma_min_key_le(b, a, ray, t_min, t_max);
}

proof fn lemma_min_key_le(a: Seq<HitObject>, b: Seq<HitObject>, ray: Ray, t_min: int, t_max: int)
    requires
        a.to_multiset() == b.to_multiset(),
    ensures
        min_key(a, ray, t_min, t_max) <= min_key(b, ray, t_min, t_max),
{
    lemma_min_key_bounds(a, ray, t_min, t_max);
    lemma_min_key_bounds(b, ray, t_min, t_max);
    let mb = min_key(b, ray, t_min, t_max);
    if mb != t_max {
        let j = choose|j: int| 0 <= j < b.len() && #[trigger] hit_key(b[j], ray, t_min) == Some(mb);
        let x = b[j];
        assert(b.contains(x));
        to_multiset_contains(b, x);
        to_multiset_contains(a, x);
        let i = choose|i: int| 0 <= i < a.len() && a[i] == x;
        assert(hit_key(a[i], ray, t_min) == Some(mb));
    }
}

pub open spec fn all_wf(objs: Seq<HitObject>) -> bool {
    forall|i: int| 0 <= i < objs.len() ==> (#[trigger] objs[i]).wf()
}

/// The smallest box holding the boxes of every object of `objs` (none when empty).
pub open spec fn boxes_of(objs: Seq<HitObject>) -> Option<AABB>
    decreases objs.len(),
{
    if objs.len() == 0 {
        None
    } else {
        match boxes_of(objs.drop_last()) {
            None => Some(objs.last().spec_bounding_box()),
            Some(b) => Some(b.spec_surrounding(objs.last().spec_bounding_box())),
        }
    }
}

pub struct HitObjects {
    pub objects: Vec<HitObject>,
}

impl HitObjects {
    pub fn new() -> (r: Self)
        ensures
            r.objects@.len() == 0,
    {
        HitObjects { objects: Vec::new() }
    }

    pub fn new_one(object: HitObject) -> (r: Self)
        ensures
            r.objects@ == seq![object],
    {
        let mut objects = Vec::new();
        objects.push(object);
        HitObjects { objects }
    }

    pub fn clear(&mut self)
        ensures
            final(self).objects@.len() == 0,
    {
        self.objects.clear();
    }

    pub fn add(&mut self, object: HitObject)
        ensures
            final(self).objects@ == old(self).objects@.push(object),
    {
        self.objects.push(object);
    }

    /// Reorders the objects by how near they come to the camera's origin.
    pub fn indexing_from_camera(&mut self, camera: &Camera)
        requires
            all_wf(old(self).objects@),
            camera.wf(),
        ensures
            final(self).objects@.to_multiset() == old(self).objects@.to_multiset(),
            forall|i: int, j: int|
                0 <= i < j < final(self).objects@.len() ==> (#[trigger] final(self).objects@[i]).spec_distance_squared(
                    camera.origin,
                    false,
                ) <= (#[trigger] final(self).objects@[j]).spec_distance_squared(camera.origin, false),
    {
        sort_by_nearest(&mut self.objects, camera.origin());
    }

    /// The nearest hit over all objects, by linear scan.
    pub fn hit(&self, ray: &Ray, t_min: i64, t_max: i64) -> (r: Option<HitRecord>)
        requires
            all_wf(self.objects@),
            ray.bounded(),
        ensures
            r == scan(self.objects@, *ray, t_min as int, t_max as int),
    {
        let mut record: Option<HitRecord> = None;
        let mut i: usize = 0;
        while i < self.objects.len()
            invariant
                0 <= i <= self.objects@.len(),
                all_wf(self.objects@),
                ray.bounded(),
                record == scan(self.objects@.take(i as int), *ray, t_min as int, t_max as int),
            decreases self.objects@.len() - i,
        {
            let t = match record {
                Some(h) => h.t,
                None => t_max,
            };
            let obj = &self.objects[i];
            let h = obj.hit(ray, t_min, t);
            assert(self.objects@.take(i + 1).drop_last() =~= self.objects@.take(i as int));
            record = match h {
                Some(h) => Some(h),
                None => record,
            };
            i = i + 1;
        }
        assert(self.objects@.take(i as int) =~= self.objects@);
        record
    }

    /// The box holding every object, or `None` for an empty scene.
    pub fn bounding_box(&self) -> (r: Option<AABB>)
        requires
            all_wf(self.objects@),
        ensures
            r == boxes_of(self.objects@),
    {
        let mut result_box: Option<AABB> = None;
        let mut i: usize = 0;
        while i < self.objects.len()
            invariant
                0 <= i <= self.objects@.len(),
                all_wf(self.objects@),
                result_box == boxes_of(self.objects@.take(i as int)),
            decreases self.objects@.len() - i,
        {
            assert(self.objects@.take(i + 1).drop_last() =~= self.objects@.take(i as int));
            match self.objects[i].bounding_box() {
                Some(bbox) => {
                    result_box = match result_box {
                        Some(b) => Some(b.surrounding_box(&bbox)),
                        None => Some(bbox),
                    };
                },
                None => {
                    return None;
                },
            }
            i = i + 1;
        }
        assert(self.objects@.take(i as int) =~= self.objects@);
        result_box
    }
}

/// Relies on `slice::sort_by_cached_key`, which permutes the slice into
/// ascending key order, and on `unwrap_ord::UnwrapOrd`, which orders by the
/// wrapped value's `partial_cmp` (total on integers).
#[verifier::external_body]
fn sort_by_nearest(objects: &mut Vec<HitObject>, origin: &Point3)
    requires
        all_wf(old(objects)@),
        origin.0.bounded(),
    ensures
        final(objects)@.to_multiset() == old(objects)@.to_multiset(),
        forall|i: int, j: int|
            0 <= i < j < final(objects)@.len() ==> (#[trigger] final(objects)@[i]).spec_distance_squared(
                *origin,
                false,
            ) <= (#[trigger] final(objects)@[j]).spec_distance_squared(*origin, false),
{
    objects.sort_by_cached_key(|x| UnwrapOrd(x.nearest_squared(origin)))
}

} // verus!
