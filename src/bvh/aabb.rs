//! Axis-aligned bounding boxes.
use vstd::prelude::*;
use crate::arith::ONE;
use crate::ray::Ray;
use crate::vector3::{Point3, Vector3};

verus! {

/// A fraction `p.0 / p.1`; every fraction built below has a positive denominator.
pub open spec fn frac_lt(p: (int, int), q: (int, int)) -> bool {
    p.0 * q.1 < q.0 * p.1
}

pub open spec fn fi(p: (i128, i128)) -> (int, int) {
    (p.0 as int, p.1 as int)
}

pub open spec fn frac_le(p: (int, int), q: (int, int)) -> bool {
    p.0 * q.1 <= q.0 * p.1
}

#[derive(Clone, Copy, Debug, PartialEq, Eq, Structural)]
pub struct AABB {
    pub minimum: Point3,
    pub maximum: Point3,
}

impl AABB {
    pub open spec fn lo(self, a: int) -> int {
        self.minimum.0.coord(a)
    }

    pub open spec fn hi(self, a: int) -> int {
        self.maximum.0.coord(a)
    }

    pub open spec fn bounded(self) -> bool {
        self.minimum.0.bounded() && self.maximum.0.bounded()
    }

    /// `self` lies inside `outer`.
    pub open spec fn inside(self, outer: AABB) -> bool {
        forall|a: int| 0 <= a < 3 ==> outer.lo(a) <= self.lo(a) && self.hi(a) <= outer.hi(a)
    }

    /// The ray parameter at which the ray enters the slab of axis `a`
    /// (meaningful where the ray is not parallel to that slab).
    pub open spec fn entry(self, ray: Ray, a: int) -> (int, int) {
        let d = ray.direction.coord(a);
        let o = ray.origin.0.coord(a);
        if d > 0 {
            (self.lo(a) - o, d)
        } else {
            (o - self.hi(a), -d)
        }
    }

    /// The ray parameter at which the ray leaves the slab of axis `a`.
    pub open spec fn exit(self, ray: Ray, a: int) -> (int, int) {
        let d = ray.direction.coord(a);
        let o = ray.origin.0.coord(a);
        if d > 0 {
            (self.hi(a) - o, d)
        } else {
            (o - self.lo(a), -d)
        }
    }

    /// Lower bounds on the parameter: index 3 is the window's own, 0..3 the slabs'.
    pub open spec fn lower(self, ray: Ray, t_min: int, i: int) -> (int, int) {
        if i == 3 {
            (t_min, ONE as int)
        } else {
            self.entry(ray, i)
        }
    }

    pub open spec fn upper(self, ray: Ray, t_max: int, i: int) -> (int, int) {
        if i == 3 {
            (t_max, ONE as int)
        } else {
            self.exit(ray, i)
        }
    }

    /// The ray meets the box over a parameter interval of positive length inside
    /// `(t_min, t_max)`: a ray parallel to a slab starts within it, and every
    /// entry parameter comes strictly before every exit parameter.
    pub open spec fn spec_hit(self, ray: Ray, t_min: int, t_max: int) -> bool {
        &&& forall|a: int|
            0 <= a < 3 && ray.direction.coord(a) == 0 ==> self.lo(a) <= ray.origin.0.coord(a)
                <= self.hi(a)
        &&& forall|i: int, j: int|
            0 <= i < 4 && 0 <= j < 4 && has_bound(ray, i) && has_bound(ray, j) ==> frac_lt(
                #[trigger] self.lower(ray, t_min, i),
                #[trigger] self.upper(ray, t_max, j),
            )
    }

    pub open spec fn spec_surrounding(self, other: AABB) -> AABB {
        AABB {
            minimum: Point3(
                Vector3 {
                    x: min(self.minimum.0.x, other.minimum.0.x),
                    y: min(self.minimum.0.y, other.minimum.0.y),
                    z: min(self.minimum.0.z, other.minimum.0.z),
                },
            ),
            maximum: Point3(
                Vector3 {
                    x: max(self.maximum.0.x, other.maximum.0.x),
                    y: max(self.maximum.0.y, other.maximum.0.y),
                    z: max(self.maximum.0.z, other.maximum.0.z),
                },
            ),
        }
    }

    pub fn new(minimum: Point3, maximum: Point3) -> (r: Self)
        ensures
            r.minimum == minimum && r.maximum == maximum,
    {
        AABB { minimum, maximum }
    }

    pub fn minimum(&self) -> (r: &Point3)
        ensures
            *r == self.minimum,
    {
        &self.minimum
    }

    pub fn maximum(&self) -> (r: &Point3)
        ensures
            *r == self.maximum,
    {
        &self.maximum
    }

    /// The slab test: whether `ray` passes through the box for some parameter
    /// strictly between `t_min` and `t_max` (fixed-point).
    pub fn hit(&self, ray: &Ray, t_min: i64, t_max: i64) -> (r: bool)
        requires
            self.bounded(),
            ray.bounded(),
        ensures
            r == self.spec_hit(*ray, t_min as int, t_max as int),
    {
        let mut lo: (i128, i128) = (t_min as i128, ONE as i128);
        let mut hi: (i128, i128) = (t_max as i128, ONE as i128);
        let ghost mut lo_i: int = 3;
        let ghost mut hi_i: int = 3;
        if t_min >= t_max {
            assert(t_min * 65536 >= t_max * 65536) by (nonlinear_arith)
                requires t_min >= t_max;
            assert(!frac_lt(self.lower(*ray, t_min as int, 3), self.upper(*ray, t_max as int, 3)));
            return false;
        }
        assert(t_min * 65536 < t_max * 65536) by (nonlinear_arith)
            requires t_min < t_max;
        let mut a: usize = 0;
        while a < 3
            invariant
                0 <= a <= 3,
                self.bounded(),
                ray.bounded(),
                0 <= lo_i < 4 && (lo_i == 3 || lo_i < a) && has_bound(*ray, lo_i),
                0 <= hi_i < 4 && (hi_i == 3 || hi_i < a) && has_bound(*ray, hi_i),
                fi(lo) == self.lower(*ray, t_min as int, lo_i),
                fi(hi) == self.upper(*ray, t_max as int, hi_i),
                frac_lt(fi(lo), fi(hi)),
                forall|i: int|
                    (i == 3 || 0 <= i < a) && has_bound(*ray, i) ==> frac_le(
                        #[trigger] self.lower(*ray, t_min as int, i),
                        fi(lo),
                    ),
                forall|j: int|
                    (j == 3 || 0 <= j < a) && has_bound(*ray, j) ==> frac_le(
                        fi(hi),
                        #[trigger] self.upper(*ray, t_max as int, j),
                    ),
                forall|b: int|
                    0 <= b < a && ray.direction.coord(b) == 0 ==> self.lo(b)
                        <= ray.origin.0.coord(b) <= self.hi(b),
            decreases 3 - a,
        {
            proof {
                lemma_fraction_positive(*self, *ray, t_min as int, t_max as int);
            }
            let d = ray.direction.element(a);
            let o = ray.origin.0.element(a);
            let mn = self.minimum.0.element(a);
            let mx = self.maximum.0.element(a);
            if d == 0 {
                if o < mn || o > mx {
                    return false;
                }
            } else {
                let t0: (i128, i128) = if d > 0 {
                    ((mn as i128) - (o as i128), d as i128)
                } else {
                    ((o as i128) - (mx as i128), -(d as i128))
                };
                let t1: (i128, i128) = if d > 0 {
                    ((mx as i128) - (o as i128), d as i128)
                } else {
                    ((o as i128) - (mn as i128), -(d as i128))
                };
                assert(fi(t0) == self.lower(*ray, t_min as int, a as int));
                assert(fi(t1) == self.upper(*ray, t_max as int, a as int));
                if frac_less(lo, t0) {
                    proof {
                        assert forall|i: int|
                            (i == 3 || 0 <= i < a) && has_bound(*ray, i) implies frac_le(
                            #[trigger] self.lower(*ray, t_min as int, i),
                            fi(t0),
                        ) by {
                            lemma_frac_le_trans(self.lower(*ray, t_min as int, i), fi(lo), fi(t0));
                        }
                    }
                    lo = t0;
                    proof {
                        lo_i = a as int;
                    }
                }
                if frac_less(t1, hi) {
                    proof {
                        assert forall|j: int|
                            (j == 3 || 0 <= j < a) && has_bound(*ray, j) implies frac_le(
                            fi(t1),
                            #[trigger] self.upper(*ray, t_max as int, j),
                        ) by {
                            lemma_frac_le_trans(fi(t1), fi(hi), self.upper(*ray, t_max as int, j));
                        }
                    }
                    hi = t1;
                    proof {
                        hi_i = a as int;
                    }
                }
                if !frac_less(lo, hi) {
                    return false;
                }
            }
            a = a + 1;
        }
        proof {
            lemma_fraction_positive(*self, *ray, t_min as int, t_max as int);
            assert forall|i: int, j: int|
                0 <= i < 4 && 0 <= j < 4 && has_bound(*ray, i) && has_bound(*ray, j) implies frac_lt(
                #[trigger] self.lower(*ray, t_min as int, i),
                #[trigger] self.upper(*ray, t_max as int, j),
            ) by {
                lemma_frac_le_lt_le(self.lower(*ray, t_min as int, i), fi(lo), fi(hi),
                    self.upper(*ray, t_max as int, j));
            }
        }
        true
    }

    /// The smallest box holding both `self` and `other`.
    pub fn surrounding_box(&self, other: &Self) -> (r: Self)
        ensures
            r == self.spec_surrounding(*other),
    {
        let small = Vector3::new(
            min_i64(self.minimum.0.x, other.minimum.0.x),
            min_i64(self.minimum.0.y, other.minimum.0.y),
            min_i64(self.minimum.0.z, other.minimum.0.z),
        );
        let big = Vector3::new(
            max_i64(self.maximum.0.x, other.maximum.0.x),
            max_i64(self.maximum.0.y, other.maximum.0.y),
            max_i64(self.maximum.0.z, other.maximum.0.z),
        );
        AABB::new(Point3(small), Point3(big))
    }
}

pub open spec fn has_bound(ray: Ray, i: int) -> bool {
    i == 3 || ray.direction.coord(i) != 0
}

pub open spec fn min(a: i64, b: i64) -> i64 {
    if a <= b { a } else { b }
}

pub open spec fn max(a: i64, b: i64) -> i64 {
    if a >= b { a } else { b }
}

fn min_i64(a: i64, b: i64) -> (r: i64)
    ensures
        r == min(a, b),
{
    if a <= b { a } else { b }
}

fn max_i64(a: i64, b: i64) -> (r: i64)
    ensures
        r == max(a, b),
{
    if a >= b { a } else { b }
}

/// Every bound the slab test compares has a positive denominator and a small numerator.
proof fn lemma_fraction_positive(b: AABB, ray: Ray, t_min: int, t_max: int)
    requires
        b.bounded(),
        ray.bounded(),
        i64::MIN <= t_min <= i64::MAX,
        i64::MIN <= t_max <= i64::MAX,
    ensures
        forall|i: int|
            0 <= i < 4 && has_bound(ray, i) ==> {
                let l = #[trigger] b.lower(ray, t_min, i);
                0 < l.1 <= 0x8000_0000 && i64::MIN <= l.0 <= i64::MAX
            },
        forall|i: int|
            0 <= i < 4 && has_bound(ray, i) ==> {
                let u = #[trigger] b.upper(ray, t_max, i);
                0 < u.1 <= 0x8000_0000 && i64::MIN <= u.0 <= i64::MAX
            },
{
}

/// Whether the fraction `p` is below the fraction `q`.
fn frac_less(p: (i128, i128), q: (i128, i128)) -> (r: bool)
    requires
        0 < p.1 <= 0x8000_0000,
        0 < q.1 <= 0x8000_0000,
        i64::MIN <= p.0 <= i64::MAX,
        i64::MIN <= q.0 <= i64::MAX,
    ensures
        r == frac_lt(fi(p), fi(q)),
{
    proof {
        assert(-0x4000_0000_0000_0000_0000_0000 <= p.0 * q.1 <= 0x4000_0000_0000_0000_0000_0000)
            by (nonlinear_arith)
            requires 0 < q.1 <= 0x8000_0000, i64::MIN <= p.0 <= i64::MAX;
        assert(-0x4000_0000_0000_0000_0000_0000 <= q.0 * p.1 <= 0x4000_0000_0000_0000_0000_0000)
            by (nonlinear_arith)
            requires 0 < p.1 <= 0x8000_0000, i64::MIN <= q.0 <= i64::MAX;
    }
    p.0 * q.1 < q.0 * p.1
}

proof fn lemma_frac_le_trans(p: (int, int), q: (int, int), r: (int, int))
    requires
        p.1 > 0 && q.1 > 0 && r.1 > 0,
        frac_le(p, q),
        frac_le(q, r) || frac_lt(q, r),
    ensures
        frac_le(p, r),
{
    assert(p.0 * q.1 * r.1 <= q.0 * p.1 * r.1) by (nonlinear_arith)
        requires p.0 * q.1 <= q.0 * p.1, r.1 > 0;
    assert(q.0 * r.1 * p.1 <= r.0 * q.1 * p.1) by (nonlinear_arith)
        requires q.0 * r.1 <= r.0 * q.1, p.1 > 0;
    assert(p.0 * r.1 <= r.0 * p.1) by (nonlinear_arith)
        requires
            p.0 * q.1 * r.1 <= q.0 * p.1 * r.1,
            q.0 * r.1 * p.1 <= r.0 * q.1 * p.1,
            q.1 > 0;
}

/// `p <= q < r <= s` gives `p < s` for fractions with positive denominators.
pub proof fn lemma_frac_le_lt_le(p: (int, int), q: (int, int), r: (int, int), s: (int, int))
    requires
        p.1 > 0 && q.1 > 0 && r.1 > 0 && s.1 > 0,
        frac_le(p, q),
        frac_lt(q, r),
        frac_le(r, s),
    ensures
        frac_lt(p, s),
{
    assert(p.0 * q.1 * r.1 <= q.0 * p.1 * r.1) by (nonlinear_arith)
        requires p.0 * q.1 <= q.0 * p.1, r.1 > 0;
    assert(q.0 * r.1 * p.1 < r.0 * q.1 * p.1) by (nonlinear_arith)
        requires q.0 * r.1 < r.0 * q.1, p.1 > 0;
    assert(p.0 * r.1 < r.0 * p.1) by (nonlinear_arith)
        requires
            p.0 * q.1 * r.1 <= q.0 * p.1 * r.1,
            q.0 * r.1 * p.1 < r.0 * q.1 * p.1,
            q.1 > 0;
    assert(r.0 * s.1 * p.1 <= s.0 * r.1 * p.1) by (nonlinear_arith)
        requires r.0 * s.1 <= s.0 * r.1, p.1 > 0;
    assert(p.0 * r.1 * s.1 < r.0 * p.1 * s.1) by (nonlinear_arith)
        requires p.0 * r.1 < r.0 * p.1, s.1 > 0;
    assert(p.0 * s.1 < s.0 * p.1) by (nonlinear_arith)
        requires
            p.0 * r.1 * s.1 < r.0 * p.1 * s.1,
            r.0 * s.1 * p.1 <= s.0 * r.1 * p.1,
            r.1 > 0;
}

/// The surrounding box holds both boxes, and does not depend on their order.
pub proof fn lemma_surrounding_box_contains(a: AABB, b: AABB)
    ensures
        a.inside(a.spec_surrounding(b)),
        b.inside(a.spec_surrounding(b)),
        a.spec_surrounding(b) == b.spec_surrounding(a),
{
}

} // verus!
