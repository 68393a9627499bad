//! The path-tracing color integrator.
use vstd::prelude::*;
use crate::arith::{fx_mul, ONE};
use crate::bvh::node::{lemma_tree_box_bounded, node_leaves, node_wf, Node, Tree};
use crate::hit::HitRecord;
use crate::hit_objects::{all_wf, lemma_scan_wf, scan, HitObjects};
use crate::material::{is_fraction, Material};
use crate::ray::Ray;
use crate::vector3::{Color, Vector3};
use rand::rngs::ThreadRng;

verus! {

/// Scattered rays ignore hits closer than this (fixed-point, about 0.001),
/// so that a ray does not meet the surface it leaves from.
pub const SHADOW_EPS: i64 = 66;

/// The sky color at the top of the background gradient: (0.5, 0.7, 1.0).
pub const SKY_R: i64 = 32768;
pub const SKY_G: i64 = 45875;
pub const SKY_B: i64 = 65536;

/// A scene searched either by linear scan or through a hierarchy.
pub enum World {
    Objects(HitObjects),
    Bvh(Node),
}

impl World {
    pub open spec fn wf(&self) -> bool {
        match self {
            World::Objects(h) => all_wf(h.objects@),
            World::Bvh(n) => node_wf(*n),
        }
    }

    pub open spec fn spec_hit(&self, ray: Ray, t_min: int, t_max: int) -> Option<HitRecord> {
        match self {
            World::Objects(h) => scan(h.objects@, ray, t_min, t_max),
            World::Bvh(n) => scan(node_leaves(*n), ray, t_min, t_max),
        }
    }

    pub fn hit(&self, ray: &Ray, t_min: i64, t_max: i64) -> (r: Option<HitRecord>)
        requires
            self.wf(),
            ray.bounded(),
        ensures
            r == self.spec_hit(*ray, t_min as int, t_max as int),
            r matches Some(h) ==> h.wf(),
    {
        match self {
            World::Objects(h) => {
                proof {
                    lemma_scan_wf(h.objects@, *ray, t_min as int, t_max as int);
                }
                h.hit(ray, t_min, t_max)
            },
            World::Bvh(n) => {
                proof {
                    let t = Tree::Node(Box::new(*n));
                    lemma_tree_box_bounded(t);
                    assert(all_wf(node_leaves(*n))) by {
                        assert forall|k: int| 0 <= k < node_leaves(*n).len() implies (
                        #[trigger] node_leaves(*n)[k]).wf() by {
                            assert(crate::bvh::node::tree_leaves(t)[k] == node_leaves(*n)[k]);
                        }
                    }
                    lemma_scan_wf(node_leaves(*n), *ray, t_min as int, t_max as int);
                }
                n.hit(ray, t_min, t_max)
            },
        }
    }
}

/// The background: white blended towards the sky color by the height of the
/// unit direction, `t = (y + 1) / 2`.
pub open spec fn spec_background(direction: Vector3) -> Color {
    let t = (direction.spec_unit().y + ONE) / 2;
    Color(
        Vector3 {
            x: ((ONE - t) + fx_mul(t, SKY_R as int)) as i64,
            y: ((ONE - t) + fx_mul(t, SKY_G as int)) as i64,
            z: ((ONE - t) + fx_mul(t, SKY_B as int)) as i64,
        },
    )
}

pub fn background(direction: &Vector3) -> (r: Color)
    requires
        direction.bounded(),
        !direction.is_zero(),
    ensures
        r == spec_background(*direction),
        is_fraction(r),
{
    let unit = direction.unit_vector();
    let t = (unit.y + ONE) / 2;
    Color::new(blend(t, SKY_R), blend(t, SKY_G), blend(t, SKY_B))
}

/// `(ONE - t) + t * sky`, a point between white and `sky`.
fn blend(t: i64, sky: i64) -> (r: i64)
    requires
        0 <= t <= ONE,
        0 <= sky <= ONE,
    ensures
        r == (ONE - t) + fx_mul(t as int, sky as int),
        0 <= r <= ONE,
{
    proof {
        assert(0 <= (t * sky) / 65536 <= t) by (nonlinear_arith)
            requires 0 <= t <= 65536, 0 <= sky <= 65536;
    }
    (ONE - t) + crate::arith::floor_div((t as i128) * (sky as i128), ONE as i128) as i64
}

/// The component-wise product of two fractions of light.
fn attenuate(a: &Color, c: &Color) -> (r: Color)
    requires
        is_fraction(*a),
        is_fraction(*c),
    ensures
        r.0.x == fx_mul(a.0.x as int, c.0.x as int),
        r.0.y == fx_mul(a.0.y as int, c.0.y as int),
        r.0.z == fx_mul(a.0.z as int, c.0.z as int),
        is_fraction(r),
{
    proof {
        lemma_fraction_product(a.0.x as int, c.0.x as int);
        lemma_fraction_product(a.0.y as int, c.0.y as int);
        lemma_fraction_product(a.0.z as int, c.0.z as int);
    }
    Color(a.0.hadamard_product(&c.0))
}

proof fn lemma_fraction_product(a: int, b: int)
    requires
        0 <= a <= 65536,
        0 <= b <= 65536,
    ensures
        0 <= fx_mul(a, b) <= 65536,
{
    assert(0 <= (a * b) / 65536 <= 65536) by (nonlinear_arith)
        requires 0 <= a <= 65536, 0 <= b <= 65536;
}

/// The light arriving along `ray`: black once `remaining_depth` runs out or
/// for a degenerate ray; the background where the ray escapes; otherwise the
/// hit material's attenuation times the light along the scattered ray, or
/// black where the material absorbs.
pub fn ray_color(
    rng: &mut ThreadRng,
    ray: &Ray,
    world: &World,
    materials: &Vec<Material>,
    remaining_depth: usize,
) -> (r: Color)
    requires
        world.wf(),
        forall|i: int| 0 <= i < materials@.len() ==> (#[trigger] materials@[i]).wf(),
        ray.bounded(),
    ensures
        is_fraction(r),
        remaining_depth == 0 ==> r.0.is_zero(),
        remaining_depth > 0 && !ray.direction.is_zero() && world.spec_hit(
            *ray,
            SHADOW_EPS as int,
            i64::MAX as int,
        ) is None ==> r == spec_background(ray.direction),
        remaining_depth > 0 && !ray.direction.is_zero() ==> (world.spec_hit(
            *ray,
            SHADOW_EPS as int,
            i64::MAX as int,
        ) matches Some(h) && h.material >= materials@.len() ==> r.0.is_zero()),
    decreases remaining_depth,
{
    if remaining_depth == 0 {
        return Color::black();
    }
    if ray.direction.approx_zero() {
        return Color::black();
    }
    match world.hit(ray, SHADOW_EPS, i64::MAX) {
        None => background(&ray.direction),
        Some(rec) => {
            if rec.material >= materials.len() {
                return Color::black();
            }
            match materials[rec.material].scatter(rng, ray, &rec) {
                Some(result) => {
                    let incoming = ray_color(
                        rng,
                        &result.scattered,
                        world,
                        materials,
                        remaining_depth - 1,
                    );
                    attenuate(&result.attenuation, &incoming)
                },
                None => Color::black(),
            }
        },
    }
}

} // verus!
