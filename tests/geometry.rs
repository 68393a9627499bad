use ray_tracing_in_one_week_rust::arith::ONE;
use ray_tracing_in_one_week_rust::bvh::aabb::AABB;
use ray_tracing_in_one_week_rust::bvh::node::{Node, Tree};
use ray_tracing_in_one_week_rust::camera::Camera;
use ray_tracing_in_one_week_rust::hit::HitRecord;
use ray_tracing_in_one_week_rust::hit_objects::{HitObject, HitObjects};
use ray_tracing_in_one_week_rust::moving_sphere::MovingSphere;
use ray_tracing_in_one_week_rust::ray::Ray;
use ray_tracing_in_one_week_rust::sphere::Sphere;
use ray_tracing_in_one_week_rust::vector3::{Point3, Vector3};
use rand::Rng;

fn unit_box() -> AABB {
    AABB::new(Point3::new(0, 0, 0), Point3::new(ONE, ONE, ONE))
}

#[test]
fn aabb_slab_hit_and_miss() {
    let b = unit_box();
    let inside = Ray::new(Point3::new(ONE / 2, ONE / 2, -ONE), Vector3::new_z(ONE), 0);
    assert!(b.hit(&inside, 0, 10 * ONE));
    let beside = Ray::new(Point3::new(2 * ONE, 2 * ONE, -ONE), Vector3::new_z(ONE), 0);
    assert!(!b.hit(&beside, 0, 10 * ONE));
}

#[test]
fn aabb_window_limits_the_hit() {
    let b = unit_box();
    let r = Ray::new(Point3::new(ONE / 2, ONE / 2, -ONE), Vector3::new_z(ONE), 0);
    assert!(!b.hit(&r, 0, ONE / 2));
    assert!(!b.hit(&r, 3 * ONE, 10 * ONE));
    assert!(!b.hit(&r, 5 * ONE, ONE));
    let back = Ray::new(Point3::new(ONE / 2, ONE / 2, 3 * ONE), Vector3::new_z(-ONE), 0);
    assert!(back.direction().z < 0);
    assert!(b.hit(&back, 0, 10 * ONE));
}

#[test]
fn aabb_tangent_corner_is_no_hit() {
    let b = unit_box();
    let r = Ray::new(Point3::new(0, 2 * ONE, ONE / 2), Vector3::new(ONE, -ONE, 0), 0);
    assert!(!b.hit(&r, 0, 10 * ONE));
    let through = Ray::new(Point3::new(0, 3 * ONE / 2, ONE / 2), Vector3::new(ONE, -ONE, 0), 0);
    assert!(b.hit(&through, 0, 10 * ONE));
}

#[test]
fn surrounding_box_contains_both_and_commutes() {
    let a = unit_box();
    let b = AABB::new(Point3::new(-ONE, 2 * ONE, ONE / 2), Point3::new(ONE / 2, 3 * ONE, 4 * ONE));
    let s = a.surrounding_box(&b);
    assert_eq!(*s.minimum(), Point3::new(-ONE, 0, 0));
    assert_eq!(*s.maximum(), Point3::new(ONE, 3 * ONE, 4 * ONE));
    assert_eq!(s, b.surrounding_box(&a));
}

fn sphere_at(x: i64, y: i64, z: i64, r: i64) -> HitObject {
    HitObject::Sphere(Sphere::new(Point3::new(x, y, z), r, 0))
}

#[test]
fn sphere_hit_at_center_from_outside() {
    let s = Sphere::new(Point3::new(0, 0, -5 * ONE), ONE, 3);
    let ray = Ray::new(Point3::zero(), Vector3::new_z(-ONE), 0);
    let h: HitRecord = s.hit(&ray, 0, i64::MAX).unwrap();
    assert_eq!(h.t(), 4 * ONE);
    assert_eq!(*h.point(), Point3::new(0, 0, -4 * ONE));
    assert_eq!(*h.normal(), Vector3::new_z(ONE));
    assert!(h.front_face());
    assert_eq!(h.material(), 3);
    let d = h.point().as_vector().minus(&s.center.as_vector());
    assert_eq!(d.length(), ONE);
}

#[test]
fn sphere_hit_from_inside_uses_far_root() {
    let s = Sphere::new(Point3::new(0, 0, 0), 2 * ONE, 0);
    let ray = Ray::new(Point3::zero(), Vector3::new_x(ONE), 0);
    let h = s.hit(&ray, 0, i64::MAX).unwrap();
    assert_eq!(h.t, 2 * ONE);
    assert!(!h.front_face);
    assert_eq!(h.normal, Vector3::new_x(-ONE));
}

#[test]
fn sphere_misses_and_window() {
    let s = Sphere::new(Point3::new(0, 3 * ONE, -5 * ONE), ONE, 0);
    let ray = Ray::new(Point3::zero(), Vector3::new_z(-ONE), 0);
    assert!(s.hit(&ray, 0, i64::MAX).is_none());
    let s2 = Sphere::new(Point3::new(0, 0, -5 * ONE), ONE, 0);
    assert!(s2.hit(&ray, 0, 3 * ONE).is_none());
    let zero = Ray::new(Point3::zero(), Vector3::zero(), 0);
    assert!(s2.hit(&zero, 0, i64::MAX).is_none());
}

#[test]
fn sphere_hits_land_on_surface() {
    let mut rng = rand::thread_rng();
    let s = Sphere::new(Point3::new(ONE, -2 * ONE, -6 * ONE), 2 * ONE, 0);
    for _ in 0..200 {
        let origin = Point3::new(rng.gen_range(-ONE..ONE), rng.gen_range(-ONE..ONE), rng.gen_range(-ONE..ONE));
        let dir = s.center.as_vector().minus(&origin.as_vector());
        let ray = Ray::new(origin, dir, 0);
        let h = s.hit(&ray, 0, i64::MAX).expect("a ray aimed at the center hits");
        let off = h.point().as_vector().minus(&s.center.as_vector());
        assert!((off.length() - 2 * ONE).abs() <= 4);
        assert!((h.normal().length() - ONE).abs() <= 4);
        assert!(h.front_face());
        assert!(h.normal().dot(ray.direction()) < 0);
    }
}

#[test]
fn sphere_bounding_box() {
    let s = Sphere::new(Point3::new(ONE, 2 * ONE, 3 * ONE), ONE, 0);
    let b = s.bounding_box();
    assert_eq!(*b.minimum(), Point3::new(0, ONE, 2 * ONE));
    assert_eq!(*b.maximum(), Point3::new(2 * ONE, 3 * ONE, 4 * ONE));
}

#[test]
fn linear_scan_finds_nearest() {
    let mut world = HitObjects::new();
    world.add(sphere_at(0, 0, -10 * ONE, ONE));
    world.add(sphere_at(0, 0, -5 * ONE, ONE));
    world.add(sphere_at(0, 0, -20 * ONE, ONE));
    let ray = Ray::new(Point3::zero(), Vector3::new_z(-ONE), 0);
    assert_eq!(world.hit(&ray, 0, i64::MAX).unwrap().t, 4 * ONE);
    world.clear();
    assert!(world.hit(&ray, 0, i64::MAX).is_none());
}

#[test]
fn scene_bounding_box() {
    assert!(HitObjects::new().bounding_box().is_none());
    let mut world = HitObjects::new_one(sphere_at(0, 0, 0, ONE));
    world.add(sphere_at(5 * ONE, 0, 0, 2 * ONE));
    let b = world.bounding_box().unwrap();
    assert_eq!(*b.minimum(), Point3::new(-ONE, -2 * ONE, -2 * ONE));
    assert_eq!(*b.maximum(), Point3::new(7 * ONE, 2 * ONE, 2 * ONE));
}

#[test]
fn indexing_from_camera_orders_by_distance() {
    let mut world = HitObjects::new();
    world.add(sphere_at(0, 0, -10 * ONE, ONE));
    world.add(sphere_at(0, 0, -3 * ONE, ONE));
    world.add(sphere_at(0, 0, -20 * ONE, ONE));
    let camera = Camera::default();
    world.indexing_from_camera(&camera);
    let zs: Vec<i64> = world
        .objects
        .iter()
        .map(|o| match o {
            HitObject::Sphere(s) => s.center.z(),
        })
        .collect();
    assert_eq!(zs, vec![-3 * ONE, -10 * ONE, -20 * ONE]);
    assert_eq!(world.objects[0].nearest_squared(&Point3::zero()), 8 * ONE);
    assert_eq!(world.objects[0].farest_squared(&Point3::zero()), 10 * ONE);
}

fn random_scene(rng: &mut rand::rngs::ThreadRng, n: usize) -> Vec<HitObject> {
    (0..n)
        .map(|_| {
            sphere_at(
                rng.gen_range(-20 * ONE..20 * ONE),
                rng.gen_range(-20 * ONE..20 * ONE),
                rng.gen_range(-20 * ONE..20 * ONE),
                rng.gen_range(ONE / 4..3 * ONE),
            )
        })
        .collect()
}

#[test]
fn bvh_matches_linear_scan() {
    let mut rng = rand::thread_rng();
    for n in [1usize, 2, 3, 7, 50] {
        let objects = random_scene(&mut rng, n);
        let node = Node::new(&mut rng, &objects).unwrap();
        assert_eq!(node.len(), n);
        let mut world = HitObjects::new();
        for o in &objects {
            world.add(*o);
        }
        let mut hits = 0;
        for _ in 0..300 {
            let origin = Point3::new(
                rng.gen_range(-30 * ONE..30 * ONE),
                rng.gen_range(-30 * ONE..30 * ONE),
                rng.gen_range(-30 * ONE..30 * ONE),
            );
            let dir = Vector3::new(
                rng.gen_range(-ONE..ONE),
                rng.gen_range(-ONE..ONE),
                rng.gen_range(-ONE..ONE),
            );
            let ray = Ray::new(origin, dir, 0);
            let a = node.hit(&ray, 66, i64::MAX).map(|h| h.t);
            let b = world.hit(&ray, 66, i64::MAX).map(|h| h.t);
            assert_eq!(a, b);
            if a.is_some() {
                hits += 1;
            }
        }
        if n == 50 {
            assert!(hits > 0);
        }
    }
}

#[test]
fn bvh_box_surrounds_every_object() {
    let mut rng = rand::thread_rng();
    let objects = random_scene(&mut rng, 20);
    let node = Node::new(&mut rng, &objects).unwrap();
    let b = node.bounding_box().unwrap();
    for o in &objects {
        let ob = o.bounding_box().unwrap();
        assert_eq!(b.surrounding_box(&ob), b);
    }
}

#[test]
fn bvh_build_sorts_before_splitting() {
    let mut rng = rand::thread_rng();
    let objects = vec![
        sphere_at(10 * ONE, 10 * ONE, 10 * ONE, ONE),
        sphere_at(0, 0, 0, ONE),
        sphere_at(5 * ONE, 5 * ONE, 5 * ONE, ONE),
    ];
    for _ in 0..20 {
        let node = Node::new(&mut rng, &objects).unwrap();
        match &node.left {
            Tree::Node(n) => {
                assert_eq!(n.len(), 1);
                assert_eq!(n.bbox, objects[1].bounding_box().unwrap());
            }
            Tree::Leaf(_) => panic!("three objects split into two subtrees"),
        }
        let two = Node::new(&mut rng, &objects[0..2]).unwrap();
        match &two.left {
            Tree::Leaf(o) => assert_eq!(o.bounding_box(), objects[1].bounding_box()),
            Tree::Node(_) => panic!("two objects become two leaves"),
        }
    }
}

#[test]
fn moving_sphere_interpolates_center() {
    let m = MovingSphere::new(
        Point3::new(0, 0, -5 * ONE),
        Point3::new(4 * ONE, 0, -5 * ONE),
        ONE,
        0,
        ONE,
        0,
    );
    assert_eq!(m.center(0), Point3::new(0, 0, -5 * ONE));
    assert_eq!(m.center(ONE / 2), Point3::new(2 * ONE, 0, -5 * ONE));
    assert_eq!(m.center(ONE), Point3::new(4 * ONE, 0, -5 * ONE));
    let early = Ray::new(Point3::zero(), Vector3::new_z(-ONE), 0);
    assert_eq!(m.hit(&early, 0, i64::MAX).unwrap().t, 4 * ONE);
    let late = Ray::new(Point3::zero(), Vector3::new_z(-ONE), ONE);
    assert!(m.hit(&late, 0, i64::MAX).is_none());
    let b = m.bounding_box();
    assert_eq!(*b.minimum(), Point3::new(-ONE, -ONE, -6 * ONE));
    assert_eq!(*b.maximum(), Point3::new(5 * ONE, ONE, -4 * ONE));
}
