use ray_tracing_in_one_week_rust::arith::ONE;
use ray_tracing_in_one_week_rust::bvh::node::Node;
use ray_tracing_in_one_week_rust::hit::HitRecord;
use ray_tracing_in_one_week_rust::hit_objects::{HitObject, HitObjects};
use ray_tracing_in_one_week_rust::material::dielectric::Dielectric;
use ray_tracing_in_one_week_rust::material::lambertian::Lambertian;
use ray_tracing_in_one_week_rust::material::metal::Metal;
use ray_tracing_in_one_week_rust::material::{Material, ScatterResult};
use ray_tracing_in_one_week_rust::ray::Ray;
use ray_tracing_in_one_week_rust::render::{background, ray_color, World, SKY_B, SKY_G, SKY_R};
use ray_tracing_in_one_week_rust::sphere::Sphere;
use ray_tracing_in_one_week_rust::texture::SolidColor;
use ray_tracing_in_one_week_rust::vector3::{Color, Point3, Vector3};

fn floor_record() -> HitRecord {
    let incoming = Ray::new(Point3::new(-ONE, ONE, 0), Vector3::new(ONE, -ONE, 0), 0);
    HitRecord::new(Point3::zero(), ONE, Vector3::new_y(ONE), &incoming, 0)
}

#[test]
fn record_faces_the_ray() {
    let incoming = Ray::new(Point3::new(0, -ONE, 0), Vector3::new_y(ONE), 0);
    let r = HitRecord::new(Point3::zero(), ONE, Vector3::new_y(ONE), &incoming, 2);
    assert!(!r.front_face());
    assert_eq!(*r.normal(), Vector3::new_y(-ONE));
    assert_eq!(r.t(), ONE);
    assert!(floor_record().front_face());
}

#[test]
fn depth_zero_is_black() {
    let mut rng = rand::thread_rng();
    let mut world = HitObjects::new();
    world.add(HitObject::Sphere(Sphere::new(Point3::new_z(-ONE), ONE / 2, 0)));
    let world = World::Objects(world);
    let materials = vec![Material::Lambertian(Lambertian::new(Color::new_all(ONE / 2)))];
    for d in [Vector3::new_z(-ONE), Vector3::new_y(ONE), Vector3::new(ONE, 3, -7)] {
        let ray = Ray::new(Point3::zero(), d, 0);
        assert_eq!(ray_color(&mut rng, &ray, &world, &materials, 0), Color::black());
    }
}

#[test]
fn background_gradient_endpoints() {
    let mut rng = rand::thread_rng();
    let world = World::Objects(HitObjects::new());
    let materials: Vec<Material> = Vec::new();
    let up = Ray::new(Point3::zero(), Vector3::new_y(ONE), 0);
    assert_eq!(ray_color(&mut rng, &up, &world, &materials, 5), Color::new(SKY_R, SKY_G, SKY_B));
    assert_eq!(SKY_R, ONE / 2);
    let down = Ray::new(Point3::zero(), Vector3::new_y(-ONE), 0);
    assert_eq!(ray_color(&mut rng, &down, &world, &materials, 5), Color::white());
    let level = background(&Vector3::new_x(ONE));
    assert_eq!(level, Color::new(49152, 55705, ONE));
}

#[test]
fn degenerate_ray_is_black() {
    let mut rng = rand::thread_rng();
    let world = World::Objects(HitObjects::new());
    let ray = Ray::new(Point3::zero(), Vector3::zero(), 0);
    assert_eq!(ray_color(&mut rng, &ray, &world, &Vec::new(), 5), Color::black());
}

#[test]
fn lit_scene_stays_in_range() {
    let mut rng = rand::thread_rng();
    let objects = vec![
        HitObject::Sphere(Sphere::new(Point3::new_y(-100 * ONE), 100 * ONE, 0)),
        HitObject::Sphere(Sphere::new(Point3::new_z(-ONE), ONE / 2, 1)),
        HitObject::Sphere(Sphere::new(Point3::new(-ONE, 0, -ONE), ONE / 2, 2)),
        HitObject::Sphere(Sphere::new(Point3::new(ONE, 0, -ONE), ONE / 2, 3)),
        HitObject::Sphere(Sphere::new(Point3::new(0, ONE, -ONE), ONE / 4, 9)),
    ];
    let materials = vec![
        Material::Lambertian(Lambertian::new(Color::new(ONE * 4 / 5, ONE * 4 / 5, 0))),
        Material::Lambertian(Lambertian::new_texture(SolidColor::new(Color::new(ONE / 10, ONE / 5, ONE / 2)))),
        Material::Dielectric(Dielectric::new(ONE * 3 / 2)),
        Material::Metal(Metal::new(Color::new(ONE * 4 / 5, ONE * 3 / 5, ONE / 5), 0)),
    ];
    let node = Node::new(&mut rng, &objects).unwrap();
    let world = World::Bvh(node);
    let mut lit = 0;
    for i in 0..100 {
        let dir = Vector3::new((i % 10 - 5) * ONE / 10, (i / 10 - 5) * ONE / 10, -ONE);
        let ray = Ray::new(Point3::zero(), dir, 0);
        let c = ray_color(&mut rng, &ray, &world, &materials, 10);
        for v in [c.r(), c.g(), c.b()] {
            assert!(0 <= v && v <= ONE);
        }
        if c != Color::black() {
            lit += 1;
        }
    }
    assert!(lit > 0);
    let towards_unlisted_material = Ray::new(Point3::zero(), Vector3::new(0, ONE, -ONE), 0);
    let c = ray_color(&mut rng, &towards_unlisted_material, &world, &materials, 10);
    assert_eq!(c, Color::black());
}

#[test]
fn lambertian_always_scatters_with_albedo() {
    let mut rng = rand::thread_rng();
    let m = Lambertian::new(Color::new(ONE / 2, ONE / 4, ONE));
    let rec = floor_record();
    let input = Ray::new(Point3::new(-ONE, ONE, 0), Vector3::new(ONE, -ONE, 0), 7);
    for _ in 0..100 {
        let s: ScatterResult = Material::Lambertian(m).scatter(&mut rng, &input, &rec).unwrap();
        assert_eq!(s.attenuation, Color::new(ONE / 2, ONE / 4, ONE));
        assert_eq!(*s.scattered.origin(), Point3::zero());
        assert_eq!(s.scattered.time(), 7);
        assert!(!s.scattered.direction().approx_zero());
    }
    let back = m.scatter_with(&input, &rec, &Vector3::new_y(-ONE));
    assert_eq!(*back.scattered.direction(), Vector3::new_y(ONE));
    let side = m.scatter_with(&input, &rec, &Vector3::new_x(ONE));
    assert_eq!(*side.scattered.direction(), Vector3::new(ONE, ONE, 0));
}

#[test]
fn metal_reflects_and_clamps_fuzz() {
    assert_eq!(Metal::new(Color::white(), 3 * ONE).fuzz, ONE);
    assert_eq!(Metal::new(Color::white(), -ONE).fuzz, 0);
    let m = Metal::new(Color::new_all(ONE / 2), 0);
    let rec = floor_record();
    let input = Ray::new(Point3::new(-ONE, ONE, 0), Vector3::new(ONE, -ONE, 0), 0);
    let s = m.scatter_with(&input, &rec, &Vector3::zero()).unwrap();
    assert_eq!(*s.scattered.direction(), Vector3::new(46341, 46342, 0));
    assert_eq!(s.attenuation, Color::new_all(ONE / 2));
}

#[test]
fn metal_with_full_fuzz_sometimes_absorbs() {
    let mut rng = rand::thread_rng();
    let m = Metal::new(Color::white(), ONE);
    let rec = floor_record();
    let grazing = Ray::new(Point3::new(-ONE, ONE / 100, 0), Vector3::new(ONE, -ONE / 100, 0), 0);
    let mut absorbed = 0;
    let mut scattered = 0;
    for _ in 0..2000 {
        match Material::Metal(m).scatter(&mut rng, &grazing, &rec) {
            Some(s) => {
                assert!(s.scattered.direction().dot(rec.normal()) >= 0);
                scattered += 1;
            }
            None => absorbed += 1,
        }
    }
    assert!(absorbed > 0);
    assert!(scattered > 0);
    let down = m.scatter_with(&grazing, &rec, &Vector3::new_y(-ONE));
    assert!(down.is_none());
    let up = m.scatter_with(&grazing, &rec, &Vector3::new_y(ONE));
    assert!(up.is_some());
}

#[test]
fn dielectric_passes_all_light() {
    let mut rng = rand::thread_rng();
    let glass = Dielectric::new(ONE * 3 / 2);
    let rec = floor_record();
    let inside = HitRecord::new(
        Point3::zero(),
        ONE,
        Vector3::new_y(ONE),
        &Ray::new(Point3::new(-ONE, -ONE, 0), Vector3::new(ONE, ONE, 0), 0),
        0,
    );
    let input = Ray::new(Point3::new(-ONE, ONE, 0), Vector3::new(ONE, -ONE, 0), 0);
    for _ in 0..200 {
        let s = Material::Dielectric(glass).scatter(&mut rng, &input, &rec).unwrap();
        assert_eq!(s.attenuation, Color::white());
        let t = glass.scatter(&mut rng, &input, &inside);
        assert_eq!(t.attenuation, Color::white());
    }
}

#[test]
fn dielectric_refracts_or_reflects_by_draw() {
    let glass = Dielectric::new(ONE * 3 / 2);
    let rec = floor_record();
    let straight = Ray::new(Point3::new_y(ONE), Vector3::new_y(-ONE), 0);
    let through = glass.scatter_with(&straight, &rec, ONE - 1);
    assert_eq!(*through.scattered.direction(), Vector3::new_y(-ONE));
    let mirrored = glass.scatter_with(&straight, &rec, 0);
    assert_eq!(*mirrored.scattered.direction(), Vector3::new_y(ONE));
    let inside = HitRecord::new(
        Point3::zero(),
        ONE,
        Vector3::new_y(ONE),
        &Ray::new(Point3::new(-ONE, -ONE / 10, 0), Vector3::new(ONE, ONE / 10, 0), 0),
        0,
    );
    let shallow = Ray::new(Point3::new(-ONE, -ONE / 10, 0), Vector3::new(ONE, ONE / 10, 0), 0);
    let total = glass.scatter_with(&shallow, &inside, ONE - 1);
    assert!(total.scattered.direction().y < 0);
}
