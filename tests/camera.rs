use ray_tracing_in_one_week_rust::arith::ONE;
use ray_tracing_in_one_week_rust::camera::Camera;
use ray_tracing_in_one_week_rust::vector3::{Point3, Vector3};

#[test]
fn default_camera_looks_down_negative_z() {
    let camera = Camera::default();
    assert_eq!(*camera.origin(), Point3::zero());
    assert_eq!(camera.w, Vector3::new_z(ONE));
    assert_eq!(camera.u, Vector3::new_x(ONE));
    assert_eq!(camera.v, Vector3::new_y(ONE));
    assert_eq!(camera.lens_radius, ONE / 2);
    let center = camera.ray_with(&Vector3::zero(), ONE / 2, ONE / 2);
    assert_eq!(*center.origin(), Point3::zero());
    assert_eq!(*center.direction(), Vector3::new_z(-ONE));
    let corner = camera.ray_with(&Vector3::zero(), 0, 0);
    assert_eq!(*corner.direction(), camera.lower_left_corner.as_vector());
}

#[test]
fn camera_rays_start_on_the_lens() {
    let mut rng = rand::thread_rng();
    let camera = Camera::new(
        Point3::new(13 * ONE, 2 * ONE, 3 * ONE),
        Point3::zero(),
        Vector3::new_y(ONE),
        11556,
        3 * ONE / 2,
        ONE / 10,
        10 * ONE,
    );
    for _ in 0..100 {
        let r = camera.ray(&mut rng, ONE / 2, ONE / 2);
        let off = r.origin().as_vector().minus(&camera.origin().as_vector());
        assert!(off.length() <= ONE / 20 + 2);
        let d = r.direction().unit_vector();
        let towards = Vector3::new(-13 * ONE, -2 * ONE, -3 * ONE).unit_vector();
        assert!(d.dot(&towards) > ONE - ONE / 100);
    }
}
