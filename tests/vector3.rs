use ray_tracing_in_one_week_rust::arith::{isqrt, ONE};
use ray_tracing_in_one_week_rust::vector3::{Color, Point3, Vector3};
use ray_tracing_in_one_week_rust::{degrees_to_radians, to_pixel_value, PI_FX};

#[test]
fn add_vec() {
    let v1 = Vector3::new(ONE, 0, 0);
    let v2 = Vector3::new(0, ONE, 0);

    assert_eq!(v1.plus(&v2), Vector3::new(ONE, ONE, 0))
}

#[test]
fn cross_dot() {
    let v1 = Vector3::new(ONE, 0, 0);
    let v2 = Vector3::new(0, ONE, 0);

    assert_eq!(v1.dot(&v2), 0);
    let v3 = v1.cross(&v2);
    assert_eq!(v1.dot(&v3), 0);
    assert_eq!(v2.dot(&v3), 0);
}

#[test]
fn cross_of_axes_is_third_axis() {
    let v3 = Vector3::new_x(ONE).cross(&Vector3::new_y(ONE));
    assert_eq!(v3, Vector3::new_z(ONE));
}

#[test]
fn dot_and_length() {
    let v = Vector3::new(3 * ONE, 4 * ONE, 0);
    assert_eq!(v.dot(&v), 25 * ONE);
    assert_eq!(v.length_squared(), 25 * ONE);
    assert_eq!(v.length(), 5 * ONE);
    assert_eq!(Vector3::new(ONE / 2, 0, 0).dot(&Vector3::new(ONE / 2, 0, 0)), ONE / 4);
}

#[test]
fn unit_vector_divides_by_length() {
    let u = Vector3::new(3 * ONE, 4 * ONE, 0).unit_vector();
    assert_eq!(u, Vector3::new(39321, 52428, 0));
    assert_eq!(Vector3::new(0, 0, -7).unit_vector(), Vector3::new(0, 0, -ONE));
}

#[test]
fn scalar_products_round_down() {
    let v = Vector3::new(3, -3, ONE);
    assert_eq!(v.mul_scalar(ONE / 2), Vector3::new(1, -2, ONE / 2));
    assert_eq!(v.div_scalar(2 * ONE), Vector3::new(1, -2, ONE / 2));
    assert_eq!(v.negate(), Vector3::new(-3, 3, -ONE));
    assert_eq!(v.minus(&v), Vector3::zero());
}

#[test]
fn hadamard_product_multiplies_channels() {
    let a = Vector3::new(ONE, ONE / 2, 0);
    let b = Vector3::new(ONE / 2, ONE / 2, ONE);
    assert_eq!(a.hadamard_product(&b), Vector3::new(ONE / 2, ONE / 4, 0));
}

#[test]
fn reflect_about_normal() {
    let v = Vector3::new(ONE, -ONE, 0);
    let n = Vector3::new_y(ONE);
    assert_eq!(v.reflect(&n), Vector3::new(ONE, ONE, 0));
}

#[test]
fn refract_with_equal_indices_goes_straight() {
    let v = Vector3::new(0, -ONE, 0);
    let n = Vector3::new_y(ONE);
    assert_eq!(v.refract(&n, ONE), Vector3::new(0, -ONE, 0));
}

#[test]
fn approx_zero_only_for_zero() {
    assert!(Vector3::zero().approx_zero());
    assert!(!Vector3::new(0, 1, 0).approx_zero());
    assert!(!Vector3::one().approx_zero());
}

#[test]
fn componentwise_sqrt() {
    let v = Vector3::new(ONE / 4, ONE, 4 * ONE);
    assert_eq!(v.sqrt(), Vector3::new(ONE / 2, ONE, 2 * ONE));
}

#[test]
fn integer_square_root() {
    assert_eq!(isqrt(0), 0);
    assert_eq!(isqrt(15), 3);
    assert_eq!(isqrt(16), 4);
    assert_eq!(isqrt(1 << 100), 1 << 50);
}

#[test]
fn random_vectors_stay_in_range() {
    let mut rng = rand::thread_rng();
    let mut seen_different = false;
    let first = Vector3::random(&mut rng);
    for _ in 0..200 {
        let v = Vector3::random_range(&mut rng, -5, 7);
        assert!(-5 <= v.x && v.x < 7 && -5 <= v.y && v.y < 7 && -5 <= v.z && v.z < 7);
        let w = Vector3::random(&mut rng);
        assert!(0 <= w.x && w.x < ONE);
        if w != first {
            seen_different = true;
        }
        let p = Vector3::random_in_unit_sphere(&mut rng);
        let d = (p.x as i128) * (p.x as i128) + (p.y as i128) * (p.y as i128) + (p.z as i128) * (p.z as i128);
        assert!(d < (ONE as i128) * (ONE as i128));
        let u = Vector3::random_unit_vector(&mut rng);
        assert!(u.x.abs() <= ONE && u.y.abs() <= ONE && u.z.abs() <= ONE);
        let l = u.length();
        assert!((l - ONE).abs() <= 8);
    }
    assert!(seen_different);
}

#[test]
fn points_and_colors() {
    let p = Point3::new(1, 2, 3);
    assert_eq!((p.x(), p.y(), p.z()), (1, 2, 3));
    assert_eq!(Point3::new_y(5), Point3::new(0, 5, 0));
    assert_eq!(Point3::zero().as_vector(), Vector3::zero());
    let c = Color::new(1, 2, 3);
    assert_eq!((c.r(), c.g(), c.b()), (1, 2, 3));
    assert_eq!(Color::white(), Color::new_all(ONE));
    assert_eq!(Color::black(), Color::new_all(0));
    assert_eq!(Color::red(), Color::new(ONE, 0, 0));
}

#[test]
fn pixel_values_clamp() {
    assert_eq!(to_pixel_value(-ONE), 0);
    assert_eq!(to_pixel_value(0), 0);
    assert_eq!(to_pixel_value(ONE / 2), 128);
    assert_eq!(to_pixel_value(ONE), 255);
    assert_eq!(to_pixel_value(10 * ONE), 255);
}

#[test]
fn degrees_to_radians_half_turn() {
    assert_eq!(degrees_to_radians(180 * ONE), PI_FX);
    assert_eq!(degrees_to_radians(90 * ONE), PI_FX / 2);
}
