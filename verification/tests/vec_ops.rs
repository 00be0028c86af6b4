use raytracing::fixed::{mul_fx, div_fx, sqrt_fx, SCALE};
use raytracing::rng::{rng_from_seed, sample_fx};
use raytracing::vec::Vec3;

#[test]
fn t_fixed_mul_exact() {
    // 2.5 * 2.0 == 5.0
    assert_eq!(mul_fx(2_500_000_000, 2 * SCALE), 5 * SCALE);
    // tiny products truncate toward zero
    assert_eq!(mul_fx(1, 1), 0);
    assert_eq!(mul_fx(-1, 1), 0);
}

#[test]
fn t_fixed_div_exact() {
    // 1.0 / 2.0 == 0.5
    assert_eq!(div_fx(SCALE, 2 * SCALE), 500_000_000);
    // -1.0 / 3.0 truncates toward zero
    assert_eq!(div_fx(-SCALE, 3 * SCALE), -333_333_333);
}

#[test]
fn t_fixed_sqrt_exact() {
    assert_eq!(sqrt_fx(4 * SCALE), 2 * SCALE);
    assert_eq!(sqrt_fx(0), 0);
    // sqrt(2) to fixed precision
    assert_eq!(sqrt_fx(2 * SCALE), 1_414_213_562);
}

#[test]
fn t_vec_arithmetic() {
    let a = Vec3::new(SCALE, 2 * SCALE, 3 * SCALE);
    let b = Vec3::new(4 * SCALE, 5 * SCALE, 6 * SCALE);
    assert_eq!(a.add(b), Vec3::new(5 * SCALE, 7 * SCALE, 9 * SCALE));
    assert_eq!(b.sub(a), Vec3::new(3 * SCALE, 3 * SCALE, 3 * SCALE));
    assert_eq!(a.neg(), Vec3::new(-SCALE, -2 * SCALE, -3 * SCALE));
    assert_eq!(a.scale(2 * SCALE), Vec3::new(2 * SCALE, 4 * SCALE, 6 * SCALE));
    assert_eq!(a.mul(b), Vec3::new(4 * SCALE, 10 * SCALE, 18 * SCALE));
    assert_eq!(a.div(2 * SCALE), Vec3::new(500_000_000, SCALE, 1_500_000_000));
}

#[test]
fn t_vec_dot_cross() {
    let a = Vec3::new(SCALE, 0, 0);
    let b = Vec3::new(0, SCALE, 0);
    assert_eq!(a.dot(b), 0);
    assert_eq!(a.cross(b), Vec3::new(0, 0, SCALE));
    let c = Vec3::new(SCALE, 2 * SCALE, 3 * SCALE);
    let d = Vec3::new(4 * SCALE, 5 * SCALE, 6 * SCALE);
    // 1*4 + 2*5 + 3*6 == 32
    assert_eq!(c.dot(d), 32 * SCALE);
}

#[test]
fn t_length_of_three_four_zero() {
    let v = Vec3::new(3 * SCALE, 4 * SCALE, 0);
    assert_eq!(v.length_squared(), 25 * SCALE);
    assert_eq!(v.length(), 5 * SCALE);
}

#[test]
fn t_normalize_three_four_zero_is_unit() {
    // an exactly-representable case of the unit-length law
    let v = Vec3::new(3 * SCALE, 4 * SCALE, 0);
    let n = v.normalized();
    assert_eq!(n, Vec3::new(600_000_000, 800_000_000, 0));
    assert_eq!(n.length(), SCALE);
}

#[test]
fn t_normalize_ones_is_nearly_unit() {
    // a rounded case of the unit-length law: within tolerance of one
    let v = Vec3::new(SCALE, SCALE, SCALE);
    let n = v.normalized();
    let len = n.length();
    assert!((len - SCALE).abs() <= 100_000, "length {len}");
    let ls = n.length_squared();
    assert!((ls - SCALE).abs() <= 100_000, "length_squared {ls}");
}

#[test]
fn t_near_zero() {
    assert!(Vec3::new(0, 0, 0).near_zero());
    assert!(Vec3::new(9, -9, 5).near_zero());
    assert!(!Vec3::new(10, 0, 0).near_zero());
    assert!(!Vec3::new(0, 0, -10).near_zero());
}

#[test]
fn t_reflect_flips_normal_component() {
    // incoming down-right off a horizontal surface
    let v = Vec3::new(SCALE, -SCALE, 0);
    let n = Vec3::new(0, SCALE, 0);
    let r = v.reflect(n);
    assert_eq!(r, Vec3::new(SCALE, SCALE, 0));
    assert_eq!(r.dot(n), -v.dot(n));
}

#[test]
fn t_refract_straight_through() {
    // perpendicular incidence with matched indices passes unchanged
    let uv = Vec3::new(0, 0, -SCALE);
    let n = Vec3::new(0, 0, SCALE);
    let out = uv.refract(n, SCALE);
    assert_eq!(out, Vec3::new(0, 0, -SCALE));
}

#[test]
fn t_refract_bends_toward_surface() {
    // entering a denser medium bends the ray toward the normal
    let uv = Vec3::new(800_000_000, -600_000_000, 0).normalized();
    let n = Vec3::new(0, SCALE, 0);
    let out = uv.refract(n, 666_666_666);
    // the tangential component must shrink by the ratio
    assert!((out.x() - 533_333_332).abs() < 10, "tangential {}", out.x());
    assert!(out.y() < 0);
}

#[test]
fn t_format_color_channels() {
    let c = Vec3::new(SCALE, 250_000_000, 0);
    let (r, g, b) = c.format_color(1);
    assert_eq!(r, 255);
    assert_eq!(g, 128);
    assert_eq!(b, 0);
}

#[test]
fn t_format_color_averages_samples() {
    // four samples summing to 1.0 average to 0.25; gamma lifts it to 0.5
    let c = Vec3::new(SCALE, 0, 0);
    let (r, g, b) = c.format_color(4);
    assert_eq!(r, 128);
    assert_eq!(g, 0);
    assert_eq!(b, 0);
}

#[test]
fn t_sample_fx_stays_in_range() {
    let mut rng = rng_from_seed(11);
    for _ in 0..200 {
        let x = sample_fx(&mut rng, -5, 17);
        assert!((-5..17).contains(&x));
    }
}

#[test]
fn t_sample_fx_seeded_streams() {
    // the stream is a function of the seed alone
    let mut a = rng_from_seed(42);
    let mut b = rng_from_seed(42);
    let mut c = rng_from_seed(43);
    let xs: Vec<i64> = (0..64).map(|_| sample_fx(&mut a, 0, SCALE)).collect();
    let ys: Vec<i64> = (0..64).map(|_| sample_fx(&mut b, 0, SCALE)).collect();
    let zs: Vec<i64> = (0..64).map(|_| sample_fx(&mut c, 0, SCALE)).collect();
    assert_eq!(xs, ys);
    assert_ne!(xs, zs);
}

#[test]
fn t_random_in_unit_sphere_is_inside() {
    let mut rng = rng_from_seed(5);
    for _ in 0..50 {
        let v = Vec3::random_in_unit_sphere(&mut rng);
        let ls = v.length_squared();
        assert!(ls >= 1 && ls < SCALE, "length_squared {ls}");
    }
}

#[test]
fn t_random_in_unit_disk_is_flat() {
    let mut rng = rng_from_seed(6);
    for _ in 0..50 {
        let v = Vec3::random_in_unit_disk(&mut rng);
        assert_eq!(v.z(), 0);
        assert!(v.length_squared() < SCALE);
    }
}

#[test]
fn t_random_in_hemisphere_faces_normal() {
    let mut rng = rng_from_seed(7);
    let n = Vec3::new(0, 0, SCALE);
    for _ in 0..50 {
        let v = Vec3::random_in_hemisphere(&mut rng, n);
        assert!(v.dot(n) >= 0);
    }
}
