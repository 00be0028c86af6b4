use raytracing::camera::Camera;
use raytracing::fixed::SCALE;
use raytracing::hit::World;
use raytracing::material::{Lambertian, Material};
use raytracing::ray::Ray;
use raytracing::rng::rng_from_seed;
use raytracing::sphere::Sphere;
use raytracing::vec::Vec3;

fn gray() -> Material {
    Material::Lambertian(Lambertian::new(Vec3::new(
        500_000_000,
        500_000_000,
        500_000_000,
    )))
}

#[test]
fn t_ray_at_parameter() {
    let r = Ray::new(
        Vec3::new(SCALE, 2 * SCALE, 3 * SCALE),
        Vec3::new(0, 0, -SCALE),
    );
    assert_eq!(r.at(2 * SCALE), Vec3::new(SCALE, 2 * SCALE, SCALE));
    assert_eq!(r.at(0), r.origin());
}

#[test]
fn t_sphere_head_on_hit() {
    // from distance 2 straight at a radius-1/2 sphere: t == d - r == 3/2,
    // front face, normal straight back along the ray
    let s = Sphere::new(Vec3::new(0, 0, 0), 500_000_000, gray());
    let r = Ray::new(Vec3::new(0, 0, 2 * SCALE), Vec3::new(0, 0, -SCALE));
    let rec = s.hit(&r, 1_000_000, 100 * SCALE).expect("must hit");
    assert_eq!(rec.t, 1_500_000_000);
    assert_eq!(rec.p, Vec3::new(0, 0, 500_000_000));
    assert_eq!(rec.normal, Vec3::new(0, 0, SCALE));
    assert!(rec.front_face);
}

#[test]
fn t_sphere_perpendicular_miss() {
    // perpendicular offset 1.5 exceeds the radius 1: no hit at all
    let s = Sphere::new(Vec3::new(0, 0, 0), SCALE, gray());
    let r = Ray::new(
        Vec3::new(0, 1_500_000_000, 2 * SCALE),
        Vec3::new(0, 0, -SCALE),
    );
    assert!(s.hit(&r, 1_000_000, 100 * SCALE).is_none());
}

#[test]
fn t_sphere_hit_from_inside() {
    // from the center, the nearer root is behind: the far root is taken,
    // and the normal is flipped onto the back face
    let s = Sphere::new(Vec3::new(0, 0, 0), SCALE, gray());
    let r = Ray::new(Vec3::new(0, 0, 0), Vec3::new(0, 0, -SCALE));
    let rec = s.hit(&r, 1_000_000, 100 * SCALE).expect("must hit");
    assert_eq!(rec.t, SCALE);
    assert!(!rec.front_face);
    assert_eq!(rec.normal, Vec3::new(0, 0, SCALE));
}

#[test]
fn t_sphere_window_excludes_hit() {
    let s = Sphere::new(Vec3::new(0, 0, 0), 500_000_000, gray());
    let r = Ray::new(Vec3::new(0, 0, 2 * SCALE), Vec3::new(0, 0, -SCALE));
    // both roots (1.5 and 2.5) lie beyond the window
    assert!(s.hit(&r, 1_000_000, SCALE).is_none());
}

#[test]
fn t_world_nearest_hit_wins() {
    // two overlapping spheres on the axis: the nearer surface resolves
    let red = Material::Lambertian(Lambertian::new(Vec3::new(900_000_000, 0, 0)));
    let a = Sphere::new(Vec3::new(0, 0, -SCALE), 500_000_000, red);
    let b = Sphere::new(Vec3::new(0, 0, -2 * SCALE), 1_200_000_000, gray());
    let r = Ray::new(Vec3::new(0, 0, 0), Vec3::new(0, 0, -SCALE));

    let mut w1 = World::new();
    w1.push(a);
    w1.push(b);
    let rec1 = w1.hit(&r, 1_000_000, 100 * SCALE).expect("must hit");
    assert_eq!(rec1.t, 500_000_000);

    // insertion order must not matter
    let mut w2 = World::new();
    w2.push(b);
    w2.push(a);
    let rec2 = w2.hit(&r, 1_000_000, 100 * SCALE).expect("must hit");
    assert_eq!(rec2.t, 500_000_000);
    match rec2.mat {
        Material::Lambertian(l) => assert_eq!(l.albedo, Vec3::new(900_000_000, 0, 0)),
        _ => panic!("wrong material"),
    }
}

#[test]
fn t_world_empty_misses() {
    let w = World::new();
    let r = Ray::new(Vec3::new(0, 0, 0), Vec3::new(0, 0, -SCALE));
    assert!(w.hit(&r, 1_000_000, 100 * SCALE).is_none());
}

#[test]
fn t_camera_pinhole_center_ray() {
    // a square 90-degree pinhole camera at the origin looking down -z:
    // the center of the image maps to the axis, exactly
    let cam = Camera::new(
        Vec3::new(0, 0, 0),
        Vec3::new(0, 0, -SCALE),
        Vec3::new(0, SCALE, 0),
        SCALE,
        SCALE,
        0,
        SCALE,
    );
    let mut rng = rng_from_seed(1);
    let r = cam.get_ray(500_000_000, 500_000_000, &mut rng);
    assert_eq!(r.origin(), Vec3::new(0, 0, 0));
    assert_eq!(r.direction(), Vec3::new(0, 0, -SCALE));
}

#[test]
fn t_camera_pinhole_corner_ray() {
    let cam = Camera::new(
        Vec3::new(0, 0, 0),
        Vec3::new(0, 0, -SCALE),
        Vec3::new(0, SCALE, 0),
        SCALE,
        SCALE,
        0,
        SCALE,
    );
    let mut rng = rng_from_seed(1);
    let r = cam.get_ray(0, 0, &mut rng);
    assert_eq!(r.direction(), Vec3::new(-SCALE, -SCALE, -SCALE));
}

#[test]
fn t_camera_aperture_offsets_origin() {
    // with a wide aperture and a lens sample, the origin shifts inside
    // the lens disk but the ray still targets the focus plane
    let cam = Camera::new(
        Vec3::new(0, 0, 0),
        Vec3::new(0, 0, -SCALE),
        Vec3::new(0, SCALE, 0),
        SCALE,
        SCALE,
        2 * SCALE,
        SCALE,
    );
    let mut rng = rng_from_seed(3);
    let r = cam.get_ray(500_000_000, 500_000_000, &mut rng);
    let o = r.origin();
    assert!(o.x().abs() < SCALE && o.y().abs() < SCALE);
    assert_eq!(o.z(), 0);
    // origin plus direction reaches the image point on the focus plane
    let tip = r.at(SCALE);
    assert!(tip.x().abs() <= 1 && tip.y().abs() <= 1);
    assert_eq!(tip.z(), -SCALE);
}
