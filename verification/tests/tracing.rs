use raytracing::camera::Camera;
use raytracing::fixed::SCALE;
use raytracing::hit::{HitRecord, World};
use raytracing::material::{Dielectric, Lambertian, Material, Metal};
use raytracing::ray::Ray;
use raytracing::rng::rng_from_seed;
use raytracing::sphere::Sphere;
use raytracing::tracer::{random_scene, ray_color, render};
use raytracing::vec::Vec3;

fn front_record(mat: Material) -> HitRecord {
    HitRecord {
        p: Vec3::new(0, 0, -SCALE),
        normal: Vec3::new(0, 0, SCALE),
        mat,
        t: SCALE,
        front_face: true,
    }
}

#[test]
fn t_lambertian_always_scatters() {
    let albedo = Vec3::new(300_000_000, 0, 0);
    let mat = Material::Lambertian(Lambertian::new(albedo));
    let rec = front_record(mat);
    let r_in = Ray::new(Vec3::new(0, 0, 0), Vec3::new(0, 0, -SCALE));
    let mut rng = rng_from_seed(9);
    for _ in 0..20 {
        let (attenuation, scattered) = mat.scatter(&r_in, &rec, &mut rng).expect("diffuse");
        assert_eq!(attenuation, albedo);
        assert_eq!(scattered.origin(), rec.p);
        // the bounce leans toward the normal's side
        assert!(scattered.direction().dot(rec.normal) > -SCALE);
    }
}

#[test]
fn t_metal_mirror_reflection() {
    let albedo = Vec3::new(700_000_000, 600_000_000, 500_000_000);
    let mat = Material::Metal(Metal::new(albedo, 0));
    let rec = HitRecord {
        p: Vec3::new(0, 0, 0),
        normal: Vec3::new(0, SCALE, 0),
        mat,
        t: SCALE,
        front_face: true,
    };
    let r_in = Ray::new(Vec3::new(-SCALE, SCALE, 0), Vec3::new(SCALE, -SCALE, 0));
    let mut rng = rng_from_seed(10);
    let (attenuation, scattered) = mat.scatter(&r_in, &rec, &mut rng).expect("reflects");
    assert_eq!(attenuation, albedo);
    let d = scattered.direction();
    // mirrored about the horizontal surface: equal x and y, no z
    assert_eq!(d.x(), d.y());
    assert_eq!(d.z(), 0);
    assert!(d.dot(rec.normal) > 0);
}

#[test]
fn t_metal_absorbs_wrong_side() {
    // a fuzz-free metal hit exactly edge-on reflects into the surface
    let mat = Material::Metal(Metal::new(Vec3::new(SCALE, SCALE, SCALE), 0));
    let rec = HitRecord {
        p: Vec3::new(0, 0, 0),
        normal: Vec3::new(0, SCALE, 0),
        mat,
        t: SCALE,
        front_face: true,
    };
    // incoming parallel to the surface: the reflection cannot clear it
    let r_in = Ray::new(Vec3::new(-SCALE, 0, 0), Vec3::new(SCALE, 0, 0));
    let mut rng = rng_from_seed(11);
    assert!(mat.scatter(&r_in, &rec, &mut rng).is_none());
}

#[test]
fn t_dielectric_straight_through() {
    // perpendicular incidence with matched indices: never total internal
    // reflection, zero reflectance, so the ray always refracts straight on
    let mat = Material::Dielectric(Dielectric::new(SCALE));
    let rec = front_record(mat);
    let r_in = Ray::new(Vec3::new(0, 0, 0), Vec3::new(0, 0, -SCALE));
    let mut rng = rng_from_seed(12);
    for _ in 0..20 {
        let (attenuation, scattered) = mat.scatter(&r_in, &rec, &mut rng).expect("glass");
        assert_eq!(attenuation, Vec3::new(SCALE, SCALE, SCALE));
        assert_eq!(scattered.direction(), Vec3::new(0, 0, -SCALE));
    }
}

#[test]
fn t_dielectric_grazing_always_reflects() {
    // at a fully grazing front hit the Schlick reflectance reaches one,
    // so the draw can never win: the ray is always mirrored
    let mat = Material::Dielectric(Dielectric::new(4 * SCALE));
    let rec = HitRecord {
        p: Vec3::new(0, 0, 0),
        normal: Vec3::new(0, SCALE, 0),
        mat,
        t: SCALE,
        front_face: true,
    };
    let r_in = Ray::new(Vec3::new(-SCALE, 0, 0), Vec3::new(SCALE, 0, 0));
    let mut rng = rng_from_seed(21);
    for _ in 0..20 {
        let (_, scattered) = mat.scatter(&r_in, &rec, &mut rng).expect("glass");
        assert_eq!(scattered.direction(), Vec3::new(SCALE, 0, 0));
    }
}

#[test]
fn t_dielectric_small_mismatch_refracts() {
    // perpendicular incidence with a small index mismatch: total internal
    // reflection is impossible, and the reflectance is so small that the
    // ray refracts essentially always
    let mat = Material::Dielectric(Dielectric::new(1_100_000_000));
    let rec = front_record(mat);
    let r_in = Ray::new(Vec3::new(0, 0, 0), Vec3::new(0, 0, -SCALE));
    let mut rng = rng_from_seed(22);
    let mut refracted = 0;
    for _ in 0..50 {
        let (_, scattered) = mat.scatter(&r_in, &rec, &mut rng).expect("glass");
        if scattered.direction().z() < 0 {
            refracted += 1;
        }
    }
    assert!(refracted >= 1, "never refracted");
}

#[test]
fn t_dielectric_total_internal_reflection() {
    // leaving glass at a grazing angle: sin(theta) * 1.5 > 1 forces a
    // mirror reflection, deterministically
    let mat = Material::Dielectric(Dielectric::new(1_500_000_000));
    let rec = HitRecord {
        p: Vec3::new(0, 0, 0),
        normal: Vec3::new(0, SCALE, 0),
        mat,
        t: SCALE,
        front_face: false,
    };
    let r_in = Ray::new(
        Vec3::new(-800_000_000, 600_000_000, 0),
        Vec3::new(800_000_000, -600_000_000, 0),
    );
    let mut rng = rng_from_seed(13);
    let (_, scattered) = mat.scatter(&r_in, &rec, &mut rng).expect("glass");
    assert_eq!(scattered.direction(), Vec3::new(800_000_000, 600_000_000, 0));
}

#[test]
fn t_depth_zero_is_black() {
    let mut w = World::new();
    w.push(Sphere::new(
        Vec3::new(0, 0, -SCALE),
        500_000_000,
        Material::Lambertian(Lambertian::new(Vec3::new(300_000_000, 0, 0))),
    ));
    let r = Ray::new(Vec3::new(0, 0, 0), Vec3::new(0, 0, -SCALE));
    let mut rng = rng_from_seed(14);
    assert_eq!(ray_color(&r, &w, 0, &mut rng), Vec3::new(0, 0, 0));
}

#[test]
fn t_miss_gives_sky_gradient() {
    let w = World::new();
    let mut rng = rng_from_seed(15);
    // straight up: pure sky blue
    let up = Ray::new(Vec3::new(0, 0, 0), Vec3::new(0, SCALE, 0));
    assert_eq!(
        ray_color(&up, &w, 5, &mut rng),
        Vec3::new(500_000_000, 700_000_000, SCALE)
    );
    // straight down: pure white
    let down = Ray::new(Vec3::new(0, 0, 0), Vec3::new(0, -SCALE, 0));
    assert_eq!(
        ray_color(&down, &w, 5, &mut rng),
        Vec3::new(SCALE, SCALE, SCALE)
    );
}

#[test]
fn t_absorbed_bounce_is_black() {
    // edge-on metal: the single bounce is absorbed, so the path is black
    let mut w = World::new();
    w.push(Sphere::new(
        Vec3::new(0, -SCALE, 0),
        SCALE,
        Material::Metal(Metal::new(Vec3::new(SCALE, SCALE, SCALE), 0)),
    ));
    let r = Ray::new(Vec3::new(-2 * SCALE, 0, 0), Vec3::new(SCALE, 0, 0));
    let mut rng = rng_from_seed(16);
    assert_eq!(ray_color(&r, &w, 5, &mut rng), Vec3::new(0, 0, 0));
}

#[test]
fn t_random_scene_shape() {
    let mut rng = rng_from_seed(17);
    let w = random_scene(&mut rng);
    let n = w.spheres.len();
    assert!((6..=490).contains(&n), "scene has {n} spheres");
    // the gray ground sphere comes first
    assert_eq!(w.spheres[0].center, Vec3::new(0, -1000 * SCALE, 0));
    assert_eq!(w.spheres[0].radius, 1000 * SCALE);
    match w.spheres[0].mat {
        Material::Lambertian(l) => {
            assert_eq!(l.albedo, Vec3::new(500_000_000, 500_000_000, 500_000_000))
        },
        _ => panic!("ground must be diffuse"),
    }
    // the five feature spheres come last; the hollow pair shares one
    // glass at the same center, the inner shell with a negative radius
    assert_eq!(w.spheres[n - 5].center, Vec3::new(-4 * SCALE, SCALE, 0));
    assert_eq!(w.spheres[n - 4].center, Vec3::new(-8 * SCALE, SCALE, 0));
    assert_eq!(w.spheres[n - 3].center, Vec3::new(0, SCALE, 0));
    assert_eq!(w.spheres[n - 2].center, Vec3::new(4 * SCALE, SCALE, 0));
    assert_eq!(w.spheres[n - 1].center, Vec3::new(4 * SCALE, SCALE, 0));
    assert_eq!(w.spheres[n - 2].radius, SCALE);
    assert_eq!(w.spheres[n - 1].radius, -800_000_000);
    for p in [n - 5, n - 2, n - 1] {
        match w.spheres[p].mat {
            Material::Dielectric(d) => assert_eq!(d.index_of_refraction, 1_500_000_000),
            _ => panic!("expected glass at {p}"),
        }
    }
    // every grid sphere is small and clear of the hollow pair
    for q in 1..n - 5 {
        assert_eq!(w.spheres[q].radius, 200_000_000);
        let offset = w.spheres[q]
            .center
            .sub(Vec3::new(4 * SCALE, 200_000_000, 0));
        assert!(offset.length() > 900_000_000);
    }
}

#[test]
fn t_demo_scene_renders() {
    // the full demonstration scene, viewed as the driver frames it, at a
    // thumbnail size: every pixel comes back, and the sky lights the top
    let mut rng = rng_from_seed(19);
    let w = random_scene(&mut rng);
    let cam = Camera::new(
        Vec3::new(13 * SCALE, 2 * SCALE, 3 * SCALE),
        Vec3::new(0, 0, 0),
        Vec3::new(0, SCALE, 0),
        176_326_980,
        1_777_777_777,
        100_000_000,
        10 * SCALE,
    );
    let pixels = render(&w, &cam, 8, 4, 1, 3, &mut rng);
    assert_eq!(pixels.len(), 32);
    let (_, _, b) = pixels[3];
    assert!(b > 100, "sky too dark: {b}");
}

fn golden_world() -> World {
    let mut w = World::new();
    w.push(Sphere::new(
        Vec3::new(0, 0, -SCALE),
        500_000_000,
        Material::Lambertian(Lambertian::new(Vec3::new(300_000_000, 0, 0))),
    ));
    w.push(Sphere::new(
        Vec3::new(0, -1_000_500_000_000, 0),
        1000 * SCALE,
        Material::Lambertian(Lambertian::new(Vec3::new(500_000_000, 500_000_000, 0))),
    ));
    w
}

fn golden_camera() -> Camera {
    Camera::new(
        Vec3::new(0, 0, 0),
        Vec3::new(0, 0, -SCALE),
        Vec3::new(0, SCALE, 0),
        SCALE,
        1_818_181_818,
        0,
        SCALE,
    )
}

#[test]
fn t_golden_image_is_deterministic() {
    // a fixed-seed low-resolution render is a pure function of the seed
    let w = golden_world();
    let cam = golden_camera();
    let mut rng1 = rng_from_seed(7);
    let first = render(&w, &cam, 40, 22, 2, 5, &mut rng1);
    let mut rng2 = rng_from_seed(7);
    let second = render(&w, &cam, 40, 22, 2, 5, &mut rng2);
    assert_eq!(first.len(), 40 * 22);
    assert_eq!(first, second);
    // the top row sees sky: blue dominates
    let (r0, g0, b0) = first[0];
    assert!(b0 >= g0 && g0 >= r0 && b0 > 200, "top-left {:?}", (r0, g0, b0));
    // some pixel in the lower half differs from the sky: the scene is seen
    let lower = &first[40 * 15..];
    assert!(lower.iter().any(|&(r, _, b)| r > b || b < 200));
}
