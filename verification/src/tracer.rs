//! The path-tracing integrator and the rendering driver: a recursive
//! radiance estimate per ray, averaged over jittered samples per pixel.

use vstd::prelude::*;
use crate::camera::{Camera, CameraV, camera_wf, cam_ray, disk_sample};
use crate::fixed::{SCALE, fxmul, fxdiv, lemma_tdiv_mag};
use crate::hit::{HitV, World, world_wf, world_hit, lemma_world_wf_push};
use crate::material::{Material, Lambertian, Metal, Dielectric, mat_wf, color_ok, scatter_post};
use crate::ray::{Ray, RayV, ray_ok, PMAX, DMAX, TMAX};
use crate::sphere::{Sphere, SphereV, sphere_hit, sphere_hit_rec, sphere_hit_t};
use crate::vec::{
    Vec3, Color, V3, v3, v3_add, v3_sub, v3_scale, v3_mul, v3_len, v3_normalize, bounded,
    channel_value, lemma_mul_mag, NMAX,
};
use crate::rng::sample_fx;

verus! {

/// The positive offset at which bounced rays start, to avoid
/// self-intersection ("shadow acne"): one thousandth of a unit.
pub const T_ACNE: i64 = 1_000_000;

pub open spec fn black() -> V3 {
    v3(0, 0, 0)
}

/// A blend parameter clamped into `[0, 1]`.
pub open spec fn clamp01(x: int) -> int {
    if x < 0 {
        0
    } else if x > SCALE {
        SCALE as int
    } else {
        x
    }
}

/// The background gradient: white at the horizon blending to sky blue
/// upward, by the normalized direction's height. The blend parameter is
/// clamped into `[0, 1]` (fixed-point unit vectors may overshoot by a few
/// quanta).
pub open spec fn sky_color(dir: V3) -> V3 {
    let yv = v3_normalize(dir).y;
    let t = clamp01(fxmul(yv + SCALE, 500_000_000));
    let white = v3(SCALE as int, SCALE as int, SCALE as int);
    let blue = v3(500_000_000, 700_000_000, 1_000_000_000);
    v3_add(v3_scale(white, SCALE - t), v3_scale(blue, t))
}

/// How the returned radiance relates to the ray, the scene and the depth
/// budget: zero at an exhausted budget or an out-of-range ray; the sky
/// gradient on a miss; otherwise the scattered outcome (for the sample the
/// material drew), attenuated into the recursive estimate.
pub open spec fn ray_color_rel(r: RayV, spheres: Seq<Sphere>, depth: nat, out: V3) -> bool
    decreases depth,
{
    if depth == 0 || !ray_ok(r) {
        out == black()
    } else {
        match world_hit(spheres, r, T_ACNE as int, TMAX as int) {
            None => out == sky_color(r.dir),
            Some(rec) => exists|w: (Option<(Color, Ray)>, V3)|
                {
                    &&& #[trigger] scatter_post(rec.mat, r, rec, w.0)
                    &&& match w.0 {
                        None => out == black(),
                        Some(pair) => {
                            &&& ray_color_rel(pair.1@, spheres, (depth - 1) as nat, w.1)
                            &&& color_ok(w.1)
                            &&& out == v3_mul(pair.0@, w.1)
                        },
                    }
                },
        }
    }
}

/// Check that a ray lies within the caps the intersection arithmetic
/// accepts; out-of-range bounces are treated as absorbed.
fn ray_in_range(r: &Ray) -> (ok: bool)
    ensures
        ok == ray_ok(r@),
{
    let o = r.origin();
    let d = r.direction();
    let in_box = -PMAX <= o.x() && o.x() <= PMAX && -PMAX <= o.y() && o.y() <= PMAX && -PMAX
        <= o.z() && o.z() <= PMAX && -DMAX <= d.x() && d.x() <= DMAX && -DMAX <= d.y() && d.y()
        <= DMAX && -DMAX <= d.z() && d.z() <= DMAX;
    if !in_box {
        return false;
    }
    let ls = d.dot(d);
    ls >= 1
}

/// The recursive radiance estimate for one ray: exactly `ray_color_rel`,
/// always a physical color, and pitch black once the depth budget is
/// exhausted.
pub fn ray_color(r: &Ray, world: &World, depth: u64, rng: &mut rand::rngs::StdRng) -> (out: Color)
    requires
        world_wf(world.spheres@),
    ensures
        ray_color_rel(r@, world.spheres@, depth as nat, out@),
        color_ok(out@),
        depth == 0 ==> out@ == black(),
    decreases depth,
{
    if depth == 0 {
        return Vec3::new(0, 0, 0);
    }
    if !ray_in_range(r) {
        return Vec3::new(0, 0, 0);
    }
    let h = world.hit(r, T_ACNE, TMAX);
    match h {
        Some(rec) => {
            proof {
                let i = choose|i: int|
                    0 <= i < world.spheres@.len() && sphere_hit(
                        #[trigger] world.spheres@[i]@,
                        r@,
                        T_ACNE as int,
                        TMAX as int,
                    ) == Some(rec@);
                assert(mat_wf(rec@.mat) && bounded(rec@.normal, NMAX as int)) by {
                    assert(sphere_hit(world.spheres@[i]@, r@, T_ACNE as int, TMAX as int)
                        == Some(rec@));
                    assert(rec@ == sphere_hit_rec(
                        world.spheres@[i]@,
                        r@,
                        sphere_hit_t(world.spheres@[i]@, r@, T_ACNE as int, TMAX as int)->Some_0,
                    ));
                }
            }
            let sc = rec.mat.scatter(r, &rec, rng);
            match sc {
                Some((attenuation, scattered)) => {
                    let child = ray_color(&scattered, world, depth - 1, rng);
                    proof {
                        lemma_attenuation_ok(rec@.mat, r@, rec@, sc);
                        let s = SCALE as int;
                        lemma_mul_mag(attenuation@.x, child@.x, s, s);
                        lemma_mul_mag(attenuation@.y, child@.y, s, s);
                        lemma_mul_mag(attenuation@.z, child@.z, s, s);
                        lemma_tdiv_mag(attenuation@.x * child@.x, s, s);
                        lemma_tdiv_mag(attenuation@.y * child@.y, s, s);
                        lemma_tdiv_mag(attenuation@.z * child@.z, s, s);
                        lemma_color_mul_ok(attenuation@, child@);
                    }
                    let out = attenuation.mul(child);
                    proof {
                        let ghost spheres = world.spheres@;
                        let ghost dnat = depth as nat;
                        let ghost w = (sc, child@);
                        assert(world_hit(spheres, r@, T_ACNE as int, TMAX as int) == Some(rec@));
                        assert(w.0->Some_0.1@ == scattered@ && w.0->Some_0.0@ == attenuation@);
                        assert(scatter_post(rec@.mat, r@, rec@, w.0) && (ray_color_rel(
                            w.0->Some_0.1@,
                            spheres,
                            (dnat - 1) as nat,
                            w.1,
                        ) && color_ok(w.1) && out@ == v3_mul(w.0->Some_0.0@, w.1)));
                        assert(ray_color_rel(r@, spheres, dnat, out@));
                    }
                    out
                },
                None => {
                    let out = Vec3::new(0, 0, 0);
                    proof {
                        let ghost spheres = world.spheres@;
                        let ghost dnat = depth as nat;
                        let ghost w = (sc, black());
                        assert(world_hit(spheres, r@, T_ACNE as int, TMAX as int) == Some(rec@));
                        assert(out@ == black());
                        assert(scatter_post(rec@.mat, r@, rec@, w.0));
                        assert(ray_color_rel(r@, spheres, dnat, out@));
                    }
                    out
                },
            }
        },
        None => {
            let unit = r.direction().normalized();
            let t_raw = crate::fixed::mul_fx(unit.y() + SCALE, 500_000_000);
            proof {
                let s = SCALE as int;
                lemma_mul_mag(unit@.y + s, 500_000_000, 4 * s, 500_000_000);
                assert((4 * s) * 500_000_000int == (2 * s) * s) by (nonlinear_arith)
                    requires
                        s == 1_000_000_000,
                    ;
                lemma_tdiv_mag((unit@.y + s) * 500_000_000, s, 2 * s);
            }
            let t = if t_raw > SCALE {
                SCALE
            } else if t_raw < 0 {
                0
            } else {
                t_raw
            };
            proof {
                let s = SCALE as int;
                lemma_white_scale(s - t as int);
                lemma_blue_le(500_000_000, t as int);
                lemma_blue_le(700_000_000, t as int);
                lemma_blue_le(1_000_000_000, t as int);
            }
            let white = Vec3::new(SCALE, SCALE, SCALE);
            let blue = Vec3::new(500_000_000, 700_000_000, 1_000_000_000);
            let out = white.scale(SCALE - t).add(blue.scale(t));
            proof {
                lemma_sky_ok(r@.dir);
                assert(out@ == sky_color(r@.dir));
            }
            out
        },
    }
}

/// The demonstration scene: a huge ground sphere, a grid of small spheres
/// with randomly chosen materials (skipping positions too close to the big
/// glass sphere), and five large feature spheres, one of them a hollow
/// shell modeled by a negative radius.
/// The shared glass of the demonstration scene: index of refraction 1.5.
pub open spec fn glass_material() -> Material {
    Material::Dielectric(Dielectric { index_of_refraction: 1_500_000_000 })
}

/// The huge gray ground sphere the scene rests on.
pub open spec fn ground_sphere() -> SphereV {
    SphereV {
        center: v3(0, -1_000_000_000_000, 0),
        radius: 1_000_000_000_000,
        mat: Material::Lambertian(
            Lambertian {
                albedo: Vec3 { ex: 500_000_000, ey: 500_000_000, ez: 500_000_000 },
            },
        ),
    }
}

pub open spec fn big_glass_sphere() -> SphereV {
    SphereV { center: v3(-4_000_000_000, 1_000_000_000, 0), radius: 1_000_000_000, mat: glass_material() }
}

pub open spec fn big_diffuse_sphere() -> SphereV {
    SphereV {
        center: v3(-8_000_000_000, 1_000_000_000, 0),
        radius: 1_000_000_000,
        mat: Material::Lambertian(
            Lambertian {
                albedo: Vec3 { ex: 400_000_000, ey: 200_000_000, ez: 100_000_000 },
            },
        ),
    }
}

pub open spec fn big_metal_sphere() -> SphereV {
    SphereV {
        center: v3(0, 1_000_000_000, 0),
        radius: 1_000_000_000,
        mat: Material::Metal(
            Metal {
                albedo: Vec3 { ex: 700_000_000, ey: 600_000_000, ez: 500_000_000 },
                fuzz: 0,
            },
        ),
    }
}

/// The hollow shell: an outer glass sphere and an inner one of negative
/// radius at the same center, sharing the one dielectric.
pub open spec fn big_hollow_sphere() -> SphereV {
    SphereV { center: v3(4_000_000_000, 1_000_000_000, 0), radius: 1_000_000_000, mat: glass_material() }
}

pub open spec fn big_hollow_inner_sphere() -> SphereV {
    SphereV { center: v3(4_000_000_000, 1_000_000_000, 0), radius: -800_000_000, mat: glass_material() }
}

/// A grid sphere of the demonstration scene: radius one fifth of a unit,
/// and clear of the hollow glass pair by more than nine tenths of a unit.
pub open spec fn small_sphere_ok(s: Sphere) -> bool {
    &&& s@.radius == 200_000_000
    &&& v3_len(v3_sub(s@.center, v3(4_000_000_000, 200_000_000, 0))) > 900_000_000
}

pub fn random_scene(rng: &mut rand::rngs::StdRng) -> (w: World)
    ensures
        world_wf(w.spheres@),
        6 <= w.spheres@.len() <= 490,
        w.spheres@[0]@ == ground_sphere(),
        w.spheres@[w.spheres@.len() - 5]@ == big_glass_sphere(),
        w.spheres@[w.spheres@.len() - 4]@ == big_diffuse_sphere(),
        w.spheres@[w.spheres@.len() - 3]@ == big_metal_sphere(),
        w.spheres@[w.spheres@.len() - 2]@ == big_hollow_sphere(),
        w.spheres@[w.spheres@.len() - 1]@ == big_hollow_inner_sphere(),
        forall|q: int|
            1 <= q < w.spheres@.len() - 5 ==> small_sphere_ok(#[trigger] w.spheres@[q]),
{
    let mut world = World::new();
    let ground_material = Material::Lambertian(
        Lambertian::new(Vec3::new(500_000_000, 500_000_000, 500_000_000)),
    );
    let ground = Sphere::new(Vec3::new(0, -1000 * SCALE, 0), 1000 * SCALE, ground_material);
    proof {
        lemma_world_wf_push(world.spheres@, ground);
        assert(ground@ == ground_sphere());
    }
    world.push(ground);
    let glass_mat = Material::Dielectric(Dielectric::new(1_500_000_000));
    let mut a: i64 = 0;
    while a < 22
        invariant
            world_wf(world.spheres@),
            mat_wf(glass_mat),
            glass_mat == glass_material(),
            0 <= a <= 22,
            1 <= world.spheres@.len() <= 1 + a * 22,
            world.spheres@[0] == ground,
            forall|q: int|
                1 <= q < world.spheres@.len() ==> small_sphere_ok(#[trigger] world.spheres@[q]),
        decreases 22 - a,
    {
        let mut b: i64 = 0;
        while b < 22
            invariant
                world_wf(world.spheres@),
                mat_wf(glass_mat),
                glass_mat == glass_material(),
                0 <= a < 22,
                0 <= b <= 22,
                1 <= world.spheres@.len() <= 1 + a * 22 + b,
                world.spheres@[0] == ground,
                forall|q: int|
                    1 <= q < world.spheres@.len() ==> small_sphere_ok(
                        #[trigger] world.spheres@[q],
                    ),
            decreases 22 - b,
        {
            let cx = (a - 11) * SCALE + sample_fx(rng, 0, 900_000_000);
            let cz = (b - 11) * SCALE + sample_fx(rng, 0, 900_000_000);
            let center = Vec3::new(cx, 200_000_000, cz);
            let offset = center.sub(Vec3::new(4 * SCALE, 200_000_000, 0));
            // keep the small spheres clear of the big glass sphere
            if offset.length() > 900_000_000 {
                let choose_mat = sample_fx(rng, 0, SCALE);
                let mat: Material;
                if choose_mat < 800_000_000 {
                    let c1 = Vec3::random(rng, 0, SCALE);
                    let c2 = Vec3::random(rng, 0, SCALE);
                    proof {
                        lemma_channel_mul(c1@.x, c2@.x);
                        lemma_channel_mul(c1@.y, c2@.y);
                        lemma_channel_mul(c1@.z, c2@.z);
                    }
                    let albedo = c1.mul(c2);
                    mat = Material::Lambertian(Lambertian::new(albedo));
                } else if choose_mat < 950_000_000 {
                    let albedo = Vec3::random(rng, 400_000_000, SCALE);
                    let fuzz = sample_fx(rng, 0, 500_000_000);
                    mat = Material::Metal(Metal::new(albedo, fuzz));
                } else {
                    mat = glass_mat;
                }
                let small = Sphere::new(center, 200_000_000, mat);
                let ghost pre = world.spheres@;
                proof {
                    lemma_world_wf_push(world.spheres@, small);
                }
                world.push(small);
                proof {
                    assert(small_sphere_ok(small));
                    assert forall|q: int| 1 <= q < world.spheres@.len() implies small_sphere_ok(
                        #[trigger] world.spheres@[q],
                    ) by {
                        if q < pre.len() {
                            assert(world.spheres@[q] == pre[q]);
                        } else {
                            assert(world.spheres@[q] == small);
                        }
                    }
                }
            }
            b = b + 1;
        }
        a = a + 1;
    }
    let diffuse = Material::Lambertian(
        Lambertian::new(Vec3::new(400_000_000, 200_000_000, 100_000_000)),
    );
    let metal = Material::Metal(
        Metal::new(Vec3::new(700_000_000, 600_000_000, 500_000_000), 0),
    );
    let big_glass = Sphere::new(Vec3::new(-4 * SCALE, SCALE, 0), SCALE, glass_mat);
    let big_diffuse = Sphere::new(Vec3::new(-8 * SCALE, SCALE, 0), SCALE, diffuse);
    let big_metal = Sphere::new(Vec3::new(0, SCALE, 0), SCALE, metal);
    let big_hollow = Sphere::new(Vec3::new(4 * SCALE, SCALE, 0), SCALE, glass_mat);
    let big_hollow_inner = Sphere::new(Vec3::new(4 * SCALE, SCALE, 0), -800_000_000, glass_mat);
    let ghost base = world.spheres@;
    proof {
        lemma_world_wf_push(world.spheres@, big_glass);
    }
    world.push(big_glass);
    proof {
        lemma_world_wf_push(world.spheres@, big_diffuse);
    }
    world.push(big_diffuse);
    proof {
        lemma_world_wf_push(world.spheres@, big_metal);
    }
    world.push(big_metal);
    proof {
        lemma_world_wf_push(world.spheres@, big_hollow);
    }
    world.push(big_hollow);
    proof {
        lemma_world_wf_push(world.spheres@, big_hollow_inner);
    }
    world.push(big_hollow_inner);
    proof {
        let n = world.spheres@.len() as int;
        assert(n == base.len() + 5);
        assert(world.spheres@[n - 5] == big_glass && world.spheres@[n - 4] == big_diffuse
            && world.spheres@[n - 3] == big_metal && world.spheres@[n - 2] == big_hollow
            && world.spheres@[n - 1] == big_hollow_inner);
        assert(big_glass@ == big_glass_sphere() && big_diffuse@ == big_diffuse_sphere()
            && big_metal@ == big_metal_sphere() && big_hollow@ == big_hollow_sphere()
            && big_hollow_inner@ == big_hollow_inner_sphere());
        assert forall|q: int| 1 <= q < n - 5 implies small_sphere_ok(
            #[trigger] world.spheres@[q],
        ) by {
            assert(world.spheres@[q] == base[q]);
        }
    }
    world
}

/// The normalized image-plane coordinate of a pixel index with a sub-pixel
/// jitter: `(idx + jitter) / (extent - 1)`, clamped into `[0, 1]`.
pub open spec fn jitter_coord(idx: int, extent: int, jit: int) -> int {
    clamp01(fxdiv(idx * SCALE + jit, (extent - 1) * SCALE))
}

/// One sample of one pixel: for some pair of sub-pixel jitters and some
/// lens sample, `sample` is a radiance estimate for the camera ray of the
/// jittered image coordinates.
pub open spec fn sample_drawn(
    cam: CameraV,
    spheres: Seq<Sphere>,
    i: int,
    j: int,
    width: int,
    height: int,
    depth: nat,
    sample: V3,
    w: (int, int, V3),
) -> bool {
    &&& 0 <= w.0 < SCALE
    &&& 0 <= w.1 < SCALE
    &&& disk_sample(w.2)
    &&& ray_color_rel(
        cam_ray(cam, jitter_coord(i, width, w.0), jitter_coord(j, height, w.1), w.2),
        spheres,
        depth,
        sample,
    )
    &&& color_ok(sample)
}

pub open spec fn pixel_sample_ok(
    cam: CameraV,
    spheres: Seq<Sphere>,
    i: int,
    j: int,
    width: int,
    height: int,
    depth: nat,
    sample: V3,
) -> bool {
    exists|w: (int, int, V3)| #[trigger] sample_drawn(cam, spheres, i, j, width, height, depth, sample, w)
}

/// The accumulated radiance of a pixel after `n` samples: a sum of `n`
/// per-sample estimates, each drawn as `pixel_sample_ok` says.
pub open spec fn acc_rel(
    cam: CameraV,
    spheres: Seq<Sphere>,
    i: int,
    j: int,
    width: int,
    height: int,
    depth: nat,
    n: nat,
    acc: V3,
) -> bool
    decreases n,
{
    if n == 0 {
        acc == black()
    } else {
        exists|w: (V3, V3)|
            {
                &&& #[trigger] pixel_sample_ok(cam, spheres, i, j, width, height, depth, w.1)
                &&& acc_rel(cam, spheres, i, j, width, height, depth, (n - 1) as nat, w.0)
                &&& acc == v3_add(w.0, w.1)
            }
    }
}

/// The finished pixel: the gamma-converted channels of an accumulated sum
/// of `samples` radiance estimates for image position `(i, j)`.
pub open spec fn pixel_rel(
    cam: CameraV,
    spheres: Seq<Sphere>,
    i: int,
    j: int,
    width: int,
    height: int,
    depth: nat,
    samples: nat,
    px: (u8, u8, u8),
) -> bool {
    exists|acc: V3|
        {
            &&& #[trigger] acc_rel(cam, spheres, i, j, width, height, depth, samples, acc)
            &&& px.0 == channel_value(acc.x, samples as int)
            &&& px.1 == channel_value(acc.y, samples as int)
            &&& px.2 == channel_value(acc.z, samples as int)
        }
}

/// `pixel_rel` at a flat buffer index: rows run top to bottom, so index
/// `p` shows row `p / width` of the image, which is image-plane row
/// `height - 1 - p / width`, at column `p % width`.
pub open spec fn pixel_rel_at(
    cam: CameraV,
    spheres: Seq<Sphere>,
    p: int,
    width: int,
    height: int,
    depth: nat,
    samples: nat,
    px: (u8, u8, u8),
) -> bool {
    pixel_rel(cam, spheres, p % width, height - 1 - p / width, width, height, depth, samples, px)
}

/// The normalized image-plane coordinate of a pixel index with a sub-pixel
/// jitter, clamped into `[0, 1]`.
pub fn pixel_coord(idx: u32, extent: u32, jitter: i64) -> (c: i64)
    requires
        2 <= extent <= 4096,
        idx < extent,
        0 <= jitter < SCALE,
    ensures
        c == jitter_coord(idx as int, extent as int, jitter as int),
        0 <= c <= SCALE,
{
    let numer: i64 = (idx as i64) * SCALE + jitter;
    let denom: i64 = ((extent - 1) as i64) * SCALE;
    proof {
        let s = SCALE as int;
        lemma_mul_mag(numer as int, s, 2 * (denom as int), s);
        assert((2 * (denom as int)) * s == (2 * s) * (denom as int)) by (nonlinear_arith);
        lemma_tdiv_mag((numer as int) * s, denom as int, 2 * s);
        assert((numer as int) * s >= 0) by (nonlinear_arith)
            requires
                numer >= 0,
                s == 1_000_000_000,
            ;
        vstd::arithmetic::div_mod::lemma_div_pos_is_pos((numer as int) * s, denom as int);
    }
    let q = crate::fixed::div_fx(numer, denom);
    if q > SCALE {
        SCALE
    } else {
        q
    }
}

/// Render the scene: for each pixel, average the given number of jittered
/// samples of the integrator and gamma-convert into an 8-bit triple. Rows
/// run top to bottom, columns left to right, and every entry of the buffer
/// is pinned by `pixel_rel_at`: the converted sum of per-sample radiance
/// estimates for that pixel's jittered camera rays.
pub fn render(
    world: &World,
    cam: &Camera,
    width: u32,
    height: u32,
    samples_per_pixel: u64,
    max_depth: u64,
    rng: &mut rand::rngs::StdRng,
) -> (pixels: Vec<(u8, u8, u8)>)
    requires
        world_wf(world.spheres@),
        camera_wf(cam@),
        2 <= width <= 4096,
        2 <= height <= 4096,
        1 <= samples_per_pixel <= 1_000_000,
    ensures
        pixels@.len() == width as int * height as int,
        forall|p: int|
            0 <= p < pixels@.len() ==> #[trigger] pixel_rel_at(
                cam@,
                world.spheres@,
                p,
                width as int,
                height as int,
                max_depth as nat,
                samples_per_pixel as nat,
                pixels@[p],
            ),
{
    let mut pixels: Vec<(u8, u8, u8)> = Vec::new();
    let mut row: u32 = 0;
    while row < height
        invariant
            world_wf(world.spheres@),
            camera_wf(cam@),
            2 <= width <= 4096,
            2 <= height <= 4096,
            1 <= samples_per_pixel <= 1_000_000,
            row <= height,
            pixels@.len() == row as int * width as int,
            forall|p: int|
                0 <= p < pixels@.len() ==> #[trigger] pixel_rel_at(
                    cam@,
                    world.spheres@,
                    p,
                    width as int,
                    height as int,
                    max_depth as nat,
                    samples_per_pixel as nat,
                    pixels@[p],
                ),
        decreases height - row,
    {
        let j = height - 1 - row;
        let mut i: u32 = 0;
        while i < width
            invariant
                world_wf(world.spheres@),
                camera_wf(cam@),
                2 <= width <= 4096,
                2 <= height <= 4096,
                1 <= samples_per_pixel <= 1_000_000,
                row < height,
                j == height - 1 - row,
                i <= width,
                pixels@.len() == row as int * width as int + i as int,
                forall|p: int|
                    0 <= p < pixels@.len() ==> #[trigger] pixel_rel_at(
                        cam@,
                        world.spheres@,
                        p,
                        width as int,
                        height as int,
                        max_depth as nat,
                        samples_per_pixel as nat,
                        pixels@[p],
                    ),
            decreases width - i,
        {
            let mut acc = Vec3::new(0, 0, 0);
            let mut k: u64 = 0;
            while k < samples_per_pixel
                invariant
                    world_wf(world.spheres@),
                    camera_wf(cam@),
                    2 <= width <= 4096,
                    2 <= height <= 4096,
                    1 <= samples_per_pixel <= 1_000_000,
                    row < height,
                    j == height - 1 - row,
                    i < width,
                    k <= samples_per_pixel,
                    0 <= acc@.x <= k as int * SCALE,
                    0 <= acc@.y <= k as int * SCALE,
                    0 <= acc@.z <= k as int * SCALE,
                    acc_rel(
                        cam@,
                        world.spheres@,
                        i as int,
                        j as int,
                        width as int,
                        height as int,
                        max_depth as nat,
                        k as nat,
                        acc@,
                    ),
                decreases samples_per_pixel - k,
            {
                let u_jit = sample_fx(rng, 0, SCALE);
                let v_jit = sample_fx(rng, 0, SCALE);
                let u = pixel_coord(i, width, u_jit);
                let v = pixel_coord(j, height, v_jit);
                let r = cam.get_ray(u, v, rng);
                let sample = ray_color(&r, world, max_depth, rng);
                let ghost prev = acc@;
                acc = acc.add(sample);
                proof {
                    let ghost spheres = world.spheres@;
                    let ghost wid = width as int;
                    let ghost hei = height as int;
                    let ghost dep = max_depth as nat;
                    let ghost d = choose|d: V3|
                        disk_sample(d) && r@ == cam_ray(cam@, u as int, v as int, d);
                    let ghost wj = (u_jit as int, v_jit as int, d);
                    assert(sample_drawn(
                        cam@,
                        spheres,
                        i as int,
                        j as int,
                        wid,
                        hei,
                        dep,
                        sample@,
                        wj,
                    ));
                    assert(pixel_sample_ok(cam@, spheres, i as int, j as int, wid, hei, dep, sample@));
                    let ghost w2 = (prev, sample@);
                    assert(pixel_sample_ok(cam@, spheres, i as int, j as int, wid, hei, dep, w2.1)
                        && acc_rel(cam@, spheres, i as int, j as int, wid, hei, dep, k as nat, w2.0)
                        && acc@ == v3_add(w2.0, w2.1));
                    assert(acc_rel(
                        cam@,
                        spheres,
                        i as int,
                        j as int,
                        wid,
                        hei,
                        dep,
                        (k + 1) as nat,
                        acc@,
                    ));
                }
                k = k + 1;
            }
            let rgb = acc.format_color(samples_per_pixel);
            proof {
                assert(pixel_rel(
                    cam@,
                    world.spheres@,
                    i as int,
                    j as int,
                    width as int,
                    height as int,
                    max_depth as nat,
                    samples_per_pixel as nat,
                    rgb,
                ));
            }
            let ghost pix_old = pixels@;
            pixels.push(rgb);
            proof {
                let ghost spheres = world.spheres@;
                let ghost wid = width as int;
                let ghost hei = height as int;
                let ghost dep = max_depth as nat;
                let ghost spp = samples_per_pixel as nat;
                let ghost p = row as int * wid + i as int;
                vstd::arithmetic::div_mod::lemma_fundamental_div_mod_converse(
                    p,
                    wid,
                    row as int,
                    i as int,
                );
                assert(p / wid == row as int && p % wid == i as int);
                assert(pixels@[p] == rgb);
                assert(pixel_rel_at(cam@, spheres, p, wid, hei, dep, spp, pixels@[p]));
                assert forall|q: int| 0 <= q < pixels@.len() implies #[trigger] pixel_rel_at(
                    cam@,
                    spheres,
                    q,
                    wid,
                    hei,
                    dep,
                    spp,
                    pixels@[q],
                ) by {
                    if q < p {
                        assert(pixels@[q] == pix_old[q]);
                    }
                }
            }
            i = i + 1;
        }
        proof {
            assert((row as int + 1) * (width as int) == row as int * (width as int) + (
            width as int)) by (nonlinear_arith);
        }
        row = row + 1;
    }
    proof {
        assert((height as int) * (width as int) == (width as int) * (height as int))
            by (nonlinear_arith);
    }
    pixels
}

/// Whatever a well-formed material scatters, the attenuation it hands
/// back is a physical color.
proof fn lemma_attenuation_ok(m: Material, r_in: RayV, rec: HitV, sc: Option<(Color, Ray)>)
    requires
        mat_wf(m),
        scatter_post(m, r_in, rec, sc),
        sc is Some,
    ensures
        color_ok(sc->Some_0.0@),
{
}

/// The component-wise product of two physical colors is a physical color.
proof fn lemma_color_mul_ok(a: V3, b: V3)
    requires
        color_ok(a),
        color_ok(b),
    ensures
        color_ok(v3_mul(a, b)),
{
    let s = SCALE as int;
    lemma_channel_mul(a.x, b.x);
    lemma_channel_mul(a.y, b.y);
    lemma_channel_mul(a.z, b.z);
}

/// One channel of a color product stays inside `[0, 1]`.
proof fn lemma_channel_mul(a: int, b: int)
    requires
        0 <= a <= SCALE,
        0 <= b <= SCALE,
    ensures
        0 <= fxmul(a, b) <= SCALE,
{
    let s = SCALE as int;
    assert(0 <= a * b <= s * s) by (nonlinear_arith)
        requires
            0 <= a <= s,
            0 <= b <= s,
        ;
    vstd::arithmetic::div_mod::lemma_div_pos_is_pos(a * b, s);
    assert(s * s == s * s) by (nonlinear_arith);
    lemma_tdiv_mag(a * b, s, s);
}

/// The sky gradient is a physical color.
proof fn lemma_sky_ok(dir: V3)
    ensures
        color_ok(sky_color(dir)),
{
    let s = SCALE as int;
    let yv = v3_normalize(dir).y;
    let t = clamp01(fxmul(yv + s, 500_000_000));
    lemma_white_scale(s - t);
    lemma_blue_le(500_000_000, t);
    lemma_blue_le(700_000_000, t);
    lemma_blue_le(1_000_000_000, t);
}

/// Scaling pure white by a clamped factor reproduces the factor exactly.
proof fn lemma_white_scale(t: int)
    ensures
        fxmul(SCALE as int, t) == t,
{
    let s = SCALE as int;
    crate::fixed::lemma_tdiv_exact(t, s);
    assert(s * t == t * s) by (nonlinear_arith);
}

/// A blue channel scaled by `t` in `[0, 1]` stays at most `t`.
proof fn lemma_blue_le(c: int, t: int)
    requires
        0 <= c <= SCALE,
        0 <= t <= SCALE,
    ensures
        0 <= fxmul(c, t) <= t,
{
    let s = SCALE as int;
    assert(0 <= c * t <= t * s) by (nonlinear_arith)
        requires
            0 <= c <= s,
            0 <= t,
        ;
    vstd::arithmetic::div_mod::lemma_div_pos_is_pos(c * t, s);
    lemma_tdiv_mag(c * t, s, t);
}

} // verus!
