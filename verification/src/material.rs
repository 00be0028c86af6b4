//! The material model: a closed set of scattering behaviours. Scattering
//! draws randomness, so each contract pins the outcome exactly as a function
//! of the drawn sample, and quantifies over it.

use vstd::prelude::*;
use crate::fixed::{SCALE, fxmul, fxdiv, fxsqrt, isqrt, lemma_tdiv_mag, lemma_tdiv_ge, lemma_tdiv_exact};
use crate::hit::{HitRecord, HitV};
use crate::ray::{Ray, RayV, DMAX};
use crate::rng::sample_fx;
use crate::vec::{
    Vec3, Color, V3, v3, v3_add, v3_neg, v3_scale, v3_dot, v3_len_sq, v3_normalize, v3_reflect,
    v3_refract, bounded, iabs, lemma_dot_bound, lemma_mul_mag, NMAX, VMAX,
};

verus! {

/// A color with every channel inside `[0, 1]`.
pub open spec fn color_ok(c: V3) -> bool {
    &&& 0 <= c.x <= SCALE
    &&& 0 <= c.y <= SCALE
    &&& 0 <= c.z <= SCALE
}

/// A nondegenerate sample from the unit ball, as the samplers produce.
pub open spec fn in_ball(u: V3) -> bool {
    &&& bounded(u, SCALE as int)
    &&& 1 <= v3_len_sq(u) < SCALE
}

pub open spec fn near0(v: V3) -> bool {
    iabs(v.x) < 10 && iabs(v.y) < 10 && iabs(v.z) < 10
}

/// Diffuse: scatters toward the normal, attenuated by the albedo.
#[derive(Clone, Copy, Debug)]
pub struct Lambertian {
    pub albedo: Color,
}

impl Lambertian {
    pub fn new(albedo: Color) -> (m: Lambertian)
        ensures
            m.albedo == albedo,
    {
        Lambertian { albedo }
    }
}

/// Metallic: mirror reflection, blurred by a fuzz radius in `[0, 1]`.
#[derive(Clone, Copy, Debug)]
pub struct Metal {
    pub albedo: Color,
    pub fuzz: i64,
}

impl Metal {
    pub fn new(albedo: Color, fuzz: i64) -> (m: Metal)
        ensures
            m.albedo == albedo,
            m.fuzz == fuzz,
    {
        Metal { albedo, fuzz }
    }
}

/// Dielectric: refracts or reflects according to Snell's law and Schlick's
/// approximation; absorbs nothing.
#[derive(Clone, Copy, Debug)]
pub struct Dielectric {
    pub index_of_refraction: i64,
}

impl Dielectric {
    pub fn new(index_of_refraction: i64) -> (m: Dielectric)
        ensures
            m.index_of_refraction == index_of_refraction,
    {
        Dielectric { index_of_refraction }
    }
}

/// The closed set of materials a surface can carry.
#[derive(Clone, Copy, Debug)]
pub enum Material {
    Lambertian(Lambertian),
    Metal(Metal),
    Dielectric(Dielectric),
}

/// Parameter ranges under which scattering is well defined: colors inside
/// `[0, 1]`, fuzz inside `[0, 1]`, refractive index inside `[1/4, 4]`.
pub open spec fn mat_wf(m: Material) -> bool {
    match m {
        Material::Lambertian(l) => color_ok(l.albedo@),
        Material::Metal(mt) => color_ok(mt.albedo@) && 0 <= mt.fuzz <= SCALE,
        Material::Dielectric(d) => 250_000_000 <= d.index_of_refraction <= 4_000_000_000,
    }
}

/// The diffuse scatter direction: normal plus a unit vector, falling back
/// to the bare normal when the sum degenerates.
pub open spec fn lambertian_dir(normal: V3, u: V3) -> V3 {
    let d = v3_add(normal, v3_normalize(u));
    if near0(d) {
        normal
    } else {
        d
    }
}

/// What a diffuse scatter returns, given the ball sample `u` that was drawn.
pub open spec fn lambertian_outcome(albedo: V3, rec: HitV, u: V3, out: Option<(Color, Ray)>) -> bool {
    &&& in_ball(u)
    &&& match out {
        Some(pair) => pair.0@ == albedo && pair.1@ == (RayV {
            orig: rec.p,
            dir: lambertian_dir(rec.normal, u),
        }),
        None => false,
    }
}

/// What a metallic scatter returns, given the ball sample `u` that was
/// drawn: the unit incoming direction is mirrored about the normal and
/// perturbed by `fuzz * u`; bounces that degenerate or end up on the wrong
/// side of the surface are absorbed.
pub open spec fn metal_outcome(
    albedo: V3,
    fuzz: int,
    r_in: RayV,
    rec: HitV,
    u: V3,
    out: Option<(Color, Ray)>,
) -> bool {
    let reflected = v3_reflect(v3_normalize(r_in.dir), rec.normal);
    &&& in_ball(u)
    &&& if v3_len_sq(reflected) < 1 {
        out is None
    } else {
        let dir = v3_add(v3_normalize(reflected), v3_scale(u, fuzz));
        if v3_dot(dir, rec.normal) > 0 {
            match out {
                Some(pair) => pair.0@ == albedo && pair.1@ == (RayV { orig: rec.p, dir: dir }),
                None => false,
            }
        } else {
            out is None
        }
    }
}

/// The ratio of refractive indices across the struck interface.
pub open spec fn refraction_ratio(ir: int, front_face: bool) -> int {
    if front_face {
        fxdiv(SCALE as int, ir)
    } else {
        ir
    }
}

/// The cosine of the angle of incidence, clamped into `[0, 1]` so the
/// square roots below stay in range.
pub open spec fn cos_of(unit: V3, normal: V3) -> int {
    let d = v3_dot(v3_neg(unit), normal);
    if d > SCALE {
        SCALE as int
    } else if d < 0 {
        0
    } else {
        d
    }
}

pub open spec fn sin_of(cos: int) -> int {
    fxsqrt(SCALE - fxmul(cos, cos))
}

/// Total internal reflection: Snell's law has no solution.
pub open spec fn tir(ratio: int, cos: int) -> bool {
    fxmul(ratio, sin_of(cos)) > SCALE
}

/// Schlick's approximation of the reflectance fraction.
pub open spec fn schlick(cos: int, ratio: int) -> int {
    let q = fxdiv(SCALE - ratio, SCALE + ratio);
    let r0 = fxmul(q, q);
    let p = SCALE - cos;
    let p2 = fxmul(p, p);
    let p4 = fxmul(p2, p2);
    let p5 = fxmul(p4, p);
    r0 + fxmul(SCALE - r0, p5)
}

/// The outgoing dielectric direction for a unit incoming direction, given
/// the reflectance draw: reflect under total internal reflection or a
/// winning reflectance draw, refract otherwise.
pub open spec fn dielectric_dir(unit: V3, normal: V3, ratio: int, draw: int) -> V3 {
    let cos = cos_of(unit, normal);
    if tir(ratio, cos) || schlick(cos, ratio) > draw {
        v3_reflect(unit, normal)
    } else {
        v3_refract(unit, normal, ratio)
    }
}

/// What a dielectric scatter returns, given the reflectance draw: always a
/// bounce, attenuated by pure white.
pub open spec fn dielectric_outcome(
    ir: int,
    r_in: RayV,
    rec: HitV,
    draw: int,
    out: Option<(Color, Ray)>,
) -> bool {
    &&& 0 <= draw < SCALE
    &&& match out {
        Some(pair) => pair.0@ == v3(SCALE as int, SCALE as int, SCALE as int) && pair.1@ == (RayV {
            orig: rec.p,
            dir: dielectric_dir(
                v3_normalize(r_in.dir),
                rec.normal,
                refraction_ratio(ir, rec.front_face),
                draw,
            ),
        }),
        None => false,
    }
}

/// What `Material::scatter` may return: for each variant, the exact outcome
/// as a function of the one random sample that was drawn.
pub open spec fn scatter_post(m: Material, r_in: RayV, rec: HitV, out: Option<(Color, Ray)>) -> bool {
    match m {
        Material::Lambertian(l) => exists|u: V3| lambertian_outcome(l.albedo@, rec, u, out),
        Material::Metal(mt) => exists|u: V3|
            metal_outcome(mt.albedo@, mt.fuzz as int, r_in, rec, u, out),
        Material::Dielectric(d) => exists|draw: int|
            dielectric_outcome(d.index_of_refraction as int, r_in, rec, draw, out),
    }
}

impl Material {
    /// Scatter the incoming ray at the given hit: `None` means the ray was
    /// absorbed and the path ends.
    pub fn scatter(&self, r_in: &Ray, rec: &HitRecord, rng: &mut rand::rngs::StdRng) -> (out:
        Option<(Color, Ray)>)
        requires
            mat_wf(*self),
            bounded(rec@.normal, NMAX as int),
            bounded(r_in@.dir, DMAX as int),
            1 <= v3_dot(r_in@.dir, r_in@.dir),
        ensures
            scatter_post(*self, r_in@, rec@, out),
    {
        match self {
            Material::Lambertian(l) => {
                let u = Vec3::random_in_unit_sphere(rng);
                let unit = u.normalized();
                let candidate = rec.normal.add(unit);
                let dir = if candidate.near_zero() {
                    rec.normal
                } else {
                    candidate
                };
                let out = Some((l.albedo, Ray::new(rec.p, dir)));
                proof {
                    assert(lambertian_outcome(l.albedo@, rec@, u@, out));
                }
                out
            },
            Material::Metal(mt) => {
                let u = Vec3::random_in_unit_sphere(rng);
                let unit_in = r_in.direction().normalized();
                let reflected = unit_in.reflect(rec.normal);
                proof {
                    lemma_metal_reflect_bound(unit_in@, rec@.normal);
                }
                let out: Option<(Color, Ray)>;
                if reflected.length_squared() < 1 {
                    out = None;
                } else {
                    proof {
                        lemma_mul_mag(u@.x, mt.fuzz as int, SCALE as int, SCALE as int);
                        lemma_mul_mag(u@.y, mt.fuzz as int, SCALE as int, SCALE as int);
                        lemma_mul_mag(u@.z, mt.fuzz as int, SCALE as int, SCALE as int);
                        lemma_tdiv_mag(u@.x * (mt.fuzz as int), SCALE as int, SCALE as int);
                        lemma_tdiv_mag(u@.y * (mt.fuzz as int), SCALE as int, SCALE as int);
                        lemma_tdiv_mag(u@.z * (mt.fuzz as int), SCALE as int, SCALE as int);
                    }
                    let fuzzed = u.scale(mt.fuzz);
                    let dir = reflected.normalized().add(fuzzed);
                    let d = dir.dot(rec.normal);
                    if d > 0 {
                        out = Some((mt.albedo, Ray::new(rec.p, dir)));
                    } else {
                        out = None;
                    }
                }
                proof {
                    assert(metal_outcome(mt.albedo@, mt.fuzz as int, r_in@, rec@, u@, out));
                }
                out
            },
            Material::Dielectric(d) => {
                let ir = d.index_of_refraction;
                let ratio: i64;
                if rec.front_face {
                    proof {
                        let si = SCALE as int;
                        assert((4 * si) * (ir as int) >= si * si && 250_000_000 * (ir as int) <= si
                            * si) by (nonlinear_arith)
                            requires
                                250_000_000 <= ir <= 4_000_000_000,
                                si == 1_000_000_000,
                            ;
                        lemma_tdiv_mag(si * si, ir as int, 4 * si);
                        lemma_tdiv_ge(si * si, ir as int, 250_000_000);
                    }
                    ratio = crate::fixed::div_fx(SCALE, ir);
                } else {
                    ratio = ir;
                }
                let unit = r_in.direction().normalized();
                proof {
                    lemma_dot_bound(
                        v3_neg(unit@),
                        rec@.normal,
                        3 * SCALE as int,
                        NMAX as int,
                        72 * SCALE as int,
                    );
                }
                let dneg = unit.neg().dot(rec.normal);
                let cos_theta: i64 = if dneg > SCALE {
                    SCALE
                } else if dneg < 0 {
                    0
                } else {
                    dneg
                };
                proof {
                    lemma_mul_mag(cos_theta as int, cos_theta as int, SCALE as int, SCALE as int);
                    lemma_tdiv_mag(
                        (cos_theta as int) * (cos_theta as int),
                        SCALE as int,
                        SCALE as int,
                    );
                    vstd::arithmetic::div_mod::lemma_div_pos_is_pos(
                        (cos_theta as int) * (cos_theta as int),
                        SCALE as int,
                    );
                    assert((cos_theta as int) * (cos_theta as int) >= 0) by (nonlinear_arith);
                }
                let cos_sq = crate::fixed::mul_fx(cos_theta, cos_theta);
                let sin_theta = crate::fixed::sqrt_fx(SCALE - cos_sq);
                proof {
                    assert(sin_theta as int <= SCALE as int) by (nonlinear_arith)
                        requires
                            0 <= sin_theta,
                            (sin_theta as int) * (sin_theta as int) <= (SCALE - cos_sq) as int * (
                            SCALE as int),
                            0 <= SCALE - cos_sq <= SCALE,
                            SCALE == 1_000_000_000,
                        ;
                    lemma_mul_mag(ratio as int, sin_theta as int, 4 * SCALE as int, SCALE as int);
                    lemma_tdiv_mag(
                        (ratio as int) * (sin_theta as int),
                        SCALE as int,
                        4 * SCALE as int,
                    );
                }
                let cannot_refract = crate::fixed::mul_fx(ratio, sin_theta) > SCALE;
                let refl = reflectance(cos_theta, ratio);
                let draw = sample_fx(rng, 0, SCALE);
                let must_reflect = refl > draw;
                let dir = if cannot_refract || must_reflect {
                    unit.reflect(rec.normal)
                } else {
                    unit.refract(rec.normal, ratio)
                };
                let out = Some((Color::new(SCALE, SCALE, SCALE), Ray::new(rec.p, dir)));
                proof {
                    assert(dielectric_outcome(ir as int, r_in@, rec@, draw as int, out));
                }
                out
            },
        }
    }
}

/// The reflection of a unit-like vector about a unit-like normal has
/// components well inside the range `normalized` accepts.
proof fn lemma_metal_reflect_bound(v: V3, n: V3)
    requires
        bounded(v, 3 * SCALE as int),
        bounded(n, NMAX as int),
    ensures
        bounded(v3_reflect(v, n), VMAX as int),
{
    let s = SCALE as int;
    lemma_dot_bound(v, n, 3 * s, NMAX as int, 72 * s);
    let d = v3_dot(v, n);
    lemma_mul_mag(2 * d, n.x, 144 * s, NMAX as int);
    lemma_mul_mag(2 * d, n.y, 144 * s, NMAX as int);
    lemma_mul_mag(2 * d, n.z, 144 * s, NMAX as int);
    lemma_tdiv_mag(2 * d * n.x, s, 1152 * s);
    lemma_tdiv_mag(2 * d * n.y, s, 1152 * s);
    lemma_tdiv_mag(2 * d * n.z, s, 1152 * s);
}

/// Schlick's reflectance, computed in fixed point; see `schlick`.
fn reflectance(cos_theta: i64, ratio: i64) -> (r: i64)
    requires
        0 <= cos_theta <= SCALE,
        250_000_000 <= ratio <= 4_000_000_000,
    ensures
        r == schlick(cos_theta as int, ratio as int),
{
    let s = SCALE;
    proof {
        let si = SCALE as int;
        lemma_mul_mag(si - ratio, si, 3 * si, si);
        assert((3 * si) * (si + ratio) >= (3 * si) * si) by (nonlinear_arith)
            requires
                ratio >= 0,
                si == 1_000_000_000,
            ;
        lemma_tdiv_mag((si - ratio) * si, si + ratio, 3 * si);
    }
    let q = crate::fixed::div_fx(s - ratio, s + ratio);
    proof {
        let si = SCALE as int;
        lemma_mul_mag(q as int, q as int, 3 * si, 3 * si);
        assert((3 * si) * (3 * si) == (9 * si) * si) by (nonlinear_arith);
        lemma_tdiv_mag((q as int) * (q as int), si, 9 * si);
        assert((q as int) * (q as int) >= 0) by (nonlinear_arith);
        vstd::arithmetic::div_mod::lemma_div_pos_is_pos((q as int) * (q as int), si);
    }
    let r0 = crate::fixed::mul_fx(q, q);
    let p = s - cos_theta;
    proof {
        let si = SCALE as int;
        lemma_mul_mag(p as int, p as int, si, si);
        lemma_tdiv_mag((p as int) * (p as int), si, si);
        assert((p as int) * (p as int) >= 0) by (nonlinear_arith);
        vstd::arithmetic::div_mod::lemma_div_pos_is_pos((p as int) * (p as int), si);
    }
    let p2 = crate::fixed::mul_fx(p, p);
    proof {
        let si = SCALE as int;
        lemma_mul_mag(p2 as int, p2 as int, si, si);
        lemma_tdiv_mag((p2 as int) * (p2 as int), si, si);
        assert((p2 as int) * (p2 as int) >= 0) by (nonlinear_arith);
        vstd::arithmetic::div_mod::lemma_div_pos_is_pos((p2 as int) * (p2 as int), si);
    }
    let p4 = crate::fixed::mul_fx(p2, p2);
    proof {
        let si = SCALE as int;
        lemma_mul_mag(p4 as int, p as int, si, si);
        lemma_tdiv_mag((p4 as int) * (p as int), si, si);
        assert((p4 as int) * (p as int) >= 0) by (nonlinear_arith)
            requires
                0 <= p4,
                0 <= p,
            ;
        vstd::arithmetic::div_mod::lemma_div_pos_is_pos((p4 as int) * (p as int), si);
    }
    let p5 = crate::fixed::mul_fx(p4, p);
    proof {
        let si = SCALE as int;
        lemma_mul_mag((si - r0) as int, p5 as int, 10 * si, si);
        lemma_tdiv_mag((si - r0) * (p5 as int), si, 10 * si);
    }
    let tail = crate::fixed::mul_fx(s - r0, p5);
    r0 + tail
}

/// At perpendicular incidence (cosine exactly one) no refraction ratio
/// triggers total internal reflection, and any draw that beats the
/// reflectance lets the dielectric refract.
pub proof fn lemma_normal_incidence_refracts(u: V3, n: V3, ratio: int, draw: int)
    requires
        0 <= ratio,
        cos_of(u, n) == SCALE as int,
        schlick(SCALE as int, ratio) < draw,
    ensures
        !tir(ratio, SCALE as int),
        dielectric_dir(u, n, ratio, draw) == v3_refract(u, n, ratio),
{
    let s = SCALE as int;
    lemma_tdiv_exact(s, s);
    assert(fxmul(s, s) == s);
    assert(sin_of(s) == fxsqrt(0));
    assert(isqrt(0int) == 0) by {
        crate::fixed::lemma_isqrt_unique(0, 0);
    }
    assert(ratio * 0 == 0) by (nonlinear_arith);
    vstd::arithmetic::div_mod::lemma_div_basics(s);
    assert(fxmul(ratio, 0) == 0);
    assert(!tir(ratio, s));
}

} // verus!
