//! Spheres and their ray-intersection test: the quadratic is solved in
//! fixed point, the nearer admissible root is chosen, and the hit record is
//! assembled with the outward normal oriented against the ray.

use vstd::prelude::*;
use crate::fixed::{
    SCALE, tdiv, fxmul, fxdiv, isqrt, isqrt_i128, tdiv_i128, lemma_isqrt, lemma_tdiv_mag,
};
use crate::hit::{HitRecord, HitV, face_normal};
use crate::material::{Material, mat_wf};
use crate::ray::{Ray, RayV, ray_ok, ray_at, DMAX, TMAX};
use crate::vec::{
    Vec3, Point3, V3, v3, v3_sub, v3_neg, v3_dot, v3_len_sq, bounded, lemma_dot_bound,
    lemma_mul_mag,
};

verus! {

/// Cap on sphere center components and on the radius magnitude
/// (four thousand scene units).
pub const CMAX: i64 = 4_000_000_000_000;

/// The mathematical value of a sphere.
pub ghost struct SphereV {
    pub center: V3,
    pub radius: int,
    pub mat: Material,
}

/// A sphere: center, signed radius (a negative radius models a hollow
/// shell by flipping the normal), and the material at its surface.
#[derive(Clone, Copy)]
pub struct Sphere {
    pub center: Point3,
    pub radius: i64,
    pub mat: Material,
}

impl View for Sphere {
    type V = SphereV;

    open spec fn view(&self) -> SphereV {
        SphereV { center: self.center@, radius: self.radius as int, mat: self.mat }
    }
}

/// A sphere the tracer accepts: within the scene box, with a nonzero
/// radius and a well-formed material.
pub open spec fn sphere_wf(s: SphereV) -> bool {
    &&& bounded(s.center, CMAX as int)
    &&& s.radius != 0
    &&& -CMAX <= s.radius <= CMAX
    &&& mat_wf(s.mat)
}

pub open spec fn hit_a(r: RayV) -> int {
    v3_dot(r.dir, r.dir)
}

pub open spec fn hit_oc(s: SphereV, r: RayV) -> V3 {
    v3_sub(r.orig, s.center)
}

pub open spec fn hit_half_b(s: SphereV, r: RayV) -> int {
    v3_dot(hit_oc(s, r), r.dir)
}

pub open spec fn hit_c(s: SphereV, r: RayV) -> int {
    v3_len_sq(hit_oc(s, r)) - fxmul(s.radius, s.radius)
}

/// The discriminant of the intersection quadratic, carried at scale
/// `SCALE^2` (no descaling, so no rounding enters here).
pub open spec fn hit_disc(s: SphereV, r: RayV) -> int {
    hit_half_b(s, r) * hit_half_b(s, r) - hit_a(r) * hit_c(s, r)
}

/// The parameter of the hit within `[t_min, t_max]`, preferring the nearer
/// root, if the quadratic admits one there.
pub open spec fn sphere_hit_t(s: SphereV, r: RayV, t_min: int, t_max: int) -> Option<int> {
    let a = hit_a(r);
    let hb = hit_half_b(s, r);
    let disc = hit_disc(s, r);
    if disc < 0 {
        None
    } else {
        let sq = isqrt(disc);
        let r1 = tdiv((-hb - sq) * SCALE, a);
        let r2 = tdiv((-hb + sq) * SCALE, a);
        if t_min <= r1 <= t_max {
            Some(r1)
        } else if t_min <= r2 <= t_max {
            Some(r2)
        } else {
            None
        }
    }
}

pub open spec fn clampi(x: int, m: int) -> int {
    if x < -m {
        -m
    } else if x > m {
        m
    } else {
        x
    }
}

/// The outward normal at a surface point: `(p - center) / radius`, each
/// component clamped into the unit-vector range (the clamp is inert for
/// true intersection points, whose normal has length one).
pub open spec fn outward_normal_at(s: SphereV, p: V3) -> V3 {
    v3(
        clampi(fxdiv(p.x - s.center.x, s.radius), 4 * SCALE),
        clampi(fxdiv(p.y - s.center.y, s.radius), 4 * SCALE),
        clampi(fxdiv(p.z - s.center.z, s.radius), 4 * SCALE),
    )
}

/// The full record produced for a hit at parameter `t`.
pub open spec fn sphere_hit_rec(s: SphereV, r: RayV, t: int) -> HitV {
    let p = ray_at(r, t);
    let outward = outward_normal_at(s, p);
    HitV {
        p: p,
        normal: face_normal(r.dir, outward),
        mat: s.mat,
        t: t,
        front_face: v3_dot(r.dir, outward) < 0,
    }
}

/// What `Sphere::hit` returns.
pub open spec fn sphere_hit(s: SphereV, r: RayV, t_min: int, t_max: int) -> Option<HitV> {
    match sphere_hit_t(s, r, t_min, t_max) {
        Some(t) => Some(sphere_hit_rec(s, r, t)),
        None => None,
    }
}

impl Sphere {
    pub fn new(center: Point3, radius: i64, mat: Material) -> (s: Sphere)
        ensures
            s@ == (SphereV { center: center@, radius: radius as int, mat: mat }),
    {
        Sphere { center, radius, mat }
    }

    /// Intersect the ray with this sphere inside the window
    /// `[t_min, t_max]`; the result is exactly `sphere_hit`.
    pub fn hit(&self, r: &Ray, t_min: i64, t_max: i64) -> (res: Option<HitRecord>)
        requires
            sphere_wf(self@),
            ray_ok(r@),
            0 <= t_min <= TMAX,
            0 <= t_max <= TMAX,
        ensures
            match res {
                Some(rec) => sphere_hit(self@, r@, t_min as int, t_max as int) == Some(rec@),
                None => sphere_hit(self@, r@, t_min as int, t_max as int) is None,
            },
    {
        let dir = r.direction();
        let a = dir.dot(dir);
        let oc = r.origin().sub(self.center);
        let half_b = oc.dot(dir);
        let oc_ls = oc.length_squared();
        proof {
            lemma_dot_bound(r@.dir, r@.dir, DMAX as int, DMAX as int, 800_000_000_000_000_000);
            lemma_dot_bound(
                hit_oc(self@, r@),
                r@.dir,
                16_000_000_000_000,
                DMAX as int,
                800_000_000_000_000_000,
            );
            lemma_dot_bound(
                hit_oc(self@, r@),
                hit_oc(self@, r@),
                16_000_000_000_000,
                16_000_000_000_000,
                800_000_000_000_000_000,
            );
            lemma_mul_mag(self@.radius, self@.radius, CMAX as int, CMAX as int);
            lemma_tdiv_mag(self@.radius * self@.radius, SCALE as int, 16_000_000_000_000_000);
        }
        let rr = crate::fixed::mul_fx(self.radius, self.radius);
        let c = oc_ls - rr;
        let hb128: i128 = half_b as i128;
        let a128: i128 = a as i128;
        let c128: i128 = c as i128;
        proof {
            assert(0 <= (hb128 as int) * (hb128 as int)
                <= 640_000_000_000_000_000_000_000_000_000_000_000int) by (nonlinear_arith)
                requires
                    -800_000_000_000_000_000 <= hb128 <= 800_000_000_000_000_000,
                ;
            assert(-660_000_000_000_000_000_000_000_000_000_000_000int <= (a128 as int) * (
            c128 as int) <= 660_000_000_000_000_000_000_000_000_000_000_000int) by (nonlinear_arith)
                requires
                    0 <= a128 <= 800_000_000_000_000_000,
                    -816_000_000_000_000_000 <= c128 <= 816_000_000_000_000_000,
                ;
        }
        let disc: i128 = hb128 * hb128 - a128 * c128;
        if disc < 0 {
            return None;
        }
        let sqrtd = isqrt_i128(disc);
        proof {
            lemma_isqrt(disc as int);
            assert(sqrtd as int <= 1_200_000_000_000_000_000int) by (nonlinear_arith)
                requires
                    0 <= sqrtd,
                    (sqrtd as int) * (sqrtd as int)
                        <= 1_300_000_000_000_000_000_000_000_000_000_000_000int,
                ;
        }
        let t_min128 = t_min as i128;
        let t_max128 = t_max as i128;
        let num1: i128 = (-(half_b as i128) - sqrtd) * (SCALE as i128);
        let root1 = tdiv_i128(num1, a as i128);
        let root: i64;
        if t_min128 <= root1 && root1 <= t_max128 {
            root = root1 as i64;
        } else {
            let num2: i128 = (-(half_b as i128) + sqrtd) * (SCALE as i128);
            let root2 = tdiv_i128(num2, a as i128);
            if t_min128 <= root2 && root2 <= t_max128 {
                root = root2 as i64;
            } else {
                return None;
            }
        }
        let p = r.at(root);
        let nx = clamp_div(p.x(), self.center.x(), self.radius);
        let ny = clamp_div(p.y(), self.center.y(), self.radius);
        let nz = clamp_div(p.z(), self.center.z(), self.radius);
        let outward = Vec3::new(nx, ny, nz);
        let mut rec = HitRecord {
            p: p,
            normal: Vec3::new(0, 0, 0),
            mat: self.mat,
            t: root,
            front_face: false,
        };
        rec.set_face_normal(r, outward);
        proof {
            assert(rec@ == sphere_hit_rec(self@, r@, root as int));
        }
        Some(rec)
    }
}

/// A ray fired from height `k` straight down the axis at a sphere of
/// radius `m` centered at the origin hits at parameter `k - m` (in scene
/// units: distance minus radius), on the front face, with the normal
/// pointing straight back along the ray.
pub proof fn lemma_head_on_hit(s: SphereV, r: RayV, k: int, m: int, t_min: int, t_max: int)
    requires
        s.center == v3(0, 0, 0),
        s.radius == m * SCALE,
        r.orig == v3(0, 0, k * SCALE),
        r.dir == v3(0, 0, -(SCALE as int)),
        0 < m < k,
        t_min <= (k - m) * SCALE <= t_max,
    ensures
        sphere_hit_t(s, r, t_min, t_max) == Some((k - m) * (SCALE as int)),
        sphere_hit(s, r, t_min, t_max)->Some_0.normal == v3_neg(r.dir),
        sphere_hit(s, r, t_min, t_max)->Some_0.front_face,
        sphere_hit(s, r, t_min, t_max)->Some_0.p == v3(0, 0, m * SCALE),
{
    let si = SCALE as int;
    // the quadratic's coefficients, all of whose descalings are exact
    crate::fixed::lemma_tdiv_exact(si, si);
    assert((-si) * (-si) == si * si) by (nonlinear_arith);
    assert(hit_a(r) == si);
    assert((k * si) * (-si) == (-k * si) * si) by (nonlinear_arith);
    crate::fixed::lemma_tdiv_exact(-k * si, si);
    assert(hit_half_b(s, r) == -k * si);
    assert((k * si) * (k * si) == (k * k * si) * si) by (nonlinear_arith);
    crate::fixed::lemma_tdiv_exact(k * k * si, si);
    assert((m * si) * (m * si) == (m * m * si) * si) by (nonlinear_arith);
    crate::fixed::lemma_tdiv_exact(m * m * si, si);
    assert(hit_c(s, r) == k * k * si - m * m * si);
    assert(hit_disc(s, r) == (m * si) * (m * si)) by (nonlinear_arith)
        requires
            hit_disc(s, r) == (-k * si) * (-k * si) - si * (k * k * si - m * m * si),
        ;
    assert(m * si >= 0) by (nonlinear_arith)
        requires
            m > 0,
            si == 1_000_000_000,
        ;
    crate::fixed::lemma_isqrt_square(m * si);
    assert((-(-k * si) - m * si) * si == ((k - m) * si) * si) by (nonlinear_arith);
    crate::fixed::lemma_tdiv_exact((k - m) * si, si);
    assert(sphere_hit_t(s, r, t_min, t_max) == Some((k - m) * si));
    // the hit point lands exactly on the surface
    let t = (k - m) * si;
    assert(((k - m) * si) * (-si) == (-(k - m) * si) * si) by (nonlinear_arith);
    crate::fixed::lemma_tdiv_exact(-(k - m) * si, si);
    assert(((k - m) * si) * 0 == 0 * si) by (nonlinear_arith);
    crate::fixed::lemma_tdiv_exact(0, si);
    assert(ray_at(r, t) == v3(0, 0, m * si));
    // the outward normal is exactly the unit axis
    assert((m * si) * si == si * (m * si)) by (nonlinear_arith);
    crate::fixed::lemma_tdiv_exact(si, m * si);
    assert(fxdiv(m * si, m * si) == si);
    assert(0 * si == 0 * (m * si)) by (nonlinear_arith);
    crate::fixed::lemma_tdiv_exact(0, m * si);
    assert(outward_normal_at(s, v3(0, 0, m * si)) == v3(0, 0, si));
    // which faces against the ray: a front-face hit
    assert((-si) * si == (-si) * si);
    crate::fixed::lemma_tdiv_exact(-si, si);
    assert(v3_dot(r.dir, v3(0, 0, si)) == -si) by {
        assert((-si) * si == (-si) * si && 0 * 0int == 0 && (-si) * si + 0 + 0 == (-si) * si);
    }
}

/// A ray travelling parallel to the axis with a perpendicular offset
/// greater than the radius misses the sphere entirely: the discriminant is
/// negative.
pub proof fn lemma_offset_miss(s: SphereV, r: RayV, k: int, m: int, p: int, t_min: int, t_max: int)
    requires
        s.center == v3(0, 0, 0),
        s.radius == m * SCALE,
        r.orig == v3(0, p * SCALE, k * SCALE),
        r.dir == v3(0, 0, -(SCALE as int)),
        0 < m < p,
    ensures
        hit_disc(s, r) < 0,
        sphere_hit(s, r, t_min, t_max) is None,
{
    let si = SCALE as int;
    crate::fixed::lemma_tdiv_exact(si, si);
    assert((-si) * (-si) == si * si) by (nonlinear_arith);
    assert(hit_a(r) == si);
    assert((k * si) * (-si) == (-k * si) * si && (p * si) * 0 == 0 * si) by (nonlinear_arith);
    crate::fixed::lemma_tdiv_exact(-k * si, si);
    assert(hit_half_b(s, r) == -k * si);
    assert((p * si) * (p * si) + (k * si) * (k * si) == ((p * p + k * k) * si) * si)
        by (nonlinear_arith);
    crate::fixed::lemma_tdiv_exact((p * p + k * k) * si, si);
    assert((m * si) * (m * si) == (m * m * si) * si) by (nonlinear_arith);
    crate::fixed::lemma_tdiv_exact(m * m * si, si);
    assert(hit_c(s, r) == (p * p + k * k) * si - m * m * si);
    assert((-k * si) * (-k * si) - si * ((p * p + k * k) * si - m * m * si) == (m * m - p * p) * (si
        * si)) by (nonlinear_arith);
    assert((m * m - p * p) * (si * si) < 0) by (nonlinear_arith)
        requires
            0 < m < p,
            si == 1_000_000_000,
        ;
}

/// Root selection is stable under widening the window: a hit found in a
/// narrow window is also the hit of any wider window, and when a narrow
/// window misses, a wider window's hit lies beyond the narrow one.
pub proof fn lemma_sphere_hit_window(s: SphereV, r: RayV, t_min: int, w: int, bigw: int)
    requires
        w <= bigw,
        1 <= hit_a(r),
    ensures
        sphere_hit_t(s, r, t_min, w) is Some ==> sphere_hit_t(s, r, t_min, bigw) == sphere_hit_t(
            s,
            r,
            t_min,
            w,
        ),
        sphere_hit_t(s, r, t_min, w) is None && sphere_hit_t(s, r, t_min, bigw) is Some
            ==> sphere_hit_t(s, r, t_min, bigw)->Some_0 > w,
{
    let a = hit_a(r);
    let hb = hit_half_b(s, r);
    let disc = hit_disc(s, r);
    if disc >= 0 {
        let sq = isqrt(disc);
        lemma_isqrt(disc);
        let n1 = (-hb - sq) * (SCALE as int);
        let n2 = (-hb + sq) * (SCALE as int);
        assert(n1 <= n2) by (nonlinear_arith)
            requires
                0 <= sq,
                n1 == (-hb - sq) * (SCALE as int),
                n2 == (-hb + sq) * (SCALE as int),
                SCALE == 1_000_000_000,
            ;
        crate::fixed::lemma_tdiv_mono(n1, n2, a);
    }
}

/// One component of the clamped outward normal: `(p - c) / radius`,
/// clamped into the unit-vector range.
fn clamp_div(p: i64, c: i64, radius: i64) -> (r: i64)
    requires
        radius != 0,
        -8_400_000_000_000_000_000 <= p as int - c as int <= 8_400_000_000_000_000_000,
    ensures
        r == clampi(fxdiv(p as int - c as int, radius as int), 4 * SCALE),
        -4 * SCALE as int <= r <= 4 * SCALE as int,
{
    let d: i128 = (p as i128) - (c as i128);
    proof {
        lemma_mul_mag(d as int, SCALE as int, 8_400_000_000_000_000_000, SCALE as int);
    }
    let num: i128 = d * (SCALE as i128);
    let q = tdiv_i128(num, radius as i128);
    let lim: i128 = 4_000_000_000;
    if q < -lim {
        -4_000_000_000
    } else if q > lim {
        4_000_000_000
    } else {
        q as i64
    }
}

} // verus!
