//! The camera: an orthonormal-ish viewing basis derived once from the user
//! parameters, and per-sample ray generation with a thin-lens aperture.
//!
//! Angles are taken in already-projected form: the vertical field of view
//! as the tangent of its half-angle, and the rolled "up" reference as a
//! vector; a caller thinking in degrees converts before construction.

use vstd::prelude::*;
use crate::fixed::{SCALE, fxmul, fxdiv, lemma_tdiv_mag};
use crate::ray::{Ray, RayV, PMAX, DMAX};
use crate::sphere::CMAX;
use crate::vec::{
    Vec3, Point3, V3, v3_add, v3_sub, v3_scale, v3_div, v3_cross, v3_normalize, v3_len_sq,
    bounded, lemma_mul_mag, NMAX,
};

verus! {

/// The mathematical value of a camera basis.
pub ghost struct CameraV {
    pub origin: V3,
    pub lower_left_corner: V3,
    pub horizontal: V3,
    pub vertical: V3,
    pub u: V3,
    pub v: V3,
    pub lens_radius: int,
}

#[derive(Clone, Copy)]
pub struct Camera {
    pub origin: Point3,
    pub lower_left_corner: Point3,
    pub horizontal: Vec3,
    pub vertical: Vec3,
    pub u: Vec3,
    pub v: Vec3,
    pub lens_radius: i64,
}

impl View for Camera {
    type V = CameraV;

    open spec fn view(&self) -> CameraV {
        CameraV {
            origin: self.origin@,
            lower_left_corner: self.lower_left_corner@,
            horizontal: self.horizontal@,
            vertical: self.vertical@,
            u: self.u@,
            v: self.v@,
            lens_radius: self.lens_radius as int,
        }
    }
}

/// The derived basis, exactly as `Camera::new` computes it.
pub open spec fn camera_make(
    origin: V3,
    look_at: V3,
    vup: V3,
    tan_half_fov: int,
    aspect_ratio: int,
    aperture: int,
    focus_dist: int,
) -> CameraV {
    let viewport_height = 2 * tan_half_fov;
    let viewport_width = fxmul(aspect_ratio, viewport_height);
    let w_axis = v3_normalize(v3_sub(origin, look_at));
    let u_axis = v3_normalize(v3_cross(vup, w_axis));
    let v_axis = v3_cross(w_axis, u_axis);
    let horizontal = v3_scale(v3_scale(u_axis, viewport_width), focus_dist);
    let vertical = v3_scale(v3_scale(v_axis, viewport_height), focus_dist);
    let lower_left_corner = v3_sub(
        v3_sub(v3_sub(origin, v3_div(horizontal, 2 * SCALE)), v3_div(vertical, 2 * SCALE)),
        v3_scale(w_axis, focus_dist),
    );
    CameraV {
        origin: origin,
        lower_left_corner: lower_left_corner,
        horizontal: horizontal,
        vertical: vertical,
        u: u_axis,
        v: v_axis,
        lens_radius: fxdiv(aperture, 2 * SCALE),
    }
}

/// Ranges inside which ray generation stays within the tracer's caps.
pub open spec fn camera_wf(c: CameraV) -> bool {
    &&& bounded(c.origin, CMAX as int)
    &&& bounded(c.lower_left_corner, 6_600_000_000_000)
    &&& bounded(c.horizontal, 1_950_000_000_000)
    &&& bounded(c.vertical, 2_900_000_000_000)
    &&& bounded(c.u, 3_000_000_000)
    &&& bounded(c.v, 18_000_000_000)
    &&& 0 <= c.lens_radius <= SCALE
}

/// A lens sample: what `random_in_unit_disk` produces.
pub open spec fn disk_sample(d: V3) -> bool {
    &&& bounded(d, SCALE as int)
    &&& d.z == 0
    &&& v3_len_sq(d) < SCALE
}

/// The ray cast for image coordinates `(s, t)` with lens sample `d`.
pub open spec fn cam_ray(c: CameraV, s: int, t: int, d: V3) -> RayV {
    let rd = v3_scale(d, c.lens_radius);
    let offset = v3_add(v3_scale(c.u, rd.x), v3_scale(c.v, rd.y));
    RayV {
        orig: v3_add(c.origin, offset),
        dir: v3_sub(
            v3_sub(
                v3_add(
                    v3_add(c.lower_left_corner, v3_scale(c.horizontal, s)),
                    v3_scale(c.vertical, t),
                ),
                c.origin,
            ),
            offset,
        ),
    }
}

impl Camera {
    /// Build the viewing basis. `tan_half_fov` is the tangent of half the
    /// vertical field of view; `vup` is the (possibly rolled) up
    /// reference, which must not be parallel to the view axis.
    pub fn new(
        origin: Point3,
        look_at: Point3,
        vup: Vec3,
        tan_half_fov: i64,
        aspect_ratio: i64,
        aperture: i64,
        focus_dist: i64,
    ) -> (cam: Camera)
        requires
            bounded(origin@, CMAX as int),
            bounded(look_at@, CMAX as int),
            v3_len_sq(v3_sub(origin@, look_at@)) >= 1,
            bounded(vup@, NMAX as int),
            v3_len_sq(v3_cross(vup@, v3_normalize(v3_sub(origin@, look_at@)))) >= 1,
            0 < tan_half_fov <= 2 * SCALE,
            0 < aspect_ratio <= 4 * SCALE,
            0 <= aperture <= 2 * SCALE,
            10_000_000 <= focus_dist <= 40 * SCALE,
        ensures
            cam@ == camera_make(
                origin@,
                look_at@,
                vup@,
                tan_half_fov as int,
                aspect_ratio as int,
                aperture as int,
                focus_dist as int,
            ),
            camera_wf(cam@),
    {
        let s = SCALE;
        let viewport_height = 2 * tan_half_fov;
        proof {
            lemma_mul_mag(
                aspect_ratio as int,
                viewport_height as int,
                4_000_000_000,
                4_000_000_000,
            );
            assert(4_000_000_000int * 4_000_000_000int <= 16_000_000_000int * 1_000_000_000int)
                by (nonlinear_arith);
            lemma_tdiv_mag(
                (aspect_ratio as int) * (viewport_height as int),
                SCALE as int,
                16_000_000_000,
            );
        }
        let viewport_width = crate::fixed::mul_fx(aspect_ratio, viewport_height);
        let w_axis = origin.sub(look_at).normalized();
        let crossed = vup.cross(w_axis);
        proof {
            assert(2 * (8_000_000_000int * 3_000_000_000int) <= 48_000_000_000int
                * 1_000_000_000int) by (nonlinear_arith);
            lemma_cross_comp_bound(vup@, w_axis@, 8_000_000_000, 3_000_000_000, 48_000_000_000);
        }
        let u_axis = crossed.normalized();
        proof {
            assert(2 * (3_000_000_000int * 3_000_000_000int) <= 18_000_000_000int
                * 1_000_000_000int) by (nonlinear_arith);
            lemma_cross_comp_bound(w_axis@, u_axis@, 3_000_000_000, 3_000_000_000, 18_000_000_000);
            assert(3_000_000_000int * 16_000_000_000int <= 48_000_000_000int * 1_000_000_000int)
                by (nonlinear_arith);
            assert(48_000_000_000int * 40_000_000_000int <= 1_920_000_000_000int
                * 1_000_000_000int) by (nonlinear_arith);
            scale2_bounds(
                u_axis@,
                viewport_width as int,
                focus_dist as int,
                3_000_000_000,
                16_000_000_000,
                40_000_000_000,
                48_000_000_000,
                1_920_000_000_000,
            );
        }
        let v_axis = w_axis.cross(u_axis);
        proof {
            assert(18_000_000_000int * 4_000_000_000int <= 72_000_000_000int * 1_000_000_000int)
                by (nonlinear_arith);
            assert(72_000_000_000int * 40_000_000_000int <= 2_880_000_000_000int
                * 1_000_000_000int) by (nonlinear_arith);
            scale2_bounds(
                v_axis@,
                viewport_height as int,
                focus_dist as int,
                18_000_000_000,
                4_000_000_000,
                40_000_000_000,
                72_000_000_000,
                2_880_000_000_000,
            );
        }
        let horizontal = u_axis.scale(viewport_width).scale(focus_dist);
        let vertical = v_axis.scale(viewport_height).scale(focus_dist);
        proof {
            div_half_bounds(horizontal@, 975_000_000_000);
            div_half_bounds(vertical@, 1_450_000_000_000);
            assert(3_000_000_000int * 40_000_000_000int <= 120_000_000_000int * 1_000_000_000int)
                by (nonlinear_arith);
            scale1_bounds(w_axis@, focus_dist as int, 3_000_000_000, 40_000_000_000, 120_000_000_000);
        }
        let half_h = horizontal.div(2 * s);
        let half_v = vertical.div(2 * s);
        let w_focus = w_axis.scale(focus_dist);
        let lower_left_corner = origin.sub(half_h).sub(half_v).sub(w_focus);
        proof {
            let si = SCALE as int;
            lemma_mul_mag(aperture as int, si, 2 * si, si);
            assert((2 * si) * si == si * (2 * si)) by (nonlinear_arith);
            lemma_tdiv_mag((aperture as int) * si, 2 * si, si);
            vstd::arithmetic::div_mod::lemma_div_pos_is_pos((aperture as int) * si, 2 * si);
        }
        let lens_radius = crate::fixed::div_fx(aperture, 2 * s);
        Camera {
            origin,
            lower_left_corner,
            horizontal,
            vertical,
            u: u_axis,
            v: v_axis,
            lens_radius,
        }
    }

    /// Cast the ray for normalized image coordinates `(s, t)`, with a
    /// random thin-lens offset: the result is exactly `cam_ray` for the
    /// lens sample that was drawn.
    pub fn get_ray(&self, s: i64, t: i64, rng: &mut rand::rngs::StdRng) -> (r: Ray)
        requires
            camera_wf(self@),
            0 <= s <= SCALE,
            0 <= t <= SCALE,
        ensures
            exists|d: V3| disk_sample(d) && r@ == cam_ray(self@, s as int, t as int, d),
            bounded(r@.orig, PMAX as int),
            bounded(r@.dir, DMAX as int),
    {
        let d = Vec3::random_in_unit_disk(rng);
        proof {
            assert(1_000_000_000int * 1_000_000_000int <= 1_000_000_000int * 1_000_000_000int)
                by (nonlinear_arith);
            scale1_bounds(d@, self@.lens_radius, 1_000_000_000, 1_000_000_000, 1_000_000_000);
        }
        let rd = d.scale(self.lens_radius);
        proof {
            assert(3_000_000_000int * 1_000_000_000int <= 3_000_000_000int * 1_000_000_000int)
                by (nonlinear_arith);
            scale1_bounds(self@.u, rd@.x, 3_000_000_000, 1_000_000_000, 3_000_000_000);
            assert(18_000_000_000int * 1_000_000_000int <= 18_000_000_000int * 1_000_000_000int)
                by (nonlinear_arith);
            scale1_bounds(self@.v, rd@.y, 18_000_000_000, 1_000_000_000, 18_000_000_000);
            assert(1_950_000_000_000int * 1_000_000_000int <= 1_950_000_000_000int
                * 1_000_000_000int) by (nonlinear_arith);
            scale1_bounds(self@.horizontal, s as int, 1_950_000_000_000, 1_000_000_000, 1_950_000_000_000);
            assert(2_900_000_000_000int * 1_000_000_000int <= 2_900_000_000_000int
                * 1_000_000_000int) by (nonlinear_arith);
            scale1_bounds(self@.vertical, t as int, 2_900_000_000_000, 1_000_000_000, 2_900_000_000_000);
        }
        let offset = self.u.scale(rd.x()).add(self.v.scale(rd.y()));
        let orig = self.origin.add(offset);
        let dir = self
            .lower_left_corner
            .add(self.horizontal.scale(s))
            .add(self.vertical.scale(t))
            .sub(self.origin)
            .sub(offset);
        let r = Ray::new(orig, dir);
        proof {
            assert(disk_sample(d@) && r@ == cam_ray(self@, s as int, t as int, d@));
        }
        r
    }
}

/// Component bound for a cross product of bounded vectors, against a
/// chosen cap.
proof fn lemma_cross_comp_bound(a: V3, b: V3, ma: int, mb: int, cap: int)
    requires
        bounded(a, ma),
        bounded(b, mb),
        0 <= ma,
        0 <= mb,
        0 <= cap,
        2 * (ma * mb) <= cap * (SCALE as int),
    ensures
        bounded(v3_cross(a, b), cap),
{
    let s = SCALE as int;
    lemma_mul_mag(a.y, b.z, ma, mb);
    lemma_mul_mag(a.z, b.y, ma, mb);
    lemma_mul_mag(a.z, b.x, ma, mb);
    lemma_mul_mag(a.x, b.z, ma, mb);
    lemma_mul_mag(a.x, b.y, ma, mb);
    lemma_mul_mag(a.y, b.x, ma, mb);
    lemma_tdiv_mag(a.y * b.z - a.z * b.y, s, cap);
    lemma_tdiv_mag(a.z * b.x - a.x * b.z, s, cap);
    lemma_tdiv_mag(a.x * b.y - a.y * b.x, s, cap);
}

/// Component bound for one `scale` application, against a chosen cap.
proof fn scale1_bounds(a: V3, k: int, ma: int, mk: int, cap: int)
    requires
        bounded(a, ma),
        -mk <= k <= mk,
        0 <= ma,
        0 <= mk,
        0 <= cap,
        ma * mk <= cap * (SCALE as int),
    ensures
        bounded(v3_scale(a, k), cap),
{
    let s = SCALE as int;
    lemma_mul_mag(a.x, k, ma, mk);
    lemma_mul_mag(a.y, k, ma, mk);
    lemma_mul_mag(a.z, k, ma, mk);
    lemma_tdiv_mag(a.x * k, s, cap);
    lemma_tdiv_mag(a.y * k, s, cap);
    lemma_tdiv_mag(a.z * k, s, cap);
}

/// Component bound for two nested `scale` applications.
proof fn scale2_bounds(
    a: V3,
    k1: int,
    k2: int,
    ma: int,
    mk1: int,
    mk2: int,
    cap1: int,
    cap2: int,
)
    requires
        bounded(a, ma),
        -mk1 <= k1 <= mk1,
        -mk2 <= k2 <= mk2,
        0 <= ma,
        0 <= mk1,
        0 <= mk2,
        0 <= cap1,
        0 <= cap2,
        ma * mk1 <= cap1 * (SCALE as int),
        cap1 * mk2 <= cap2 * (SCALE as int),
    ensures
        bounded(v3_scale(a, k1), cap1),
        bounded(v3_scale(v3_scale(a, k1), k2), cap2),
{
    scale1_bounds(a, k1, ma, mk1, cap1);
    scale1_bounds(v3_scale(a, k1), k2, cap1, mk2, cap2);
}

/// Component bound for halving a bounded vector (division by two).
proof fn div_half_bounds(a: V3, c: int)
    requires
        bounded(a, 2 * c),
        0 <= c,
    ensures
        bounded(v3_div(a, 2 * SCALE as int), c),
{
    let s = SCALE as int;
    lemma_mul_mag(a.x, s, 2 * c, s);
    lemma_mul_mag(a.y, s, 2 * c, s);
    lemma_mul_mag(a.z, s, 2 * c, s);
    assert((2 * c) * s == c * (2 * s)) by (nonlinear_arith);
    lemma_tdiv_mag(a.x * s, 2 * s, c);
    lemma_tdiv_mag(a.y * s, 2 * s, c);
    lemma_tdiv_mag(a.z * s, 2 * s, c);
}

} // verus!
