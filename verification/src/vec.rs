//! Three-component vectors over fixed-point scalars, serving as positions,
//! directions and colors. Every operation's result is pinned exactly, at the
//! integer level, by a spec-side mirror over the ghost type `V3`.

use vstd::prelude::*;
use crate::fixed::{
    SCALE, tdiv, fxmul, fxdiv, fxsqrt, isqrt, fits_i64, lemma_isqrt, lemma_tdiv_mag,
    lemma_tdiv_bounds, tdiv_i128, sqrt_fx, mul_fx, div_fx,
};
use crate::rng::sample_fx;

verus! {

/// Cap on the components of any vector fed to `dot` or `cross`:
/// large enough for every position and direction the tracer forms,
/// small enough that squared lengths stay inside `i64`.
pub const VMAX: i64 = 17_000_000_000_000;

/// Cap on the components of unit-length-like vectors (normals,
/// normalized directions).
pub const NMAX: i64 = 8_000_000_000;

/// The mathematical value of a vector: three unbounded integers, each a
/// fixed-point scalar (the real component times `SCALE`).
pub ghost struct V3 {
    pub x: int,
    pub y: int,
    pub z: int,
}

pub open spec fn v3(x: int, y: int, z: int) -> V3 {
    V3 { x, y, z }
}

/// All three components lie within `[-m, m]`.
pub open spec fn bounded(v: V3, m: int) -> bool {
    &&& -m <= v.x <= m
    &&& -m <= v.y <= m
    &&& -m <= v.z <= m
}

pub open spec fn v3_add(a: V3, b: V3) -> V3 {
    v3(a.x + b.x, a.y + b.y, a.z + b.z)
}

pub open spec fn v3_sub(a: V3, b: V3) -> V3 {
    v3(a.x - b.x, a.y - b.y, a.z - b.z)
}

pub open spec fn v3_neg(a: V3) -> V3 {
    v3(-a.x, -a.y, -a.z)
}

/// Scaling by a fixed-point scalar: each component is a scaled product.
pub open spec fn v3_scale(a: V3, k: int) -> V3 {
    v3(fxmul(a.x, k), fxmul(a.y, k), fxmul(a.z, k))
}

/// Component-wise product (color attenuation).
pub open spec fn v3_mul(a: V3, b: V3) -> V3 {
    v3(fxmul(a.x, b.x), fxmul(a.y, b.y), fxmul(a.z, b.z))
}

/// Division by a fixed-point scalar.
pub open spec fn v3_div(a: V3, k: int) -> V3 {
    v3(fxdiv(a.x, k), fxdiv(a.y, k), fxdiv(a.z, k))
}

/// The dot product: the raw component products are summed first, and the
/// sum is descaled once.
pub open spec fn v3_dot(a: V3, b: V3) -> int {
    tdiv(a.x * b.x + a.y * b.y + a.z * b.z, SCALE as int)
}

/// The cross product, each component descaled once.
pub open spec fn v3_cross(a: V3, b: V3) -> V3 {
    v3(
        tdiv(a.y * b.z - a.z * b.y, SCALE as int),
        tdiv(a.z * b.x - a.x * b.z, SCALE as int),
        tdiv(a.x * b.y - a.y * b.x, SCALE as int),
    )
}

pub open spec fn v3_len_sq(a: V3) -> int {
    v3_dot(a, a)
}

/// The fixed-point length: `sqrt` of the squared length.
pub open spec fn v3_len(a: V3) -> int {
    fxsqrt(v3_len_sq(a))
}

pub open spec fn v3_normalize(a: V3) -> V3 {
    v3_div(a, v3_len(a))
}

/// Reflection about a normal: `v - 2 * dot(v, n) * n`, with the doubled
/// product descaled once per component.
pub open spec fn v3_reflect(v: V3, n: V3) -> V3 {
    let d = v3_dot(v, n);
    v3(
        v.x - tdiv(2 * d * n.x, SCALE as int),
        v.y - tdiv(2 * d * n.y, SCALE as int),
        v.z - tdiv(2 * d * n.z, SCALE as int),
    )
}

pub open spec fn imin(a: int, b: int) -> int {
    if a < b {
        a
    } else {
        b
    }
}

pub open spec fn iabs(a: int) -> int {
    if a < 0 {
        -a
    } else {
        a
    }
}

/// Refraction by Snell's law, decomposed into the component perpendicular
/// to the normal and the parallel remainder.
pub open spec fn v3_refract(uv: V3, n: V3, eta: int) -> V3 {
    let cos = imin(v3_dot(v3_neg(uv), n), SCALE as int);
    let perp = v3_scale(v3_add(uv, v3_scale(n, cos)), eta);
    let k = fxsqrt(iabs(SCALE - v3_len_sq(perp)));
    v3_sub(perp, v3_scale(n, k))
}

/// A vector, point, or color: three fixed-point components.
#[derive(Clone, Copy, Debug, PartialEq, Eq, Structural)]
pub struct Vec3 {
    pub ex: i64,
    pub ey: i64,
    pub ez: i64,
}

pub type Point3 = Vec3;

pub type Color = Vec3;

impl View for Vec3 {
    type V = V3;

    open spec fn view(&self) -> V3 {
        v3(self.ex as int, self.ey as int, self.ez as int)
    }
}

/// `|a * b| <= m1 * m2` when `|a| <= m1` and `|b| <= m2`.
pub proof fn lemma_mul_mag(a: int, b: int, m1: int, m2: int)
    requires
        -m1 <= a <= m1,
        -m2 <= b <= m2,
        0 <= m1,
        0 <= m2,
    ensures
        -(m1 * m2) <= a * b <= m1 * m2,
{
    assert(-(m1 * m2) <= a * b <= m1 * m2) by (nonlinear_arith)
        requires
            -m1 <= a <= m1,
            -m2 <= b <= m2,
            0 <= m1,
            0 <= m2,
        ;
}

/// The dot product of vectors bounded by `ma` and `mb` is bounded by any
/// `c` with `3 * ma * mb <= c * SCALE`.
pub proof fn lemma_dot_bound(a: V3, b: V3, ma: int, mb: int, c: int)
    requires
        bounded(a, ma),
        bounded(b, mb),
        0 <= ma,
        0 <= mb,
        0 <= c,
        3 * (ma * mb) <= c * (SCALE as int),
    ensures
        -c <= v3_dot(a, b) <= c,
{
    lemma_mul_mag(a.x, b.x, ma, mb);
    lemma_mul_mag(a.y, b.y, ma, mb);
    lemma_mul_mag(a.z, b.z, ma, mb);
    lemma_tdiv_mag(a.x * b.x + a.y * b.y + a.z * b.z, SCALE as int, c);
}

/// A component of a vector whose squared length (plus rounding slack) is
/// below `(l + 1)^2` has magnitude at most `3 * l`, once `l` clears the
/// square root of one quantum's scaling.
proof fn lemma_comp_le_3l(x: int, l: int, q: int, s: int)
    requires
        s == 1_000_000_000,
        l >= 31622,
        q < (l + 1) * (l + 1),
        x * x <= q + s - 1,
    ensures
        -(3 * l) <= x <= 3 * l,
{
    assert(-(3 * l) <= x <= 3 * l) by (nonlinear_arith)
        requires
            s == 1_000_000_000,
            l >= 31622,
            q < (l + 1) * (l + 1),
            x * x <= q + s - 1,
        ;
}

/// A vector's squared length is nonnegative.
pub proof fn lemma_len_sq_nonneg(a: V3)
    ensures
        v3_len_sq(a) >= 0,
{
    assert(a.x * a.x >= 0 && a.y * a.y >= 0 && a.z * a.z >= 0) by (nonlinear_arith);
    vstd::arithmetic::div_mod::lemma_div_pos_is_pos(
        a.x * a.x + a.y * a.y + a.z * a.z,
        SCALE as int,
    );
}

impl Vec3 {
    pub fn new(e0: i64, e1: i64, e2: i64) -> (v: Vec3)
        ensures
            v@ == v3(e0 as int, e1 as int, e2 as int),
    {
        Vec3 { ex: e0, ey: e1, ez: e2 }
    }

    pub fn x(self) -> (r: i64)
        ensures
            r == self@.x,
    {
        self.ex
    }

    pub fn y(self) -> (r: i64)
        ensures
            r == self@.y,
    {
        self.ey
    }

    pub fn z(self) -> (r: i64)
        ensures
            r == self@.z,
    {
        self.ez
    }

    pub fn add(self, rhs: Vec3) -> (r: Vec3)
        requires
            fits_i64(self@.x + rhs@.x),
            fits_i64(self@.y + rhs@.y),
            fits_i64(self@.z + rhs@.z),
        ensures
            r@ == v3_add(self@, rhs@),
    {
        Vec3 { ex: self.ex + rhs.ex, ey: self.ey + rhs.ey, ez: self.ez + rhs.ez }
    }

    pub fn sub(self, rhs: Vec3) -> (r: Vec3)
        requires
            fits_i64(self@.x - rhs@.x),
            fits_i64(self@.y - rhs@.y),
            fits_i64(self@.z - rhs@.z),
        ensures
            r@ == v3_sub(self@, rhs@),
    {
        Vec3 { ex: self.ex - rhs.ex, ey: self.ey - rhs.ey, ez: self.ez - rhs.ez }
    }

    pub fn neg(self) -> (r: Vec3)
        requires
            self@.x != i64::MIN as int,
            self@.y != i64::MIN as int,
            self@.z != i64::MIN as int,
        ensures
            r@ == v3_neg(self@),
    {
        Vec3 { ex: -self.ex, ey: -self.ey, ez: -self.ez }
    }

    /// Scale by a fixed-point factor `k`.
    pub fn scale(self, k: i64) -> (r: Vec3)
        requires
            fits_i64(fxmul(self@.x, k as int)),
            fits_i64(fxmul(self@.y, k as int)),
            fits_i64(fxmul(self@.z, k as int)),
        ensures
            r@ == v3_scale(self@, k as int),
    {
        Vec3 { ex: mul_fx(self.ex, k), ey: mul_fx(self.ey, k), ez: mul_fx(self.ez, k) }
    }

    /// Component-wise product, used for color attenuation.
    pub fn mul(self, rhs: Vec3) -> (r: Vec3)
        requires
            fits_i64(fxmul(self@.x, rhs@.x)),
            fits_i64(fxmul(self@.y, rhs@.y)),
            fits_i64(fxmul(self@.z, rhs@.z)),
        ensures
            r@ == v3_mul(self@, rhs@),
    {
        Vec3 { ex: mul_fx(self.ex, rhs.ex), ey: mul_fx(self.ey, rhs.ey), ez: mul_fx(self.ez, rhs.ez) }
    }

    /// Divide by a fixed-point factor `k`.
    pub fn div(self, k: i64) -> (r: Vec3)
        requires
            k != 0,
            fits_i64(fxdiv(self@.x, k as int)),
            fits_i64(fxdiv(self@.y, k as int)),
            fits_i64(fxdiv(self@.z, k as int)),
        ensures
            r@ == v3_div(self@, k as int),
    {
        Vec3 { ex: div_fx(self.ex, k), ey: div_fx(self.ey, k), ez: div_fx(self.ez, k) }
    }

    pub fn dot(self, rhs: Vec3) -> (r: i64)
        requires
            bounded(self@, VMAX as int),
            bounded(rhs@, VMAX as int),
        ensures
            r == v3_dot(self@, rhs@),
            -900_000_000_000_000_000 <= r <= 900_000_000_000_000_000,
    {
        proof {
            let m = VMAX as int;
            lemma_mul_mag(self@.x, rhs@.x, m, m);
            lemma_mul_mag(self@.y, rhs@.y, m, m);
            lemma_mul_mag(self@.z, rhs@.z, m, m);
            lemma_tdiv_mag(
                self@.x * rhs@.x + self@.y * rhs@.y + self@.z * rhs@.z,
                SCALE as int,
                900_000_000_000_000_000,
            );
        }
        let raw: i128 = (self.ex as i128) * (rhs.ex as i128) + (self.ey as i128) * (rhs.ey as i128)
            + (self.ez as i128) * (rhs.ez as i128);
        let q = tdiv_i128(raw, SCALE as i128);
        q as i64
    }

    pub fn cross(self, rhs: Vec3) -> (r: Vec3)
        requires
            bounded(self@, VMAX as int),
            bounded(rhs@, VMAX as int),
        ensures
            r@ == v3_cross(self@, rhs@),
            bounded(r@, 600_000_000_000_000_000),
    {
        proof {
            let m = VMAX as int;
            lemma_mul_mag(self@.y, rhs@.z, m, m);
            lemma_mul_mag(self@.z, rhs@.y, m, m);
            lemma_mul_mag(self@.z, rhs@.x, m, m);
            lemma_mul_mag(self@.x, rhs@.z, m, m);
            lemma_mul_mag(self@.x, rhs@.y, m, m);
            lemma_mul_mag(self@.y, rhs@.x, m, m);
            lemma_tdiv_mag(self@.y * rhs@.z - self@.z * rhs@.y, SCALE as int, 600_000_000_000_000_000);
            lemma_tdiv_mag(self@.z * rhs@.x - self@.x * rhs@.z, SCALE as int, 600_000_000_000_000_000);
            lemma_tdiv_mag(self@.x * rhs@.y - self@.y * rhs@.x, SCALE as int, 600_000_000_000_000_000);
        }
        let cx: i128 = (self.ey as i128) * (rhs.ez as i128) - (self.ez as i128) * (rhs.ey as i128);
        let cy: i128 = (self.ez as i128) * (rhs.ex as i128) - (self.ex as i128) * (rhs.ez as i128);
        let cz: i128 = (self.ex as i128) * (rhs.ey as i128) - (self.ey as i128) * (rhs.ex as i128);
        let qx = tdiv_i128(cx, SCALE as i128);
        let qy = tdiv_i128(cy, SCALE as i128);
        let qz = tdiv_i128(cz, SCALE as i128);
        Vec3 { ex: qx as i64, ey: qy as i64, ez: qz as i64 }
    }

    pub fn length_squared(self) -> (r: i64)
        requires
            bounded(self@, VMAX as int),
        ensures
            r == v3_len_sq(self@),
            0 <= r <= 900_000_000_000_000_000,
    {
        proof {
            lemma_len_sq_nonneg(self@);
        }
        self.dot(self)
    }

    pub fn length(self) -> (r: i64)
        requires
            bounded(self@, VMAX as int),
        ensures
            r == v3_len(self@),
            0 <= r,
            r * r <= v3_len_sq(self@) * (SCALE as int),
            v3_len_sq(self@) * (SCALE as int) < (r + 1) * (r + 1),
    {
        let ls = self.length_squared();
        sqrt_fx(ls)
    }

    /// Normalize to (fixed-point) unit length. The input must not be
    /// degenerate: its squared length must be at least one quantum.
    pub fn normalized(self) -> (r: Vec3)
        requires
            bounded(self@, VMAX as int),
            v3_len_sq(self@) >= 1,
        ensures
            r@ == v3_normalize(self@),
            bounded(r@, 3 * SCALE as int),
    {
        let len = self.length();
        proof {
            let s = SCALE as int;
            let d = v3_len_sq(self@);
            let q = d * s;
            let l = v3_len(self@);
            crate::fixed::lemma_isqrt(q);
            crate::fixed::lemma_isqrt_unique(s, 31622);
            assert(s <= q) by (nonlinear_arith)
                requires
                    d >= 1,
                    s == 1_000_000_000,
                    q == d * s,
                ;
            crate::fixed::lemma_isqrt_mono(s, q);
            // each component squared is at most q + s - 1
            let raw = self@.x * self@.x + self@.y * self@.y + self@.z * self@.z;
            vstd::arithmetic::div_mod::lemma_fundamental_div_mod(raw, s);
            vstd::arithmetic::div_mod::lemma_mod_bound(raw, s);
            assert(self@.x * self@.x >= 0 && self@.y * self@.y >= 0 && self@.z * self@.z >= 0)
                by (nonlinear_arith);
            assert(raw >= 0);
            assert(d == raw / s);
            assert(s * (raw / s) == (raw / s) * s) by (nonlinear_arith);
            assert(raw <= q + s - 1);
            lemma_comp_le_3l(self@.x, l, q, s);
            lemma_comp_le_3l(self@.y, l, q, s);
            lemma_comp_le_3l(self@.z, l, q, s);
            lemma_mul_mag(self@.x, s, 3 * l, s);
            lemma_mul_mag(self@.y, s, 3 * l, s);
            lemma_mul_mag(self@.z, s, 3 * l, s);
            assert((3 * l) * s == (3 * s) * l) by (nonlinear_arith);
            lemma_tdiv_mag(self@.x * s, l, 3 * s);
            lemma_tdiv_mag(self@.y * s, l, 3 * s);
            lemma_tdiv_mag(self@.z * s, l, 3 * s);
        }
        self.div(len)
    }

    /// All components are below the degeneracy threshold of `1e-8`.
    pub fn near_zero(self) -> (r: bool)
        ensures
            r == (iabs(self@.x) < 10 && iabs(self@.y) < 10 && iabs(self@.z) < 10),
    {
        -10 < self.ex && self.ex < 10 && -10 < self.ey && self.ey < 10 && -10 < self.ez && self.ez
            < 10
    }

    /// Reflect an incoming direction about a unit-like normal.
    pub fn reflect(self, n: Vec3) -> (r: Vec3)
        requires
            bounded(self@, 4_096_000_000_000),
            bounded(n@, NMAX as int),
        ensures
            r@ == v3_reflect(self@, n@),
            bounded(r@, 2_000_000_000_000_000),
    {
        let d = self.dot(n);
        proof {
            let s = SCALE as int;
            lemma_dot_bound(self@, n@, 4_096_000_000_000, NMAX as int, 100_000_000_000_000);
            lemma_mul_mag(2 * (d as int), n@.x, 200_000_000_000_000, NMAX as int);
            lemma_mul_mag(2 * (d as int), n@.y, 200_000_000_000_000, NMAX as int);
            lemma_mul_mag(2 * (d as int), n@.z, 200_000_000_000_000, NMAX as int);
            lemma_tdiv_mag(2 * (d as int) * n@.x, s, 1_600_000_000_000_000);
            lemma_tdiv_mag(2 * (d as int) * n@.y, s, 1_600_000_000_000_000);
            lemma_tdiv_mag(2 * (d as int) * n@.z, s, 1_600_000_000_000_000);
        }
        let tx = tdiv_i128(2 * (d as i128) * (n.ex as i128), SCALE as i128);
        let ty = tdiv_i128(2 * (d as i128) * (n.ey as i128), SCALE as i128);
        let tz = tdiv_i128(2 * (d as i128) * (n.ez as i128), SCALE as i128);
        Vec3 { ex: self.ex - tx as i64, ey: self.ey - ty as i64, ez: self.ez - tz as i64 }
    }

    /// Refract a unit incoming direction through a surface with the given
    /// ratio of refractive indices, by Snell's law. Floating-point
    /// overshoot in the parallel term is guarded by the absolute value,
    /// exactly as the spec-side `v3_refract` states.
    pub fn refract(self, n: Vec3, etai_over_etat: i64) -> (r: Vec3)
        requires
            bounded(self@, NMAX as int),
            bounded(n@, NMAX as int),
            0 <= etai_over_etat <= 4 * SCALE,
        ensures
            r@ == v3_refract(self@, n@, etai_over_etat as int),
            bounded(r@, 200_000_000_000_000),
    {
        proof {
            lemma_dot_bound(
                v3_neg(self@),
                n@,
                NMAX as int,
                NMAX as int,
                192_000_000_000,
            );
        }
        let cos_raw = self.neg().dot(n);
        let cos_theta = if cos_raw > SCALE {
            SCALE
        } else {
            cos_raw
        };
        proof {
            let s = SCALE as int;
            lemma_mul_mag(n@.x, cos_theta as int, NMAX as int, 192_000_000_000);
            lemma_mul_mag(n@.y, cos_theta as int, NMAX as int, 192_000_000_000);
            lemma_mul_mag(n@.z, cos_theta as int, NMAX as int, 192_000_000_000);
            lemma_tdiv_mag(n@.x * (cos_theta as int), s, 1_536_000_000_000);
            lemma_tdiv_mag(n@.y * (cos_theta as int), s, 1_536_000_000_000);
            lemma_tdiv_mag(n@.z * (cos_theta as int), s, 1_536_000_000_000);
        }
        let cos_n = n.scale(cos_theta);
        let shifted = self.add(cos_n);
        proof {
            let s = SCALE as int;
            lemma_mul_mag(shifted@.x, etai_over_etat as int, 1_544_000_000_000, 4 * s);
            lemma_mul_mag(shifted@.y, etai_over_etat as int, 1_544_000_000_000, 4 * s);
            lemma_mul_mag(shifted@.z, etai_over_etat as int, 1_544_000_000_000, 4 * s);
            lemma_tdiv_mag(shifted@.x * (etai_over_etat as int), s, 6_176_000_000_000);
            lemma_tdiv_mag(shifted@.y * (etai_over_etat as int), s, 6_176_000_000_000);
            lemma_tdiv_mag(shifted@.z * (etai_over_etat as int), s, 6_176_000_000_000);
        }
        let r_out_perp = shifted.scale(etai_over_etat);
        proof {
            lemma_dot_bound(
                r_out_perp@,
                r_out_perp@,
                6_176_000_000_000,
                6_176_000_000_000,
                130_000_000_000_000_000,
            );
        }
        let perp_ls = r_out_perp.length_squared();
        let inner = SCALE - perp_ls;
        let inner_abs = if inner < 0 {
            -inner
        } else {
            inner
        };
        let k = crate::fixed::sqrt_fx(inner_abs);
        proof {
            let s = SCALE as int;
            assert(k as int <= 12_000_000_000_000) by (nonlinear_arith)
                requires
                    0 <= k,
                    (k as int) * (k as int) <= (inner_abs as int) * (SCALE as int),
                    0 <= inner_abs <= 131_000_000_000_000_000,
                    SCALE == 1_000_000_000,
                ;
            lemma_mul_mag(n@.x, k as int, NMAX as int, 12_000_000_000_000);
            lemma_mul_mag(n@.y, k as int, NMAX as int, 12_000_000_000_000);
            lemma_mul_mag(n@.z, k as int, NMAX as int, 12_000_000_000_000);
            lemma_tdiv_mag(n@.x * (k as int), s, 96_000_000_000_000);
            lemma_tdiv_mag(n@.y * (k as int), s, 96_000_000_000_000);
            lemma_tdiv_mag(n@.z * (k as int), s, 96_000_000_000_000);
        }
        let k_n = n.scale(k);
        r_out_perp.sub(k_n)
    }

    /// A vector with each component drawn uniformly from `[lo, hi)`.
    pub fn random(rng: &mut rand::rngs::StdRng, lo: i64, hi: i64) -> (v: Vec3)
        requires
            lo < hi,
        ensures
            lo as int <= v@.x < hi as int,
            lo as int <= v@.y < hi as int,
            lo as int <= v@.z < hi as int,
    {
        let e0 = sample_fx(rng, lo, hi);
        let e1 = sample_fx(rng, lo, hi);
        let e2 = sample_fx(rng, lo, hi);
        Vec3 { ex: e0, ey: e1, ez: e2 }
    }

    /// A nondegenerate vector inside the unit ball, by rejection sampling
    /// (with a fixed in-ball fallback should every attempt be rejected).
    pub fn random_in_unit_sphere(rng: &mut rand::rngs::StdRng) -> (v: Vec3)
        ensures
            bounded(v@, SCALE as int),
            1 <= v3_len_sq(v@) < SCALE,
    {
        let mut tries: u32 = 0;
        while tries < 64
            invariant
                tries <= 64,
            decreases 64 - tries,
        {
            let p = Vec3::random(rng, -SCALE, SCALE);
            let ls = p.length_squared();
            if 1 <= ls && ls < SCALE {
                return p;
            }
            tries = tries + 1;
        }
        let v = Vec3 { ex: 500_000_000, ey: 0, ez: 0 };
        proof {
            crate::fixed::lemma_tdiv_exact(250_000_000, SCALE as int);
        }
        v
    }

    /// A vector in the unit ball, flipped if needed so that it points into
    /// the hemisphere around `normal`.
    pub fn random_in_hemisphere(rng: &mut rand::rngs::StdRng, normal: Vec3) -> (v: Vec3)
        requires
            bounded(normal@, NMAX as int),
        ensures
            bounded(v@, SCALE as int),
            1 <= v3_len_sq(v@) < SCALE,
            v3_dot(v@, normal@) >= 0,
    {
        let in_unit_sphere = Self::random_in_unit_sphere(rng);
        let d = in_unit_sphere.dot(normal);
        if d > 0 {
            in_unit_sphere
        } else {
            proof {
                lemma_dot_neg(in_unit_sphere@, normal@);
                lemma_len_sq_neg(in_unit_sphere@);
            }
            in_unit_sphere.neg()
        }
    }

    /// A nondegenerate sample in the unit disk of the xy-plane, for lens
    /// aperture offsets.
    pub fn random_in_unit_disk(rng: &mut rand::rngs::StdRng) -> (v: Vec3)
        ensures
            bounded(v@, SCALE as int),
            v@.z == 0,
            v3_len_sq(v@) < SCALE,
    {
        let mut tries: u32 = 0;
        while tries < 64
            invariant
                tries <= 64,
            decreases 64 - tries,
        {
            let e0 = sample_fx(rng, -SCALE, SCALE);
            let e1 = sample_fx(rng, -SCALE, SCALE);
            let p = Vec3 { ex: e0, ey: e1, ez: 0 };
            let ls = p.length_squared();
            if ls < SCALE {
                return p;
            }
            tries = tries + 1;
        }
        let v = Vec3 { ex: 0, ey: 0, ez: 0 };
        proof {
            vstd::arithmetic::div_mod::lemma_div_basics(SCALE as int);
        }
        v
    }

    /// Average the accumulated color over the sample count, apply gamma-2
    /// correction and clamp into 8-bit channels.
    pub fn format_color(self, samples_per_pixel: u64) -> (rgb: (u8, u8, u8))
        requires
            1 <= samples_per_pixel <= 1_000_000,
        ensures
            rgb.0 == channel_value(self@.x, samples_per_pixel as int),
            rgb.1 == channel_value(self@.y, samples_per_pixel as int),
            rgb.2 == channel_value(self@.z, samples_per_pixel as int),
    {
        let ir = format_channel(self.ex, samples_per_pixel);
        let ig = format_channel(self.ey, samples_per_pixel);
        let ib = format_channel(self.ez, samples_per_pixel);
        (ir, ig, ib)
    }
}

/// Dividing a scaled component by the length and re-multiplying loses at
/// most one quantum: the square of the rounded value brackets the square
/// of the exact one.
proof fn lemma_scaled_div_sq(x: int, l: int)
    requires
        l >= 1,
    ensures
        (tdiv(x, l) * l) * (tdiv(x, l) * l) <= x * x,
        x * x - 2 * (l * iabs(x)) <= (tdiv(x, l) * l) * (tdiv(x, l) * l),
{
    crate::fixed::lemma_tdiv_bracket(x, l);
    crate::fixed::lemma_tdiv_bounds(x, l);
    let q = tdiv(x, l);
    if x >= 0 {
        assert((q * l) * (q * l) <= x * x && x * x - 2 * (l * iabs(x)) <= (q * l) * (q * l))
            by (nonlinear_arith)
            requires
                x >= 0,
                l >= 1,
                q >= 0,
                x - l < q * l <= x,
                iabs(x) == x,
            ;
    } else {
        assert((q * l) * (q * l) <= x * x && x * x - 2 * (l * iabs(x)) <= (q * l) * (q * l))
            by (nonlinear_arith)
            requires
                x < 0,
                l >= 1,
                q <= 0,
                x <= q * l < x + l,
                iabs(x) == -x,
            ;
    }
}

/// Normalization yields a vector of unit length, to within one
/// ten-thousandth, for every vector that is not vanishingly short: both
/// the squared length and the length of `normalize(v)` land within
/// `100_000` quanta of one.
pub proof fn lemma_normalized_unit_length(v: V3)
    requires
        bounded(v, VMAX as int),
        v3_len_sq(v) >= 1_000_000,
    ensures
        SCALE - 100_000 <= v3_len_sq(v3_normalize(v)) <= SCALE + 100_000,
        SCALE - 100_000 <= v3_len(v3_normalize(v)) <= SCALE + 100_000,
{
    let s = SCALE as int;
    let q_raw = v.x * v.x + v.y * v.y + v.z * v.z;
    let d = v3_len_sq(v);
    let l = v3_len(v);
    let m = VMAX as int;
    // the raw squared length and its descaling
    assert(v.x * v.x >= 0 && v.y * v.y >= 0 && v.z * v.z >= 0) by (nonlinear_arith);
    assert(v.x * v.x <= m * m && v.y * v.y <= m * m && v.z * v.z <= m * m) by (nonlinear_arith)
        requires
            -m <= v.x <= m,
            -m <= v.y <= m,
            -m <= v.z <= m,
            0 <= m,
        ;
    assert(d == q_raw / s);
    vstd::arithmetic::div_mod::lemma_fundamental_div_mod(q_raw, s);
    vstd::arithmetic::div_mod::lemma_mod_bound(q_raw, s);
    assert(s * (q_raw / s) == (q_raw / s) * s) by (nonlinear_arith);
    // so q_raw == d * s + r1 with 0 <= r1 < s
    let r1 = q_raw - d * s;
    assert(0 <= r1 < s);
    // bracket the length
    crate::fixed::lemma_isqrt(d * s);
    assert(l * l <= d * s < (l + 1) * (l + 1));
    assert(1_000_000 * s <= d * s) by (nonlinear_arith)
        requires
            d >= 1_000_000,
            s == 1_000_000_000,
        ;
    assert(31_622_776 * 31_622_776int <= 1_000_000_000_000_000int < 31_622_777 * 31_622_777int)
        by (nonlinear_arith);
    crate::fixed::lemma_isqrt_unique(1_000_000_000_000_000, 31_622_776);
    crate::fixed::lemma_isqrt_mono(1_000_000_000_000_000, d * s);
    assert(l >= 31_622_776);
    // the rounded components and their squared sum
    let nx = tdiv(v.x * s, l);
    let ny = tdiv(v.y * s, l);
    let nz = tdiv(v.z * s, l);
    let n_raw = nx * nx + ny * ny + nz * nz;
    let res = v3_len_sq(v3_normalize(v));
    assert(nx * nx >= 0 && ny * ny >= 0 && nz * nz >= 0) by (nonlinear_arith);
    assert(res == n_raw / s);
    vstd::arithmetic::div_mod::lemma_fundamental_div_mod(n_raw, s);
    vstd::arithmetic::div_mod::lemma_mod_bound(n_raw, s);
    assert(s * (n_raw / s) == (n_raw / s) * s) by (nonlinear_arith);
    let r2 = n_raw - res * s;
    assert(0 <= r2 < s);
    // per-component bracketing of the rounded squares
    lemma_scaled_div_sq(v.x * s, l);
    lemma_scaled_div_sq(v.y * s, l);
    lemma_scaled_div_sq(v.z * s, l);
    // the component magnitudes against the raw squared length
    let w = crate::fixed::isqrt(q_raw);
    crate::fixed::lemma_isqrt(q_raw);
    lemma_comp_le_isqrt(v.x, q_raw, w);
    lemma_comp_le_isqrt(v.y, q_raw, w);
    lemma_comp_le_isqrt(v.z, q_raw, w);
    // w is not much beyond l
    assert(w <= l + 31_625) by (nonlinear_arith)
        requires
            w >= 0,
            l >= 31_622_776,
            w * w <= q_raw,
            q_raw == d * s + r1,
            0 <= r1 < s,
            d * s < (l + 1) * (l + 1),
            s == 1_000_000_000,
        ;
    // total brackets on the raw normalized square sum
    assert(iabs(v.x * s) == iabs(v.x) * s && iabs(v.y * s) == iabs(v.y) * s && iabs(v.z * s)
        == iabs(v.z) * s) by (nonlinear_arith)
        requires
            s >= 1,
        ;
    assert((nx * l) * (nx * l) == (nx * nx) * (l * l) && (ny * l) * (ny * l) == (ny * ny) * (l * l)
        && (nz * l) * (nz * l) == (nz * nz) * (l * l)) by (nonlinear_arith);
    assert((v.x * s) * (v.x * s) == (v.x * v.x) * (s * s) && (v.y * s) * (v.y * s) == (v.y * v.y) * (
    s * s) && (v.z * s) * (v.z * s) == (v.z * v.z) * (s * s)) by (nonlinear_arith);
    assert((nx * nx) * (l * l) + (ny * ny) * (l * l) + (nz * nz) * (l * l) == n_raw * (l * l))
        by (nonlinear_arith)
        requires
            n_raw == nx * nx + ny * ny + nz * nz,
        ;
    assert((v.x * v.x) * (s * s) + (v.y * v.y) * (s * s) + (v.z * v.z) * (s * s) == q_raw * (s * s))
        by (nonlinear_arith)
        requires
            q_raw == v.x * v.x + v.y * v.y + v.z * v.z,
        ;
    assert(l * (iabs(v.x) * s) == (l * s) * iabs(v.x) && l * (iabs(v.y) * s) == (l * s) * iabs(v.y)
        && l * (iabs(v.z) * s) == (l * s) * iabs(v.z)) by (nonlinear_arith);
    assert(2 * (l * s) * (iabs(v.x) + iabs(v.y) + iabs(v.z)) == 2 * ((l * s) * iabs(v.x)) + 2 * ((l
        * s) * iabs(v.y)) + 2 * ((l * s) * iabs(v.z))) by (nonlinear_arith);
    assert(n_raw * (l * l) <= q_raw * (s * s));
    assert(q_raw * (s * s) - 2 * (l * s) * (iabs(v.x) + iabs(v.y) + iabs(v.z)) <= n_raw * (l * l));
    // upper bound on the squared length of the normalized vector
    if res > s + 100_000 {
        assert(false) by (nonlinear_arith)
            requires
                res * s <= n_raw,
                n_raw * (l * l) <= q_raw * (s * s),
                q_raw == d * s + r1,
                0 <= r1 < s,
                d * s < (l + 1) * (l + 1),
                l >= 31_622_776,
                s == 1_000_000_000,
                res > s + 100_000,
            ;
    }
    // lower bound on the squared length of the normalized vector
    if res < s - 100_000 {
        assert(false) by (nonlinear_arith)
            requires
                n_raw <= res * s + s - 1,
                q_raw * (s * s) - 2 * (l * s) * (iabs(v.x) + iabs(v.y) + iabs(v.z)) <= n_raw * (l
                    * l),
                iabs(v.x) <= w,
                iabs(v.y) <= w,
                iabs(v.z) <= w,
                w <= l + 31_625,
                l * l <= d * s,
                d * s <= q_raw,
                l >= 31_622_776,
                s == 1_000_000_000,
                res < s - 100_000,
            ;
    }
    // and therefore the length itself is within the same margin
    let ln = v3_len(v3_normalize(v));
    assert(ln == crate::fixed::isqrt(res * s));
    assert((s - 100_000) * (s - 100_000) <= (s - 100_000) * s <= res * s) by (nonlinear_arith)
        requires
            s - 100_000 <= res,
            s == 1_000_000_000,
        ;
    assert(res * s <= (s + 100_000) * s < (s + 100_000) * (s + 100_000)) by (nonlinear_arith)
        requires
            res <= s + 100_000,
            s == 1_000_000_000,
        ;
    crate::fixed::lemma_isqrt_square(s - 100_000);
    crate::fixed::lemma_isqrt_mono((s - 100_000) * (s - 100_000), res * s);
    crate::fixed::lemma_isqrt(res * s);
    assert(ln <= s + 100_000) by (nonlinear_arith)
        requires
            ln >= 0,
            ln * ln <= res * s,
            res * s < (s + 100_000) * (s + 100_000),
            s == 1_000_000_000,
        ;
}

/// A component's magnitude is at most the integer square root of the raw
/// squared length.
proof fn lemma_comp_le_isqrt(x: int, q_raw: int, w: int)
    requires
        x * x <= q_raw,
        w == crate::fixed::isqrt(q_raw),
        0 <= q_raw,
    ensures
        iabs(x) <= w,
{
    crate::fixed::lemma_isqrt(q_raw);
    if iabs(x) > w {
        assert((w + 1) * (w + 1) <= x * x) by (nonlinear_arith)
            requires
                iabs(x) >= w + 1,
                w >= 0,
                iabs(x) == if x < 0 {
                    -x
                } else {
                    x
                },
            ;
    }
}

/// The raw dot product, without descaling: exact integer arithmetic at
/// scale `SCALE^2`.
pub open spec fn v3_rawdot(a: V3, b: V3) -> int {
    a.x * b.x + a.y * b.y + a.z * b.z
}

/// The reflection `v - 2 * dot(v, n) * n` carried out without any
/// descaling, at scale `SCALE^2`: the ideal value that `v3_reflect`
/// approximates, up to the few quanta its two truncations lose.
pub open spec fn v3_reflect_exact(v: V3, n: V3) -> V3 {
    let s2 = (SCALE as int) * (SCALE as int);
    let d = v3_rawdot(v, n);
    v3(v.x * s2 - 2 * d * n.x, v.y * s2 - 2 * d * n.y, v.z * s2 - 2 * d * n.z)
}

/// Reflection flips the component along the normal: for every vector `v`
/// and every normal `n` of exactly unit length, the exact reflection's dot
/// product with `n` is the negation of `v`'s (scaled by the square that
/// the exact representation carries).
pub proof fn lemma_reflect_flips_normal_component(v: V3, n: V3)
    requires
        v3_rawdot(n, n) == (SCALE as int) * (SCALE as int),
    ensures
        v3_rawdot(v3_reflect_exact(v, n), n) == -((SCALE as int) * (SCALE as int)) * v3_rawdot(
            v,
            n,
        ),
{
    let s2 = (SCALE as int) * (SCALE as int);
    let d = v3_rawdot(v, n);
    assert((v.x * s2 - 2 * d * n.x) * n.x == s2 * (v.x * n.x) - 2 * d * (n.x * n.x))
        by (nonlinear_arith);
    assert((v.y * s2 - 2 * d * n.y) * n.y == s2 * (v.y * n.y) - 2 * d * (n.y * n.y))
        by (nonlinear_arith);
    assert((v.z * s2 - 2 * d * n.z) * n.z == s2 * (v.z * n.z) - 2 * d * (n.z * n.z))
        by (nonlinear_arith);
    assert(s2 * (v.x * n.x) + s2 * (v.y * n.y) + s2 * (v.z * n.z) == s2 * d) by (nonlinear_arith)
        requires
            d == v.x * n.x + v.y * n.y + v.z * n.z,
        ;
    assert(2 * d * (n.x * n.x) + 2 * d * (n.y * n.y) + 2 * d * (n.z * n.z) == 2 * d * s2)
        by (nonlinear_arith)
        requires
            n.x * n.x + n.y * n.y + n.z * n.z == s2,
        ;
    assert(s2 * d - 2 * d * s2 == -(s2) * d) by (nonlinear_arith);
}

/// One component of the rounded reflection against the ideal one: the two
/// truncations together lose less than three quanta.
proof fn lemma_reflect_comp(vi: int, ni: int, raw: int, s: int)
    requires
        s == 1_000_000_000,
        -s <= ni <= s,
    ensures
        -(3 * (s * s)) <= (vi - tdiv(2 * tdiv(raw, s) * ni, s)) * (s * s) - (vi * (s * s) - 2 * raw
            * ni) <= 3 * (s * s),
{
    let dd = tdiv(raw, s);
    let ti = tdiv(2 * dd * ni, s);
    crate::fixed::lemma_tdiv_bracket(raw, s);
    crate::fixed::lemma_tdiv_bracket(2 * dd * ni, s);
    assert(-(s - 1) <= dd * s - raw <= s - 1);
    assert(-(s - 1) <= ti * s - 2 * dd * ni <= s - 1);
    assert(-(2 * (s * (s - 1))) <= 2 * ni * (dd * s) - 2 * ni * raw <= 2 * (s * (s - 1)))
        by (nonlinear_arith)
        requires
            -s <= ni <= s,
            -(s - 1) <= dd * s - raw <= s - 1,
            s == 1_000_000_000,
        ;
    assert(-(3 * (s * s)) <= (vi - ti) * (s * s) - (vi * (s * s) - 2 * raw * ni) <= 3 * (s * s))
        by (nonlinear_arith)
        requires
            -(s - 1) <= ti * s - 2 * dd * ni <= s - 1,
            -(2 * (s * (s - 1))) <= 2 * ni * (dd * s) - 2 * ni * raw <= 2 * (s * (s - 1)),
            s == 1_000_000_000,
        ;
}

/// The executable reflection tracks the ideal one: for a unit-like normal,
/// every component of `v3_reflect`, read at scale `SCALE^2`, is within
/// three quanta of `v3_reflect_exact`.
pub proof fn lemma_reflect_rounding(v: V3, n: V3)
    requires
        bounded(n, SCALE as int),
    ensures
        iabs(
            v3_reflect(v, n).x * ((SCALE as int) * (SCALE as int)) - v3_reflect_exact(v, n).x,
        ) <= 3 * ((SCALE as int) * (SCALE as int)),
        iabs(
            v3_reflect(v, n).y * ((SCALE as int) * (SCALE as int)) - v3_reflect_exact(v, n).y,
        ) <= 3 * ((SCALE as int) * (SCALE as int)),
        iabs(
            v3_reflect(v, n).z * ((SCALE as int) * (SCALE as int)) - v3_reflect_exact(v, n).z,
        ) <= 3 * ((SCALE as int) * (SCALE as int)),
{
    let s = SCALE as int;
    let raw = v3_rawdot(v, n);
    lemma_reflect_comp(v.x, n.x, raw, s);
    lemma_reflect_comp(v.y, n.y, raw, s);
    lemma_reflect_comp(v.z, n.z, raw, s);
}

/// Negating one argument negates the dot product (truncation toward zero
/// is symmetric about zero).
pub proof fn lemma_dot_neg(a: V3, b: V3)
    ensures
        v3_dot(v3_neg(a), b) == -v3_dot(a, b),
{
    assert((-a.x) * b.x == -(a.x * b.x) && (-a.y) * b.y == -(a.y * b.y) && (-a.z) * b.z == -(a.z
        * b.z)) by (nonlinear_arith);
}

/// Negation preserves the squared length.
pub proof fn lemma_len_sq_neg(a: V3)
    ensures
        v3_len_sq(v3_neg(a)) == v3_len_sq(a),
{
    assert((-a.x) * (-a.x) == a.x * a.x && (-a.y) * (-a.y) == a.y * a.y && (-a.z) * (-a.z) == a.z
        * a.z) by (nonlinear_arith);
}

/// The 8-bit value of one color channel: divide by the sample count, take
/// the gamma-2 square root, clamp to `[0, 0.999]` and widen to 256 steps.
pub open spec fn channel_value(c: int, samples: int) -> int {
    let avg = tdiv(c, samples);
    let root = if avg <= 0 {
        0
    } else {
        fxsqrt(avg)
    };
    let clamped = if root > 999_000_000 {
        999_000_000
    } else {
        root
    };
    tdiv(256 * clamped, SCALE as int)
}

/// One channel of the pixel conversion; see `channel_value`.
pub fn format_channel(c: i64, samples: u64) -> (r: u8)
    requires
        1 <= samples <= 1_000_000,
    ensures
        r == channel_value(c as int, samples as int),
{
    let avg = tdiv_i128(c as i128, samples as i128);
    proof {
        lemma_tdiv_bounds(c as int, samples as int);
    }
    let root: i64 = if avg <= 0 {
        0
    } else {
        crate::fixed::sqrt_fx(avg as i64)
    };
    proof {
        if avg > 0 {
            let rt = fxsqrt(avg as int);
            crate::fixed::lemma_isqrt(avg as int * SCALE as int);
            assert(rt <= 100_000_000_000_000) by (nonlinear_arith)
                requires
                    0 <= rt,
                    rt * rt <= 0x7fff_ffff_ffff_ffff * 1_000_000_000,
                ;
        }
    }
    let clamped: i64 = if root > 999_000_000 {
        999_000_000
    } else {
        root
    };
    proof {
        lemma_mul_mag(256, clamped as int, 256, 999_000_000);
        vstd::arithmetic::div_mod::lemma_div_is_ordered(
            256 * (clamped as int),
            255_744_000_000,
            SCALE as int,
        );
        assert(255_744_000_000int / 1_000_000_000int == 255);
        vstd::arithmetic::div_mod::lemma_div_pos_is_pos(256 * (clamped as int), SCALE as int);
    }
    let out = tdiv_i128(256 * (clamped as i128), SCALE as i128);
    out as u8
}

} // verus!
