//! A ray: origin plus direction, with evaluation of the point reached at a
//! given parameter.

use vstd::prelude::*;
use crate::fixed::SCALE;
use crate::vec::{Vec3, Point3, V3, v3_add, v3_scale, v3_dot, bounded, lemma_mul_mag};
use crate::fixed::lemma_tdiv_mag;

verus! {

/// Cap on ray-origin components (twelve thousand scene units).
pub const PMAX: i64 = 12_000_000_000_000;

/// Cap on ray-direction components (sixteen thousand units).
pub const DMAX: i64 = 16_000_000_000_000;

/// Far cap on the ray parameter `t` (half a million units: effectively the
/// horizon for any scene within `PMAX`).
pub const TMAX: i64 = 500_000_000_000_000;

/// The mathematical value of a ray.
pub ghost struct RayV {
    pub orig: V3,
    pub dir: V3,
}

#[derive(Clone, Copy, Debug, PartialEq, Eq, Structural)]
pub struct Ray {
    pub orig: Point3,
    pub dir: Vec3,
}

impl View for Ray {
    type V = RayV;

    open spec fn view(&self) -> RayV {
        RayV { orig: self.orig@, dir: self.dir@ }
    }
}

/// A ray the tracer can evaluate: origin and direction within range, and a
/// direction long enough not to be degenerate.
pub open spec fn ray_ok(r: RayV) -> bool {
    &&& bounded(r.orig, PMAX as int)
    &&& bounded(r.dir, DMAX as int)
    &&& 1 <= v3_dot(r.dir, r.dir)
}

/// The point reached at parameter `t`: `origin + t * direction`.
pub open spec fn ray_at(r: RayV, t: int) -> V3 {
    v3_add(r.orig, v3_scale(r.dir, t))
}

impl Ray {
    pub fn new(orig: Point3, dir: Vec3) -> (r: Ray)
        ensures
            r@ == (RayV { orig: orig@, dir: dir@ }),
    {
        Ray { orig, dir }
    }

    pub fn origin(&self) -> (p: Point3)
        ensures
            p@ == self@.orig,
    {
        self.orig
    }

    pub fn direction(&self) -> (d: Vec3)
        ensures
            d@ == self@.dir,
    {
        self.dir
    }

    /// Evaluate the ray at parameter `t`.
    pub fn at(&self, t: i64) -> (p: Point3)
        requires
            bounded(self@.orig, PMAX as int),
            bounded(self@.dir, DMAX as int),
            -TMAX as int <= t as int <= TMAX as int,
        ensures
            p@ == ray_at(self@, t as int),
            bounded(p@, 8_100_000_000_000_000_000),
    {
        proof {
            let s = SCALE as int;
            lemma_mul_mag(self@.dir.x, t as int, DMAX as int, TMAX as int);
            lemma_mul_mag(self@.dir.y, t as int, DMAX as int, TMAX as int);
            lemma_mul_mag(self@.dir.z, t as int, DMAX as int, TMAX as int);
            lemma_tdiv_mag(self@.dir.x * (t as int), s, 8_000_000_000_000_000_000);
            lemma_tdiv_mag(self@.dir.y * (t as int), s, 8_000_000_000_000_000_000);
            lemma_tdiv_mag(self@.dir.z * (t as int), s, 8_000_000_000_000_000_000);
        }
        self.orig.add(self.dir.scale(t))
    }
}

} // verus!
