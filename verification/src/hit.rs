//! Hit records: the result of a ray-surface intersection, with the normal
//! oriented against the incoming ray, and the aggregate world of surfaces
//! resolved to the nearest hit.

use vstd::prelude::*;
use crate::material::Material;
use crate::ray::{Ray, RayV, DMAX, TMAX, ray_ok};
use crate::sphere::{Sphere, sphere_wf, sphere_hit, sphere_hit_t, lemma_sphere_hit_window};
use crate::vec::{Vec3, Point3, V3, v3_dot, v3_neg, bounded, NMAX};

verus! {

/// The mathematical value of a hit record.
pub ghost struct HitV {
    pub p: V3,
    pub normal: V3,
    pub mat: Material,
    pub t: int,
    pub front_face: bool,
}

/// A transient intersection result: hit point, oriented normal, parameter,
/// which side was struck, and the material governing the bounce.
#[derive(Clone, Copy)]
pub struct HitRecord {
    pub p: Point3,
    pub normal: Vec3,
    pub mat: Material,
    pub t: i64,
    pub front_face: bool,
}

impl View for HitRecord {
    type V = HitV;

    open spec fn view(&self) -> HitV {
        HitV {
            p: self.p@,
            normal: self.normal@,
            mat: self.mat,
            t: self.t as int,
            front_face: self.front_face,
        }
    }
}

/// The outward normal flipped, if needed, to face the incoming ray.
pub open spec fn face_normal(dir: V3, outward: V3) -> V3 {
    if v3_dot(dir, outward) < 0 {
        outward
    } else {
        v3_neg(outward)
    }
}

impl HitRecord {
    /// Orient `outward_normal` against the ray: the stored normal points
    /// toward the side the ray came from, and `front_face` records whether
    /// that was the outside.
    pub fn set_face_normal(&mut self, r: &Ray, outward_normal: Vec3)
        requires
            bounded(r@.dir, DMAX as int),
            bounded(outward_normal@, NMAX as int),
        ensures
            final(self).front_face == (v3_dot(r@.dir, outward_normal@) < 0),
            final(self).normal@ == face_normal(r@.dir, outward_normal@),
            final(self).p == old(self).p,
            final(self).mat == old(self).mat,
            final(self).t == old(self).t,
    {
        let d = r.direction().dot(outward_normal);
        self.front_face = d < 0;
        self.normal = if self.front_face {
            outward_normal
        } else {
            outward_normal.neg()
        };
    }
}

/// Every surface of the collection is acceptable to the tracer.
pub open spec fn world_wf(spheres: Seq<Sphere>) -> bool {
    forall|i: int| 0 <= i < spheres.len() ==> sphere_wf(#[trigger] spheres[i]@)
}

/// Appending an acceptable sphere preserves the scene's well-formedness.
pub proof fn lemma_world_wf_push(spheres: Seq<Sphere>, s: Sphere)
    requires
        world_wf(spheres),
        sphere_wf(s@),
    ensures
        world_wf(spheres.push(s)),
{
    assert forall|i: int| 0 <= i < spheres.push(s).len() implies sphere_wf(
        #[trigger] spheres.push(s)[i]@,
    ) by {
        if i < spheres.len() {
            assert(spheres.push(s)[i] == spheres[i]);
        } else {
            assert(spheres.push(s)[i] == s);
        }
    }
}

/// The scene: an ordered collection of spheres; the order is irrelevant to
/// the result, since the nearest hit wins.
pub struct World {
    pub spheres: Vec<Sphere>,
}

/// The progressive nearest-hit fold over the first `n` spheres: each new
/// sphere is probed only up to the closest parameter found so far.
pub open spec fn world_hit_upto(
    spheres: Seq<Sphere>,
    r: RayV,
    t_min: int,
    t_max: int,
    n: int,
) -> Option<HitV>
    decreases n,
{
    if n <= 0 {
        None
    } else {
        let prev = world_hit_upto(spheres, r, t_min, t_max, n - 1);
        let window = match prev {
            Some(h) => h.t,
            None => t_max,
        };
        match sphere_hit(spheres[n - 1]@, r, t_min, window) {
            Some(h2) => Some(h2),
            None => prev,
        }
    }
}

/// What `World::hit` returns: the nearest-hit fold over all spheres.
pub open spec fn world_hit(spheres: Seq<Sphere>, r: RayV, t_min: int, t_max: int) -> Option<HitV> {
    world_hit_upto(spheres, r, t_min, t_max, spheres.len() as int)
}

impl World {
    pub fn new() -> (w: World)
        ensures
            w.spheres@.len() == 0,
    {
        World { spheres: Vec::new() }
    }

    pub fn push(&mut self, s: Sphere)
        ensures
            final(self).spheres@ == old(self).spheres@.push(s),
    {
        self.spheres.push(s);
    }

    pub fn len(&self) -> (n: usize)
        ensures
            n == self.spheres@.len(),
    {
        self.spheres.len()
    }

    /// Resolve the nearest hit across all surfaces within `[t_min, t_max]`:
    /// the result, if any, is some sphere's hit, and its parameter is
    /// minimal among every sphere's hit in that window; `None` means no
    /// sphere is hit there at all.
    pub fn hit(&self, r: &Ray, t_min: i64, t_max: i64) -> (res: Option<HitRecord>)
        requires
            world_wf(self.spheres@),
            ray_ok(r@),
            0 <= t_min <= TMAX,
            0 <= t_max <= TMAX,
        ensures
            match res {
                Some(rec) => {
                    &&& exists|i: int|
                        0 <= i < self.spheres@.len() && sphere_hit(
                            #[trigger] self.spheres@[i]@,
                            r@,
                            t_min as int,
                            t_max as int,
                        ) == Some(rec@)
                    &&& forall|i: int|
                        0 <= i < self.spheres@.len() && sphere_hit_t(
                            #[trigger] self.spheres@[i]@,
                            r@,
                            t_min as int,
                            t_max as int,
                        ) is Some ==> rec@.t <= sphere_hit_t(
                            self.spheres@[i]@,
                            r@,
                            t_min as int,
                            t_max as int,
                        )->Some_0
                    &&& t_min <= rec@.t <= t_max
                },
                None => forall|i: int|
                    0 <= i < self.spheres@.len() ==> sphere_hit_t(
                        #[trigger] self.spheres@[i]@,
                        r@,
                        t_min as int,
                        t_max as int,
                    ) is None,
            },
            world_hit(self.spheres@, r@, t_min as int, t_max as int) == match res {
                Some(rec) => Some(rec@),
                None => None::<HitV>,
            },
    {
        let ghost tmx = t_max as int;
        let ghost tmn = t_min as int;
        let mut res: Option<HitRecord> = None;
        let mut closest: i64 = t_max;
        let mut k: usize = 0;
        while k < self.spheres.len()
            invariant
                world_wf(self.spheres@),
                ray_ok(r@),
                0 <= t_min <= TMAX,
                0 <= t_max <= TMAX,
                tmx == t_max as int,
                tmn == t_min as int,
                k <= self.spheres@.len(),
                world_hit_upto(self.spheres@, r@, tmn, tmx, k as int) == match res {
                    Some(rec) => Some(rec@),
                    None => None::<HitV>,
                },
                match res {
                    None => {
                        &&& closest == t_max
                        &&& forall|i: int|
                            0 <= i < k ==> sphere_hit_t(
                                #[trigger] self.spheres@[i]@,
                                r@,
                                tmn,
                                tmx,
                            ) is None
                    },
                    Some(rec) => {
                        &&& closest == rec.t
                        &&& t_min <= closest <= t_max
                        &&& exists|i: int|
                            0 <= i < k && sphere_hit(#[trigger] self.spheres@[i]@, r@, tmn, tmx)
                                == Some(rec@)
                        &&& forall|i: int|
                            0 <= i < k && sphere_hit_t(
                                #[trigger] self.spheres@[i]@,
                                r@,
                                tmn,
                                tmx,
                            ) is Some ==> rec@.t <= sphere_hit_t(
                                self.spheres@[i]@,
                                r@,
                                tmn,
                                tmx,
                            )->Some_0
                    },
                },
            decreases self.spheres@.len() - k,
        {
            let sp = self.spheres[k];
            proof {
                assert(sphere_wf(self.spheres@[k as int]@));
            }
            let h = sp.hit(r, t_min, closest);
            proof {
                lemma_sphere_hit_window(self.spheres@[k as int]@, r@, tmn, closest as int, tmx);
            }
            if let Some(rec2) = h {
                closest = rec2.t;
                res = Some(rec2);
            }
            k = k + 1;
        }
        res
    }
}

} // verus!
