//! Rays, intersection records and the scene that rays are traced against.

pub mod material;

use crate::fixed::Fixed;
use crate::model::{Plane, Sphere};
use crate::physics::material::Material;
use crate::rmath::Vector3;
use core::ops::Neg;
use vstd::prelude::*;

verus! {

/// A half-line: the points `origin + t * direction`.
#[derive(Clone, Copy, Debug, PartialEq, Eq, Structural)]
pub struct Ray {
    pub origin: Vector3,
    pub direction: Vector3,
}

impl Ray {
    /// The point at parameter `t`.
    pub open spec fn at_spec(self, t: Fixed) -> Vector3 {
        self.origin.plus(self.direction.scaled(t))
    }

    /// The ray from `origin` along `direction`.
    pub fn new(origin: Vector3, direction: Vector3) -> (r: Ray)
        ensures
            r == (Ray { origin, direction }),
    {
        Ray { origin, direction }
    }

    /// The ray from `start` that reaches `end` at parameter one.
    pub fn from_two_points(start: Vector3, end: Vector3) -> (r: Ray)
        ensures
            r == (Ray { origin: start, direction: end.minus(start) }),
    {
        Ray { origin: start, direction: end - start }
    }

    /// Where the ray starts.
    pub fn get_origin(&self) -> (o: Vector3)
        ensures
            o == self.origin,
    {
        self.origin
    }

    /// The direction of travel; its length is the speed.
    pub fn get_direction(&self) -> (d: Vector3)
        ensures
            d == self.direction,
    {
        self.direction
    }

    /// The point at parameter `t`.
    pub fn at(&self, t: Fixed) -> (p: Vector3)
        ensures
            p == self.at_spec(t),
    {
        self.origin + t * self.direction
    }
}

/// Where a ray met a surface.
#[derive(Clone, Copy, Debug, PartialEq, Eq, Structural)]
pub struct HitRecord {
    /// The point of intersection.
    pub p: Vector3,
    /// The ray parameter of that point.
    pub t: Fixed,
    /// Whether the ray arrived from outside the surface.
    pub front_face: bool,
    /// The surface normal, turned against the ray.
    pub normal: Vector3,
    /// The material of the surface.
    pub material: Material,
}

impl HitRecord {
    /// The ray meets a surface from outside when it runs against the outward
    /// normal; the reported normal is turned to oppose the ray.
    pub open spec fn face_normal_spec(r: Ray, outward_normal: Vector3) -> (bool, Vector3) {
        if r.direction.dot_spec(outward_normal).raw < 0 {
            (true, outward_normal)
        } else {
            (false, outward_normal.negated())
        }
    }

    /// The reported normal opposes the ray: their inner product is never
    /// positive. It holds wherever the inner product of the direction and
    /// the outward normal does not saturate and the normal can be negated
    /// exactly; where a sum sticks at an end of the range, the inner product
    /// with the negated normal need not be the negated inner product.
    pub proof fn lemma_face_normal_opposes_ray(r: Ray, outward_normal: Vector3)
        requires
            r.direction.dot_unsaturated(outward_normal),
            outward_normal.bounded(i64::MAX as int),
        ensures
            r.direction.dot_spec(HitRecord::face_normal_spec(r, outward_normal).1).raw <= 0,
            HitRecord::face_normal_spec(r, outward_normal).0 == (r.direction.dot_spec(
                outward_normal,
            ).raw < 0),
    {
        let d = r.direction;
        let o = outward_normal;
        assert(d.0.raw * (-o.0.raw) == -(d.0.raw * o.0.raw)) by (nonlinear_arith);
        assert(d.1.raw * (-o.1.raw) == -(d.1.raw * o.1.raw)) by (nonlinear_arith);
        assert(d.2.raw * (-o.2.raw) == -(d.2.raw * o.2.raw)) by (nonlinear_arith);
        let s = crate::fixed::SCALE as int;
        assert(crate::fixed::quot(-(d.0.raw * o.0.raw), s) == -crate::fixed::quot(d.0.raw * o.0.raw, s));
        assert(crate::fixed::quot(-(d.1.raw * o.1.raw), s) == -crate::fixed::quot(d.1.raw * o.1.raw, s));
        assert(crate::fixed::quot(-(d.2.raw * o.2.raw), s) == -crate::fixed::quot(d.2.raw * o.2.raw, s));
        assert(d.dot_spec(o.negated()).raw == -d.dot_spec(o).raw);
    }

    /// Tells the side from which `r` meets a surface and orients its normal.
    pub fn get_face_normal(r: &Ray, outward_normal: Vector3) -> (res: (bool, Vector3))
        ensures
            res == HitRecord::face_normal_spec(*r, outward_normal),
    {
        let front_face = r.get_direction().dot(outward_normal).raw < 0;
        let normal = if front_face {
            outward_normal
        } else {
            outward_normal.neg()
        };
        (front_face, normal)
    }
}

/// A shape that rays can meet.
#[derive(Clone, Copy, Debug, PartialEq, Eq, Structural)]
pub enum Hittable {
    Sphere(Sphere),
    Plane(Plane),
}

impl Hittable {
    /// The intersection of `r` with the shape at a parameter strictly
    /// between `t_min` and `t_max`.
    #[verifier::opaque]
    pub open spec fn hit_spec(self, r: Ray, t_min: Fixed, t_max: Fixed) -> Option<HitRecord> {
        match self {
            Hittable::Sphere(s) => s.hit_spec(r, t_min, t_max),
            Hittable::Plane(p) => p.hit_spec(r, t_min, t_max),
        }
    }

    /// The material of the shape.
    pub open spec fn material_spec(self) -> Material {
        match self {
            Hittable::Sphere(s) => s.material,
            Hittable::Plane(p) => p.material,
        }
    }

    /// The record of a hit carries the material of the shape.
    pub proof fn lemma_hit_material(self, r: Ray, t_min: Fixed, t_max: Fixed)
        ensures
            self.hit_spec(r, t_min, t_max) matches Some(rec) ==> rec.material
                == self.material_spec(),
    {
        reveal(Hittable::hit_spec);
    }

    /// A hit lies strictly inside the interval, and a hit within a shorter
    /// interval is the hit within the longer one, if that lies in the
    /// shorter.
    pub proof fn lemma_hit_restricts(self, r: Ray, t_min: Fixed, t_mid: Fixed, t_max: Fixed)
        requires
            t_mid.raw <= t_max.raw,
        ensures
            self.hit_spec(r, t_min, t_max) matches Some(rec) ==> t_min.raw < rec.t.raw
                < t_max.raw,
            self.hit_spec(r, t_min, t_mid) == match self.hit_spec(r, t_min, t_max) {
                Some(rec) => if rec.t.raw < t_mid.raw {
                    Some(rec)
                } else {
                    None
                },
                None => None,
            },
    {
        reveal(Hittable::hit_spec);
        match self {
            Hittable::Sphere(s) => s.lemma_hit_restricts(r, t_min, t_mid, t_max),
            Hittable::Plane(p) => p.lemma_hit_restricts(r, t_min, t_mid, t_max),
        }
    }

    /// Intersects `r` with the shape.
    pub fn hit(&self, r: &Ray, t_min: Fixed, t_max: Fixed) -> (res: Option<HitRecord>)
        ensures
            res == self.hit_spec(*r, t_min, t_max),
            res matches Some(rec) ==> t_min.raw < rec.t.raw < t_max.raw,
    {
        reveal(Hittable::hit_spec);
        match self {
            Hittable::Sphere(s) => s.hit(r, t_min, t_max),
            Hittable::Plane(p) => p.hit(r, t_min, t_max),
        }
    }
}

/// The hit that an ordered scan of `objects` keeps: each shape is tried only
/// below the parameter of the hit kept so far, so a later shape replaces an
/// earlier one only where it is strictly nearer.
pub open spec fn nearest(objects: Seq<Hittable>, r: Ray, t_min: Fixed, t_max: Fixed) -> Option<
    HitRecord,
>
    decreases objects.len(),
{
    if objects.len() == 0 {
        None
    } else {
        let before = nearest(objects.drop_last(), r, t_min, t_max);
        let bound = match before {
            Some(rec) => rec.t,
            None => t_max,
        };
        match objects.last().hit_spec(r, t_min, bound) {
            Some(rec) => Some(rec),
            None => before,
        }
    }
}

/// The scan keeps the nearest hit: it finds none exactly where no shape is
/// hit within the interval; the hit that it keeps is the hit of one of the
/// shapes within the interval, no shape is hit nearer, and no shape before
/// that one is hit as near.
pub proof fn lemma_nearest_is_nearest(objects: Seq<Hittable>, r: Ray, t_min: Fixed, t_max: Fixed)
    ensures
        match nearest(objects, r, t_min, t_max) {
            None => forall|i: int|
                0 <= i < objects.len() ==> (#[trigger] objects[i]).hit_spec(r, t_min, t_max).is_none(),
            Some(rec) => {
                &&& t_min.raw < rec.t.raw < t_max.raw
                &&& exists|k: int|
                    {
                        &&& 0 <= k < objects.len()
                        &&& (#[trigger] objects[k]).hit_spec(r, t_min, t_max) == Some(rec)
                        &&& forall|i: int|
                            0 <= i < k ==> ((#[trigger] objects[i]).hit_spec(r, t_min, t_max) matches Some(
                                other,
                            ) ==> rec.t.raw < other.t.raw)
                    }
                &&& forall|i: int|
                    0 <= i < objects.len() ==> ((#[trigger] objects[i]).hit_spec(r, t_min, t_max) matches Some(
                        other,
                    ) ==> rec.t.raw <= other.t.raw)
            },
        },
    decreases objects.len(),
{
    if objects.len() > 0 {
        let front = objects.drop_last();
        let last = objects.last();
        lemma_nearest_is_nearest(front, r, t_min, t_max);
        let before = nearest(front, r, t_min, t_max);
        let bound = match before {
            Some(rec) => rec.t,
            None => t_max,
        };
        last.lemma_hit_restricts(r, t_min, bound, t_max);
        assert forall|i: int| 0 <= i < front.len() implies front[i] == objects[i] by {}
        match nearest(objects, r, t_min, t_max) {
            None => {
                assert forall|i: int| 0 <= i < objects.len() implies (#[trigger] objects[i]).hit_spec(
                    r,
                    t_min,
                    t_max,
                ).is_none() by {
                    if i < front.len() {
                        assert(front[i].hit_spec(r, t_min, t_max).is_none());
                    }
                }
            },
            Some(rec) => {
                if last.hit_spec(r, t_min, bound).is_some() {
                    let k = objects.len() - 1;
                    assert(objects[k].hit_spec(r, t_min, t_max) == Some(rec));
                    assert forall|i: int| 0 <= i < k implies ((#[trigger] objects[i]).hit_spec(
                        r,
                        t_min,
                        t_max,
                    ) matches Some(other) ==> rec.t.raw < other.t.raw) by {
                        assert(front[i] == objects[i]);
                    }
                    assert forall|i: int| 0 <= i < objects.len() implies ((#[trigger] objects[i]).hit_spec(
                        r,
                        t_min,
                        t_max,
                    ) matches Some(other) ==> rec.t.raw <= other.t.raw) by {
                        if i < k {
                            assert(front[i] == objects[i]);
                        }
                    }
                } else {
                    let k = choose|k: int|
                        {
                            &&& 0 <= k < front.len()
                            &&& (#[trigger] front[k]).hit_spec(r, t_min, t_max) == Some(rec)
                            &&& forall|i: int|
                                0 <= i < k ==> ((#[trigger] front[i]).hit_spec(r, t_min, t_max) matches Some(
                                    other,
                                ) ==> rec.t.raw < other.t.raw)
                        };
                    assert(objects[k] == front[k]);
                    assert forall|i: int| 0 <= i < k implies ((#[trigger] objects[i]).hit_spec(
                        r,
                        t_min,
                        t_max,
                    ) matches Some(other) ==> rec.t.raw < other.t.raw) by {
                        assert(front[i] == objects[i]);
                    }
                    assert forall|i: int| 0 <= i < objects.len() implies ((#[trigger] objects[i]).hit_spec(
                        r,
                        t_min,
                        t_max,
                    ) matches Some(other) ==> rec.t.raw <= other.t.raw) by {
                        if i < front.len() {
                            assert(front[i] == objects[i]);
                        }
                    }
                }
            },
        }
    }
}

/// A scene: shapes in the order in which they were added.
#[derive(Clone, Debug)]
pub struct HittableList {
    pub objects: Vec<Hittable>,
}

impl View for HittableList {
    type V = Seq<Hittable>;

    open spec fn view(&self) -> Seq<Hittable> {
        self.objects@
    }
}

impl HittableList {
    /// The nearest intersection of `r` with any shape of the scene.
    pub open spec fn hit_spec(self, r: Ray, t_min: Fixed, t_max: Fixed) -> Option<HitRecord> {
        nearest(self@, r, t_min, t_max)
    }

    /// The empty scene.
    pub fn new() -> (list: HittableList)
        ensures
            list@ == Seq::<Hittable>::empty(),
    {
        HittableList { objects: Vec::new() }
    }

    /// Appends a shape to the scene.
    pub fn add(&mut self, obj: Hittable)
        ensures
            final(self)@ == old(self)@.push(obj),
    {
        self.objects.push(obj)
    }

    /// Intersects `r` with the scene within the open interval from `t_min`
    /// to `t_max` and keeps the nearest hit.
    pub fn hit(&self, r: &Ray, t_min: Fixed, t_max: Fixed) -> (res: Option<HitRecord>)
        ensures
            res == self.hit_spec(*r, t_min, t_max),
            res matches Some(rec) ==> t_min.raw < rec.t.raw < t_max.raw,
    {
        let mut rec: Option<HitRecord> = None;
        let mut closest_so_far = t_max;
        let mut i: usize = 0;
        while i < self.objects.len()
            invariant
                i <= self.objects.len(),
                rec == nearest(self@.take(i as int), *r, t_min, t_max),
                closest_so_far == match rec {
                    Some(found) => found.t,
                    None => t_max,
                },
                rec matches Some(found) ==> t_min.raw < found.t.raw < t_max.raw,
            decreases self.objects.len() - i,
        {
            assert(self@.take(i + 1).drop_last() == self@.take(i as int));
            assert(self@.take(i + 1).last() == self@[i as int]);
            if let Some(temp_rec) = self.objects[i].hit(r, t_min, closest_so_far) {
                closest_so_far = temp_rec.t;
                rec = Some(temp_rec);
            }
            i += 1;
        }
        assert(self@.take(i as int) == self@);
        rec
    }
}

} // verus!
