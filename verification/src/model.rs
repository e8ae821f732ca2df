//! The geometric primitives: sphere and plane.

use crate::fixed::{lemma_quot_monotone, quot, Fixed, SCALE};
use crate::physics::material::Material;
use crate::physics::{HitRecord, Ray};
use crate::rmath::Vector3;
use core::ops::Neg;
use vstd::prelude::*;

verus! {

/// The sphere of radius `r` about `center`.
#[derive(Clone, Copy, Debug, PartialEq, Eq, Structural)]
pub struct Sphere {
    pub center: Vector3,
    pub r: Fixed,
    pub material: Material,
}

impl Sphere {
    /// Half the linear coefficient of the quadratic in `t`:
    /// `direction . (origin - center)`.
    pub open spec fn half_b(self, r: Ray) -> Fixed {
        r.origin.minus(self.center).dot_spec(r.direction)
    }

    /// The discriminant `h^2 - a c` of the quadratic `a t^2 + 2 h t + c = 0`
    /// whose roots are the parameters at which `r` pierces the sphere.
    pub open spec fn discriminant(self, r: Ray) -> Fixed {
        let oc = r.origin.minus(self.center);
        let a = r.direction.length_square_spec();
        let h = self.half_b(r);
        let c = oc.length_square_spec().minus(self.r.times(self.r));
        h.times(h).minus(a.times(c))
    }

    /// Whether the quadratic has two roots and the sphere a normal: the
    /// discriminant is positive, the direction has a length and the radius is
    /// not zero.
    pub open spec fn pierced(self, r: Ray) -> bool {
        self.discriminant(r).raw > 0 && r.direction.length_square_spec().raw != 0 && self.r.raw
            != 0
    }

    /// The smaller root, `(-h - sqrt(discriminant)) / a`.
    pub open spec fn near_root(self, r: Ray) -> Fixed
        recommends
            self.pierced(r),
    {
        let root = self.discriminant(r).sqrt_spec().unwrap();
        self.half_b(r).negated().minus(root).div_spec(r.direction.length_square_spec()).unwrap()
    }

    /// The larger root, `(-h + sqrt(discriminant)) / a`.
    pub open spec fn far_root(self, r: Ray) -> Fixed
        recommends
            self.pierced(r),
    {
        let root = self.discriminant(r).sqrt_spec().unwrap();
        self.half_b(r).negated().plus(root).div_spec(r.direction.length_square_spec()).unwrap()
    }

    /// The record of the intersection at parameter `t`: the outward normal is
    /// `(point - center) / radius`, oriented against the ray.
    pub open spec fn record_at(self, r: Ray, t: Fixed) -> HitRecord
        recommends
            self.r.raw != 0,
    {
        let p = r.at_spec(t);
        let outward = p.minus(self.center).over(self.r).unwrap();
        let (front_face, normal) = HitRecord::face_normal_spec(r, outward);
        HitRecord { p, t, front_face, normal, material: self.material }
    }

    /// The nearer of the two roots that lies strictly between `t_min` and
    /// `t_max`, if the ray pierces the sphere and one does.
    pub open spec fn hit_spec(self, r: Ray, t_min: Fixed, t_max: Fixed) -> Option<HitRecord> {
        if !self.pierced(r) {
            None
        } else if t_min.raw < self.near_root(r).raw < t_max.raw {
            Some(self.record_at(r, self.near_root(r)))
        } else if t_min.raw < self.far_root(r).raw < t_max.raw {
            Some(self.record_at(r, self.far_root(r)))
        } else {
            None
        }
    }

    /// The smaller root is not the larger.
    pub proof fn lemma_roots_ordered(self, r: Ray)
        requires
            self.pierced(r),
        ensures
            self.near_root(r).raw <= self.far_root(r).raw,
    {
        let a = r.direction.length_square_spec();
        let d = r.direction;
        assert(d.0.raw * d.0.raw >= 0 && d.1.raw * d.1.raw >= 0 && d.2.raw * d.2.raw >= 0)
            by (nonlinear_arith);
        assert(quot(d.0.raw * d.0.raw, SCALE as int) >= 0);
        assert(quot(d.1.raw * d.1.raw, SCALE as int) >= 0);
        assert(quot(d.2.raw * d.2.raw, SCALE as int) >= 0);
        assert(a.raw > 0);
        let delta = self.discriminant(r);
        let root = delta.sqrt_spec().unwrap();
        delta.lemma_sqrt_bounds();
        assert(root.raw >= 0);
        let low = self.half_b(r).negated().minus(root);
        let high = self.half_b(r).negated().plus(root);
        assert(low.raw <= high.raw);
        crate::fixed::lemma_scaled(low.raw as int);
        crate::fixed::lemma_scaled(high.raw as int);
        lemma_quot_monotone(low.raw * SCALE, high.raw * SCALE, a.raw as int);
    }

    /// A hit within a shorter interval is the hit within the longer one, if
    /// that lies in the shorter.
    pub proof fn lemma_hit_restricts(self, r: Ray, t_min: Fixed, t_mid: Fixed, t_max: Fixed)
        requires
            t_mid.raw <= t_max.raw,
        ensures
            self.hit_spec(r, t_min, t_mid) == match self.hit_spec(r, t_min, t_max) {
                Some(rec) => if rec.t.raw < t_mid.raw {
                    Some(rec)
                } else {
                    None
                },
                None => None,
            },
    {
        if self.pierced(r) {
            self.lemma_roots_ordered(r);
        }
    }

    /// The sphere of radius `r` about `center`.
    pub fn new(center: Vector3, r: Fixed, material: Material) -> (s: Sphere)
        ensures
            s == (Sphere { center, r, material }),
    {
        Sphere { center, r, material }
    }

    /// The record of the intersection at parameter `t`.
    fn record(&self, r: &Ray, t: Fixed) -> (rec: HitRecord)
        requires
            self.r.raw != 0,
        ensures
            rec == self.record_at(*r, t),
    {
        let p = r.at(t);
        let outward = match (p - self.center) / self.r {
            Some(n) => n,
            None => p,
        };
        let (front_face, normal) = HitRecord::get_face_normal(r, outward);
        HitRecord { p, t, front_face, normal, material: self.material }
    }

    /// Intersects `r` with the sphere within the open interval from `t_min`
    /// to `t_max`.
    pub fn hit(&self, r: &Ray, t_min: Fixed, t_max: Fixed) -> (res: Option<HitRecord>)
        ensures
            res == self.hit_spec(*r, t_min, t_max),
            res matches Some(rec) ==> t_min.raw < rec.t.raw < t_max.raw,
    {
        let oc = r.get_origin() - self.center;
        let a = r.get_direction().length_square();
        let h = oc.dot(r.get_direction());
        let c = oc.length_square() - self.r * self.r;
        let delta = h * h - a * c;
        if delta.raw > 0 && self.r.raw != 0 {
            if let Some(root) = delta.sqrt() {
                if let Some(t) = (h.neg() - root).div(a) {
                    if t_min.raw < t.raw && t.raw < t_max.raw {
                        return Some(self.record(r, t));
                    }
                }
                if let Some(t) = (h.neg() + root).div(a) {
                    if t_min.raw < t.raw && t.raw < t_max.raw {
                        return Some(self.record(r, t));
                    }
                }
            }
        }
        None
    }
}

/// The plane of the points `p` with `normal . p + offset = 0`.
#[derive(Clone, Copy, Debug, PartialEq, Eq, Structural)]
pub struct Plane {
    pub normal: Vector3,
    pub offset: Fixed,
    pub material: Material,
}

impl Plane {
    /// The parameter at which `r` crosses the plane,
    /// `(-offset - origin . normal) / (direction . normal)`; a ray that runs
    /// along the plane crosses it nowhere.
    pub open spec fn crossing(self, r: Ray) -> Option<Fixed> {
        self.offset.negated().minus(r.origin.dot_spec(self.normal)).div_spec(
            r.direction.dot_spec(self.normal),
        )
    }

    /// The crossing, if it lies strictly between `t_min` and `t_max`. The
    /// plane shows every ray its front face and its own normal.
    pub open spec fn hit_spec(self, r: Ray, t_min: Fixed, t_max: Fixed) -> Option<HitRecord> {
        match self.crossing(r) {
            Some(t) => if t_min.raw < t.raw < t_max.raw {
                Some(
                    HitRecord {
                        p: r.at_spec(t),
                        t,
                        front_face: true,
                        normal: self.normal,
                        material: self.material,
                    },
                )
            } else {
                None
            },
            None => None,
        }
    }

    /// A hit within a shorter interval is the hit within the longer one, if
    /// that lies in the shorter.
    pub proof fn lemma_hit_restricts(self, r: Ray, t_min: Fixed, t_mid: Fixed, t_max: Fixed)
        requires
            t_mid.raw <= t_max.raw,
        ensures
            self.hit_spec(r, t_min, t_mid) == match self.hit_spec(r, t_min, t_max) {
                Some(rec) => if rec.t.raw < t_mid.raw {
                    Some(rec)
                } else {
                    None
                },
                None => None,
            },
    {
    }

    /// The plane with the given normal and offset.
    pub fn new(normal: Vector3, offset: Fixed, material: Material) -> (p: Plane)
        ensures
            p == (Plane { normal, offset, material }),
    {
        Plane { normal, offset, material }
    }

    /// Intersects `r` with the plane within the open interval from `t_min`
    /// to `t_max`.
    pub fn hit(&self, r: &Ray, t_min: Fixed, t_max: Fixed) -> (res: Option<HitRecord>)
        ensures
            res == self.hit_spec(*r, t_min, t_max),
            r.direction.dot_spec(self.normal).raw == 0 ==> res.is_none(),
            res matches Some(rec) ==> t_min.raw < rec.t.raw < t_max.raw,
    {
        let numerator = self.offset.neg() - r.get_origin().dot(self.normal);
        match numerator.div(r.get_direction().dot(self.normal)) {
            Some(t) => {
                if t_min.raw < t.raw && t.raw < t_max.raw {
                    Some(
                        HitRecord {
                            p: r.at(t),
                            t,
                            front_face: true,
                            normal: self.normal,
                            material: self.material,
                        },
                    )
                } else {
                    None
                }
            },
            None => None,
        }
    }
}

} // verus!
