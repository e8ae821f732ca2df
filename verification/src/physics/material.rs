//! Surface materials: how light leaves a surface it has struck.

use crate::fixed::{Fixed, SCALE};
use crate::physics::{HitRecord, Ray};
use crate::rmath::{clamp, clamp_spec, Vector3};
use core::ops::Neg;
use vstd::prelude::*;

verus! {

/// A matte surface that scatters light in all directions.
#[derive(Clone, Copy, Debug, PartialEq, Eq, Structural)]
pub struct Lambertian {
    pub albedo: Vector3,
}

impl Lambertian {
    /// The light leaves the point of the hit along the normal displaced by
    /// `unit`, tinted by the albedo.
    pub open spec fn scatter_spec(self, rec: HitRecord, unit: Vector3) -> (Vector3, Ray) {
        (self.albedo, Ray { origin: rec.p, direction: rec.normal.plus(unit) })
    }

    /// Scatters along the normal displaced by the given direction.
    pub fn scatter_with(&self, rec: &HitRecord, unit: Vector3) -> (res: (Vector3, Ray))
        ensures
            res == self.scatter_spec(*rec, unit),
    {
        let scatter_direction = rec.normal + unit;
        (self.albedo, Ray::new(rec.p, scatter_direction))
    }

    /// Scatters along the normal displaced by a random direction. A matte
    /// surface absorbs no ray.
    pub fn scatter(&self, r_in: &Ray, rec: &HitRecord) -> (res: Option<(Vector3, Ray)>)
        ensures
            res.is_some(),
            exists|unit: Vector3|
                unit.is_cylinder_sample() && res == Some(#[trigger] self.scatter_spec(*rec, unit)),
    {
        let unit = Vector3::from_random_unit();
        let scattered = self.scatter_with(rec, unit);
        assert(scattered == self.scatter_spec(*rec, unit));
        Some(scattered)
    }

    /// A matte surface of the given colour.
    pub fn new(color: Vector3) -> (m: Lambertian)
        ensures
            m.albedo == color,
    {
        Lambertian { albedo: color }
    }
}

/// A mirror, blurred by `fuzz`.
#[derive(Clone, Copy, Debug, PartialEq, Eq, Structural)]
pub struct Metal {
    pub albedo: Vector3,
    pub fuzz: Fixed,
}

impl Metal {
    /// The direction in which the mirror sends the ray: the reflection of
    /// the normalised incoming direction, displaced by `fuzz * unit`. A ray
    /// without direction is sent nowhere.
    pub open spec fn outgoing(self, r_in: Ray, rec: HitRecord, unit: Vector3) -> Option<Vector3> {
        match r_in.direction.unit_spec() {
            Some(d) => Some(d.reflect_spec(rec.normal).plus(unit.scaled(self.fuzz))),
            None => None,
        }
    }

    /// The ray is absorbed unless its outgoing direction leaves the surface,
    /// that is, has a positive inner product with the normal.
    pub open spec fn scatter_spec(self, r_in: Ray, rec: HitRecord, unit: Vector3) -> Option<
        (Vector3, Ray),
    > {
        match self.outgoing(r_in, rec, unit) {
            Some(direction) => if direction.dot_spec(rec.normal).raw > 0 {
                Some((self.albedo, Ray { origin: rec.p, direction }))
            } else {
                None
            },
            None => None,
        }
    }

    /// A polished mirror, one without blur, absorbs the ray exactly where its
    /// mirror image points into the surface or along it, whatever direction
    /// was drawn.
    pub proof fn lemma_polished_absorbs_inward(self, r_in: Ray, rec: HitRecord, unit: Vector3)
        requires
            self.fuzz.raw == 0,
        ensures
            r_in.direction.unit_spec() matches Some(d) ==> {
                &&& self.outgoing(r_in, rec, unit) == Some(d.reflect_spec(rec.normal))
                &&& self.scatter_spec(r_in, rec, unit).is_none() == (d.reflect_spec(
                    rec.normal,
                ).dot_spec(rec.normal).raw <= 0)
                &&& self.scatter_spec(r_in, rec, unit) matches Some((tint, out)) ==> tint
                    == self.albedo && out == (Ray {
                    origin: rec.p,
                    direction: d.reflect_spec(rec.normal),
                })
            },
            r_in.direction.unit_spec().is_none() ==> self.scatter_spec(r_in, rec, unit).is_none(),
    {
        assert(unit.0.raw * 0 == 0 && unit.1.raw * 0 == 0 && unit.2.raw * 0 == 0);
        assert(crate::fixed::quot(0, SCALE as int) == 0);
        assert(unit.scaled(self.fuzz) == Vector3(Fixed { raw: 0 }, Fixed { raw: 0 }, Fixed { raw: 0 }));
    }

    /// Reflects the ray, blurred toward the given direction.
    pub fn scatter_with(&self, r_in: &Ray, rec: &HitRecord, unit: Vector3) -> (res: Option<
        (Vector3, Ray),
    >)
        ensures
            res == self.scatter_spec(*r_in, *rec, unit),
    {
        match r_in.get_direction().unit() {
            Some(d) => {
                let reflected = d.reflect(rec.normal);
                let scattered = Ray::new(rec.p, reflected + self.fuzz * unit);
                if scattered.get_direction().dot(rec.normal).raw > 0 {
                    Some((self.albedo, scattered))
                } else {
                    None
                }
            },
            None => None,
        }
    }

    /// Reflects the ray, blurred toward a random direction.
    pub fn scatter(&self, r_in: &Ray, rec: &HitRecord) -> (res: Option<(Vector3, Ray)>)
        ensures
            exists|unit: Vector3|
                unit.is_cylinder_sample() && res == #[trigger] self.scatter_spec(*r_in, *rec, unit),
    {
        let unit = Vector3::from_random_unit();
        let res = self.scatter_with(r_in, rec, unit);
        assert(res == self.scatter_spec(*r_in, *rec, unit));
        res
    }

    /// A mirror of the given colour; `fuzz` is limited to the interval from
    /// zero to one.
    pub fn new(color: Vector3, fuzz: Fixed) -> (m: Metal)
        ensures
            m.albedo == color,
            m.fuzz == clamp_spec(fuzz, Fixed { raw: 0 }, Fixed { raw: SCALE }),
            0 <= m.fuzz.raw <= SCALE,
    {
        Metal { albedo: color, fuzz: clamp(fuzz, Fixed::zero(), Fixed::one()) }
    }
}

/// A clear refracting medium such as glass.
#[derive(Clone, Copy, Debug, PartialEq, Eq, Structural)]
pub struct Dielectric {
    pub ref_idx: Fixed,
}

impl Dielectric {
    /// The ratio of the refractive indices across the surface: `1 / index`
    /// for a ray that enters, `index` for one that leaves. An index of zero
    /// admits no entry.
    pub open spec fn ratio(self, front_face: bool) -> Option<Fixed> {
        if front_face {
            (Fixed { raw: SCALE }).div_spec(self.ref_idx)
        } else {
            Some(self.ref_idx)
        }
    }

    /// The cosine of the angle of incidence, at most one:
    /// `min((-direction) . normal, 1)`.
    pub open spec fn cos_theta(unit_dir: Vector3, normal: Vector3) -> Fixed {
        unit_dir.negated().dot_spec(normal).min_spec(Fixed { raw: SCALE })
    }

    /// Whether the surface reflects all light: `ratio * sin > 1`, where
    /// `sin = sqrt(1 - cos^2)`.
    pub open spec fn totally_reflects(ratio: Fixed, cos_theta: Fixed) -> bool {
        match (Fixed { raw: SCALE }).minus(cos_theta.times(cos_theta)).sqrt_spec() {
            Some(sin_theta) => ratio.times(sin_theta).raw > SCALE,
            None => false,
        }
    }

    /// The direction in which the normalised ray `unit_dir` goes on: mirrored
    /// where the surface reflects all light or no bent ray exists, bent by
    /// Snell's law otherwise.
    pub open spec fn outgoing(unit_dir: Vector3, normal: Vector3, ratio: Fixed) -> Vector3 {
        if Dielectric::totally_reflects(ratio, Dielectric::cos_theta(unit_dir, normal)) {
            unit_dir.reflect_spec(normal)
        } else {
            match unit_dir.refract_spec(normal, ratio) {
                Some(refracted) => refracted,
                None => unit_dir.reflect_spec(normal),
            }
        }
    }

    /// The ray goes on from the point of the hit, untinted. It ends only
    /// where it has no direction or the ratio of indices does not exist.
    pub open spec fn scatter_spec(self, r_in: Ray, rec: HitRecord) -> Option<(Vector3, Ray)> {
        match (self.ratio(rec.front_face), r_in.direction.unit_spec()) {
            (Some(ratio), Some(unit_dir)) => Some(
                (
                    Vector3(Fixed { raw: SCALE }, Fixed { raw: SCALE }, Fixed { raw: SCALE }),
                    Ray {
                        origin: rec.p,
                        direction: Dielectric::outgoing(unit_dir, rec.normal, ratio),
                    },
                ),
            ),
            _ => None,
        }
    }

    /// Beyond the critical angle, where `ratio * sin > 1`, the ray is
    /// reflected and never refracted.
    pub proof fn lemma_total_reflection(self, r_in: Ray, rec: HitRecord)
        requires
            self.ratio(rec.front_face).is_some(),
            r_in.direction.unit_spec().is_some(),
            Dielectric::totally_reflects(
                self.ratio(rec.front_face).unwrap(),
                Dielectric::cos_theta(r_in.direction.unit_spec().unwrap(), rec.normal),
            ),
        ensures
            self.scatter_spec(r_in, rec) == Some(
                (
                    Vector3(Fixed { raw: SCALE }, Fixed { raw: SCALE }, Fixed { raw: SCALE }),
                    Ray {
                        origin: rec.p,
                        direction: r_in.direction.unit_spec().unwrap().reflect_spec(rec.normal),
                    },
                ),
            ),
    {
    }

    /// Refracts the ray, or reflects it where the angle of incidence exceeds
    /// the critical angle. Partial reflection below the critical angle, as
    /// Schlick's approximation would give at grazing angles, is left out by
    /// choice: a ray is wholly refracted or wholly reflected, and no chance
    /// enters.
    pub fn scatter(&self, r_in: &Ray, rec: &HitRecord) -> (res: Option<(Vector3, Ray)>)
        ensures
            res == self.scatter_spec(*r_in, *rec),
    {
        let etai_over_etat = if rec.front_face {
            match Fixed::one().div(self.ref_idx) {
                Some(ratio) => ratio,
                None => {
                    return None;
                },
            }
        } else {
            self.ref_idx
        };
        let unit_dir = match r_in.get_direction().unit() {
            Some(d) => d,
            None => {
                return None;
            },
        };
        let cos_theta = unit_dir.neg().dot(rec.normal).min(Fixed::one());
        let reflects = match (Fixed::one() - cos_theta * cos_theta).sqrt() {
            Some(sin_theta) => (etai_over_etat * sin_theta).raw > SCALE,
            None => false,
        };
        if reflects {
            let reflected = unit_dir.reflect(rec.normal);
            Some((Vector3::new(Fixed::one()), Ray::new(rec.p, reflected)))
        } else {
            let refracted = match unit_dir.refract(rec.normal, etai_over_etat) {
                Some(bent) => bent,
                None => unit_dir.reflect(rec.normal),
            };
            Some((Vector3::new(Fixed::one()), Ray::new(rec.p, refracted)))
        }
    }

    /// A medium with the given index of refraction.
    pub fn new(ref_idx: Fixed) -> (m: Dielectric)
        ensures
            m.ref_idx == ref_idx,
    {
        Dielectric { ref_idx }
    }
}

/// The material of a surface.
#[derive(Clone, Copy, Debug, PartialEq, Eq, Structural)]
pub enum Material {
    Lambertian(Lambertian),
    Metal(Metal),
    Dielectric(Dielectric),
}

impl Material {
    /// The tint that the material gives to the light that it scatters: the
    /// albedo of a matte or mirror surface, white for a clear medium.
    pub open spec fn tint(self) -> Vector3 {
        match self {
            Material::Lambertian(m) => m.albedo,
            Material::Metal(m) => m.albedo,
            Material::Dielectric(_) => Vector3(
                Fixed { raw: SCALE },
                Fixed { raw: SCALE },
                Fixed { raw: SCALE },
            ),
        }
    }

    /// Scattered light is tinted by the material's tint.
    pub proof fn lemma_scatter_tint(self, r_in: Ray, rec: HitRecord, unit: Vector3)
        ensures
            self.scatter_spec(r_in, rec, unit) matches Some((attenuation, _)) ==> attenuation
                == self.tint(),
    {
    }

    /// What the material does with the ray `r_in` that struck it at `rec`,
    /// given the direction `unit` by which a matte or blurred surface
    /// displaces the outgoing ray: the tint and the outgoing ray, or `None`
    /// where the ray is absorbed.
    pub open spec fn scatter_spec(self, r_in: Ray, rec: HitRecord, unit: Vector3) -> Option<
        (Vector3, Ray),
    > {
        match self {
            Material::Lambertian(m) => Some(m.scatter_spec(rec, unit)),
            Material::Metal(m) => m.scatter_spec(r_in, rec, unit),
            Material::Dielectric(m) => m.scatter_spec(r_in, rec),
        }
    }

    /// Scatters the ray with the given displacing direction.
    pub fn scatter_with(&self, r_in: &Ray, rec: &HitRecord, unit: Vector3) -> (res: Option<
        (Vector3, Ray),
    >)
        ensures
            res == self.scatter_spec(*r_in, *rec, unit),
    {
        match self {
            Material::Lambertian(m) => Some(m.scatter_with(rec, unit)),
            Material::Metal(m) => m.scatter_with(r_in, rec, unit),
            Material::Dielectric(m) => m.scatter(r_in, rec),
        }
    }

    /// Scatters the ray, the displacing direction drawn at random.
    pub fn scatter(&self, r_in: &Ray, rec: &HitRecord) -> (res: Option<(Vector3, Ray)>)
        ensures
            exists|unit: Vector3|
                unit.is_cylinder_sample() && res == #[trigger] self.scatter_spec(*r_in, *rec, unit),
    {
        match self {
            Material::Lambertian(m) => {
                let res = m.scatter(r_in, rec);
                proof {
                    let unit = choose|unit: Vector3|
                        unit.is_cylinder_sample() && res == Some(
                            #[trigger] m.scatter_spec(*rec, unit),
                        );
                    assert(res == self.scatter_spec(*r_in, *rec, unit));
                }
                res
            },
            Material::Metal(m) => {
                let res = m.scatter(r_in, rec);
                proof {
                    let unit = choose|unit: Vector3|
                        unit.is_cylinder_sample() && res == #[trigger] m.scatter_spec(
                            *r_in,
                            *rec,
                            unit,
                        );
                    assert(res == self.scatter_spec(*r_in, *rec, unit));
                }
                res
            },
            Material::Dielectric(m) => {
                let res = m.scatter(r_in, rec);
                proof {
                    Vector3::lemma_cylinder_sample_exists();
                    let unit = Vector3::from_cylinder_spec(Fixed { raw: 0 }, Fixed { raw: 0 });
                    assert(res == self.scatter_spec(*r_in, *rec, unit));
                }
                res
            },
        }
    }
}

} // verus!
