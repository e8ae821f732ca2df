use raytracer::fixed::Fixed;
use raytracer::physics::material::{Dielectric, Lambertian, Material, Metal};
use raytracer::physics::{HitRecord, Ray};
use raytracer::rmath::Vector3;

fn fx(x: f64) -> Fixed {
    Fixed::from_raw((x * 1e6).round() as i64)
}

fn v(x: f64, y: f64, z: f64) -> Vector3 {
    Vector3(fx(x), fx(y), fx(z))
}

fn record(front_face: bool, material: Material) -> HitRecord {
    HitRecord { p: v(1.0, 2.0, 3.0), t: fx(1.0), front_face, normal: v(0.0, 1.0, 0.0), material }
}

#[test]
fn diffuse_scatter_always_continues() {
    let m = Lambertian::new(v(0.7, 0.3, 0.3));
    let rec = record(true, Material::Lambertian(m));
    let r_in = Ray::new(v(1.0, 3.0, 3.0), v(0.0, -1.0, 0.0));
    for _ in 0..500 {
        let (attenuation, out) = m.scatter(&r_in, &rec).unwrap();
        assert_eq!(attenuation, v(0.7, 0.3, 0.3));
        assert_eq!(out.get_origin(), v(1.0, 2.0, 3.0));
        assert!(Material::Lambertian(m).scatter(&r_in, &rec).is_some());
    }
    let still = Ray::new(v(1.0, 3.0, 3.0), Vector3::zero());
    assert!(m.scatter(&still, &rec).is_some());
}

#[test]
fn diffuse_scatter_with_given_direction() {
    let m = Lambertian::new(v(0.7, 0.3, 0.3));
    let rec = record(true, Material::Lambertian(m));
    let (attenuation, out) = m.scatter_with(&rec, v(0.6, 0.0, 0.8));
    assert_eq!(attenuation, v(0.7, 0.3, 0.3));
    assert_eq!(out, Ray::new(v(1.0, 2.0, 3.0), v(0.6, 1.0, 0.8)));
}

#[test]
fn metal_fuzz_is_limited_to_the_unit_interval() {
    assert_eq!(Metal::new(v(0.8, 0.8, 0.8), fx(0.2)).fuzz, fx(0.2));
    assert_eq!(Metal::new(v(0.8, 0.8, 0.8), fx(3.0)).fuzz, fx(1.0));
    assert_eq!(Metal::new(v(0.8, 0.8, 0.8), fx(-1.0)).fuzz, fx(0.0));
    assert_eq!(Metal::new(v(0.8, 0.8, 0.8), fx(1.0)).fuzz, fx(1.0));
}

#[test]
fn polished_metal_mirrors_the_ray() {
    let m = Metal::new(v(0.8, 0.8, 0.8), fx(0.0));
    let rec = record(true, Material::Metal(m));
    let r_in = Ray::new(v(0.0, 3.0, 3.0), v(3.0, -4.0, 0.0));
    let (attenuation, out) = m.scatter(&r_in, &rec).unwrap();
    assert_eq!(attenuation, v(0.8, 0.8, 0.8));
    assert_eq!(out, Ray::new(v(1.0, 2.0, 3.0), v(0.6, 0.8, 0.0)));
}

#[test]
fn polished_metal_absorbs_a_ray_reflected_into_the_surface() {
    let m = Metal::new(v(0.8, 0.8, 0.8), fx(0.0));
    let rec = record(true, Material::Metal(m));
    // the ray leaves the surface, so its mirror image enters it
    let leaving = Ray::new(v(1.0, 2.0, 3.0), v(3.0, 4.0, 0.0));
    assert_eq!(m.scatter(&leaving, &rec), None);
    assert_eq!(m.scatter_with(&leaving, &rec, v(1.0, 0.0, 0.0)), None);
    // a grazing ray: the inner product with the normal is zero
    let grazing = Ray::new(v(0.0, 2.0, 3.0), v(1.0, 0.0, 0.0));
    assert_eq!(m.scatter(&grazing, &rec), None);
    assert_eq!(Material::Metal(m).scatter(&leaving, &rec), None);
}

#[test]
fn metal_without_incoming_direction_absorbs() {
    let m = Metal::new(v(0.8, 0.8, 0.8), fx(0.5));
    let rec = record(true, Material::Metal(m));
    let still = Ray::new(v(1.0, 3.0, 3.0), Vector3::zero());
    assert_eq!(m.scatter(&still, &rec), None);
}

#[test]
fn blurred_metal_displaces_the_mirror_image() {
    let m = Metal::new(v(0.8, 0.8, 0.8), fx(0.5));
    let rec = record(true, Material::Metal(m));
    let r_in = Ray::new(v(0.0, 3.0, 3.0), v(3.0, -4.0, 0.0));
    let (_, out) = m.scatter_with(&r_in, &rec, v(0.0, 0.0, 1.0)).unwrap();
    assert_eq!(out.get_direction(), v(0.6, 0.8, 0.5));
    assert_eq!(m.scatter_with(&r_in, &rec, v(0.0, -1.0, 0.0)).unwrap().1.get_direction(), v(0.6, 0.3, 0.0));
}

#[test]
fn dielectric_beyond_the_critical_angle_reflects() {
    let glass = Dielectric::new(fx(1.5));
    // leaving the glass (back face), sin = 0.8, ratio * sin = 1.2 > 1
    let rec = record(false, Material::Dielectric(glass));
    let r_in = Ray::new(v(0.0, 3.0, 3.0), v(0.8, -0.6, 0.0));
    let (attenuation, out) = glass.scatter(&r_in, &rec).unwrap();
    assert_eq!(attenuation, v(1.0, 1.0, 1.0));
    assert_eq!(out.get_origin(), v(1.0, 2.0, 3.0));
    assert_eq!(out.get_direction(), v(0.8, -0.6, 0.0).reflect(v(0.0, 1.0, 0.0)));
    assert_eq!(out.get_direction(), v(0.8, 0.6, 0.0));
    assert_eq!(Material::Dielectric(glass).scatter(&r_in, &rec), Some((attenuation, out)));
}

#[test]
fn dielectric_below_the_critical_angle_refracts() {
    let glass = Dielectric::new(fx(1.5));
    let rec = record(true, Material::Dielectric(glass));
    let r_in = Ray::new(v(0.0, 3.0, 3.0), v(0.6, -0.8, 0.0));
    let (attenuation, out) = glass.scatter(&r_in, &rec).unwrap();
    assert_eq!(attenuation, v(1.0, 1.0, 1.0));
    let ratio = Fixed::one().div(fx(1.5)).unwrap();
    assert_eq!(Some(out.get_direction()), v(0.6, -0.8, 0.0).refract(v(0.0, 1.0, 0.0), ratio));
    assert!(out.get_direction().1.raw < 0);
    assert!((out.get_direction().0.raw - 400_000).abs() <= 3);
}

#[test]
fn dielectric_straight_through() {
    let glass = Dielectric::new(fx(1.5));
    let rec = record(true, Material::Dielectric(glass));
    let r_in = Ray::new(v(1.0, 3.0, 3.0), v(0.0, -2.0, 0.0));
    let (_, out) = glass.scatter(&r_in, &rec).unwrap();
    assert_eq!(out, Ray::new(v(1.0, 2.0, 3.0), v(0.0, -1.0, 0.0)));
}

#[test]
fn dielectric_degenerate_inputs_absorb() {
    let rec = record(true, Material::Dielectric(Dielectric::new(fx(0.0))));
    let r_in = Ray::new(v(1.0, 3.0, 3.0), v(0.0, -1.0, 0.0));
    assert_eq!(Dielectric::new(fx(0.0)).scatter(&r_in, &rec), None);
    let still = Ray::new(v(1.0, 3.0, 3.0), Vector3::zero());
    assert_eq!(Dielectric::new(fx(1.5)).scatter(&still, &rec), None);
}

#[test]
fn material_dispatches_on_its_kind() {
    let r_in = Ray::new(v(0.0, 3.0, 3.0), v(3.0, -4.0, 0.0));
    let unit = v(0.0, 0.0, 1.0);
    let matte = Lambertian::new(v(0.1, 0.2, 0.3));
    let mirror = Metal::new(v(0.8, 0.8, 0.8), fx(0.5));
    let glass = Dielectric::new(fx(1.5));
    let rec = record(true, Material::Lambertian(matte));
    assert_eq!(Material::Lambertian(matte).scatter_with(&r_in, &rec, unit), Some(matte.scatter_with(&rec, unit)));
    assert_eq!(Material::Metal(mirror).scatter_with(&r_in, &rec, unit), mirror.scatter_with(&r_in, &rec, unit));
    assert_eq!(Material::Dielectric(glass).scatter_with(&r_in, &rec, unit), glass.scatter(&r_in, &rec));
}
