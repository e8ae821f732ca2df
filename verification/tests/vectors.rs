use raytracer::fixed::Fixed;
use raytracer::rmath::{clamp, deg_to_rad, rad_to_deg, random_double, random_interval, to_byte, Vector3};

fn fx(x: f64) -> Fixed {
    Fixed::from_raw((x * 1e6).round() as i64)
}

fn v(x: f64, y: f64, z: f64) -> Vector3 {
    Vector3(fx(x), fx(y), fx(z))
}

#[test]
fn componentwise_arithmetic() {
    let a = v(1.0, 2.0, 3.0);
    let b = v(0.5, -4.0, 2.0);
    assert_eq!(a + b, v(1.5, -2.0, 5.0));
    assert_eq!(a - b, v(0.5, 6.0, 1.0));
    assert_eq!(-a, v(-1.0, -2.0, -3.0));
    assert_eq!(a * fx(2.0), v(2.0, 4.0, 6.0));
    assert_eq!(fx(2.0) * a, v(2.0, 4.0, 6.0));
    assert_eq!(a / fx(2.0), Some(v(0.5, 1.0, 1.5)));
    assert_eq!(a / fx(0.0), None);
    assert_eq!(a.mul_one_by_one(b), v(0.5, -8.0, 6.0));
    assert_eq!(Vector3::new(fx(0.25)), v(0.25, 0.25, 0.25));
    assert_eq!(Vector3::zero(), v(0.0, 0.0, 0.0));
    assert_eq!((a.x(), a.y(), a.z()), (fx(1.0), fx(2.0), fx(3.0)));
}

#[test]
fn star_between_vectors_is_the_cross_product() {
    let x = v(1.0, 0.0, 0.0);
    let y = v(0.0, 1.0, 0.0);
    let z = v(0.0, 0.0, 1.0);
    assert_eq!(x * y, z);
    assert_eq!(y * z, x);
    assert_eq!(z * x, y);
    assert_eq!(y * x, -z);
    assert_eq!(v(1.0, 2.0, 3.0) * v(4.0, 5.0, 6.0), v(-3.0, 6.0, -3.0));
}

#[test]
fn dot_and_lengths() {
    let a = v(1.0, 2.0, 3.0);
    let b = v(4.0, -5.0, 6.0);
    assert_eq!(a.dot(b), fx(12.0));
    assert_eq!(a.length_square(), fx(14.0));
    assert_eq!(v(3.0, 4.0, 0.0).length(), fx(5.0));
    assert_eq!(v(1.0, 1.0, 1.0).length(), Fixed::from_raw(1_732_050));
    assert_eq!(Vector3::zero().length(), fx(0.0));
    let huge = Vector3(Fixed::from_raw(i64::MAX), Fixed::from_raw(i64::MIN), Fixed::from_raw(i64::MAX));
    assert_eq!(huge.length(), Fixed::from_raw(i64::MAX));
}

#[test]
fn unit_of_a_vector() {
    assert_eq!(v(0.0, 3.0, 0.0).unit(), Some(v(0.0, 1.0, 0.0)));
    assert_eq!(v(3.0, 0.0, -4.0).unit(), Some(v(0.6, 0.0, -0.8)));
    assert_eq!(Vector3::zero().unit(), None);
    let tiny = Vector3(Fixed::from_raw(0), Fixed::from_raw(-1), Fixed::from_raw(0));
    assert_eq!(tiny.unit(), Some(v(0.0, -1.0, 0.0)));
}

#[test]
fn reflect_mirrors_about_the_normal() {
    let n = v(0.0, 1.0, 0.0);
    assert_eq!(v(1.0, -1.0, 0.0).reflect(n), v(1.0, 1.0, 0.0));
    assert_eq!(v(0.0, -1.0, 0.0).reflect(n), v(0.0, 1.0, 0.0));
    assert_eq!(v(1.0, 0.0, 0.0).reflect(n), v(1.0, 0.0, 0.0));
    let d = v(0.3, -0.4, 1.2);
    let r = d.reflect(n);
    assert_eq!(r.dot(n), -d.dot(n));
}

#[test]
fn reflect_law_within_tolerance() {
    let n = v(0.6, 0.0, -0.8);
    let d = v(0.3, -0.4, 1.2);
    let sum = d.reflect(n).dot(n) + d.dot(n);
    assert!(sum.raw.abs() <= 12, "{}", sum.raw);
}

#[test]
fn refract_straight_through() {
    let n = v(0.0, 1.0, 0.0);
    let d = v(0.0, -1.0, 0.0);
    assert_eq!(d.refract(n, fx(1.0)), Some(v(0.0, -1.0, 0.0)));
    assert_eq!(d.refract(n, fx(0.5)), Some(v(0.0, -1.0, 0.0)));
}

#[test]
fn refract_bends_toward_the_normal() {
    let n = v(0.0, 1.0, 0.0);
    let d = v(0.6, -0.8, 0.0);
    // sin of the refracted angle is 0.6 / 1.5 = 0.4
    let out = d.refract(n, Fixed::from_raw(666_667)).unwrap();
    assert!((out.0.raw - 400_000).abs() <= 2);
    assert!((out.1.raw + 916_515).abs() <= 2);
    assert_eq!(out.2.raw, 0);
}

#[test]
fn refract_has_no_ray_beyond_the_critical_angle() {
    let n = v(0.0, 1.0, 0.0);
    let d = v(0.8, -0.6, 0.0);
    assert_eq!(d.refract(n, fx(1.5)), None);
}

#[test]
fn cosine_of_angle() {
    assert_eq!(v(2.0, 0.0, 0.0).cos_of_angle(v(0.0, 3.0, 0.0)), Some(fx(0.0)));
    assert_eq!(v(2.0, 0.0, 0.0).cos_of_angle(v(5.0, 0.0, 0.0)), Some(fx(1.0)));
    assert_eq!(v(2.0, 0.0, 0.0).cos_of_angle(v(-5.0, 0.0, 0.0)), Some(fx(-1.0)));
    assert_eq!(v(2.0, 0.0, 0.0).cos_of_angle(Vector3::zero()), None);
}

#[test]
fn map_applies_to_every_component() {
    let doubled = v(1.0, 2.0, 3.0).map(|x| x + x);
    assert_eq!(doubled, v(2.0, 4.0, 6.0));
}

#[test]
fn clamp_limits_to_the_interval() {
    assert_eq!(clamp(fx(0.5), fx(0.0), fx(0.999)), fx(0.5));
    assert_eq!(clamp(fx(1.5), fx(0.0), fx(0.999)), fx(0.999));
    assert_eq!(clamp(fx(-0.5), fx(0.0), fx(0.999)), fx(0.0));
    assert_eq!(clamp(fx(0.0), fx(0.0), fx(0.999)), fx(0.0));
    assert_eq!(clamp(fx(0.999), fx(0.0), fx(0.999)), fx(0.999));
    assert_eq!(clamp(fx(5.0), fx(3.0), fx(1.0)), fx(1.0));
    assert_eq!(clamp(fx(2.0), fx(3.0), fx(1.0)), fx(1.0));
    assert_eq!(clamp(fx(0.0), fx(3.0), fx(1.0)), fx(3.0));
}

#[test]
fn degrees_and_radians() {
    assert_eq!(deg_to_rad(fx(180.0)), Fixed::from_raw(3_141_593));
    assert_eq!(deg_to_rad(fx(90.0)), Fixed::from_raw(1_570_796));
    assert_eq!(deg_to_rad(fx(0.0)), fx(0.0));
    assert_eq!(rad_to_deg(Fixed::from_raw(3_141_593)), fx(180.0));
    assert_eq!(rad_to_deg(fx(1.0)), Fixed::from_raw(57_295_773));
}

#[test]
fn channel_bytes() {
    assert_eq!(to_byte(fx(0.0)), 0);
    assert_eq!(to_byte(fx(0.5)), 128);
    assert_eq!(to_byte(fx(0.999)), 255);
    assert_eq!(to_byte(fx(1.0)), 255);
    assert_eq!(to_byte(fx(-0.25)), 0);
    assert_eq!(to_byte(fx(0.003906)), 0);
    assert_eq!(to_byte(fx(0.003907)), 1);
    assert_eq!(v(0.0, 0.5, 0.999).into_rgb().0, [0, 128, 255]);
}

#[test]
fn random_numbers_stay_in_range() {
    for _ in 0..1000 {
        let r = random_double();
        assert!(0 <= r.raw && r.raw < 1_000_000);
        let s = random_interval(fx(-2.0)..fx(3.0));
        assert!(fx(-2.0) <= s && s < fx(3.0));
    }
    let mut distinct = false;
    let first = random_double();
    for _ in 0..100 {
        if random_double() != first {
            distinct = true;
        }
    }
    assert!(distinct);
}

#[test]
fn random_vectors_stay_in_range() {
    for _ in 0..200 {
        let a = Vector3::from_random();
        for c in [a.0, a.1, a.2] {
            assert!(fx(0.0) <= c && c < fx(1.0));
        }
        let b = Vector3::from_interval_random(fx(-1.0)..fx(1.0));
        for c in [b.0, b.1, b.2] {
            assert!(fx(-1.0) <= c && c < fx(1.0));
        }
        let ball = Vector3::from_random_in_unit_sphere();
        assert!(ball.length_square() <= fx(1.0));
        let u = Vector3::from_random_unit();
        assert!((u.length().raw - 1_000_000).abs() <= 20, "{:?}", u);
        assert!(u.2.raw >= 0);
    }
}

#[test]
fn cylinder_map_at_given_draws() {
    assert_eq!(Vector3::from_cylinder(fx(0.0), fx(0.0)), v(1.0, 0.0, 0.0));
    assert_eq!(Vector3::from_cylinder(fx(0.0), fx(0.6)), v(0.8, 0.0, 0.6));
    let quarter = Vector3::from_cylinder(Fixed::from_raw(1_570_796), fx(0.0));
    assert!(quarter.0.raw.abs() <= 5);
    assert!((quarter.1.raw - 1_000_000).abs() <= 5);
    assert_eq!(Vector3::from_cylinder(fx(0.0), fx(2.0)), v(0.0, 0.0, 2.0));
}

#[test]
fn default_vector_is_zero() {
    assert_eq!(Vector3::default(), Vector3::zero());
}

#[test]
fn reflect_law_for_many_vectors() {
    let n = v(0.0, 0.6, 0.8);
    for i in -20..20i64 {
        for j in -20..20i64 {
            let d = Vector3(
                Fixed::from_raw(i * 123_457),
                Fixed::from_raw(j * 98_765),
                Fixed::from_raw((i - j) * 55_555),
            );
            let sum = d.reflect(n).dot(n) + d.dot(n);
            assert!(sum.raw.abs() <= 9, "{:?} {}", d, sum.raw);
        }
    }
}

#[test]
fn unit_ball_membership() {
    assert!(Vector3::zero().in_unit_ball());
    assert!(v(1.0, 0.0, 0.0).in_unit_ball());
    assert!(v(0.6, 0.0, -0.8).in_unit_ball());
    assert!(!v(0.9, 0.9, 0.9).in_unit_ball());
    assert!(!v(1.000001, 0.0, 0.0).in_unit_ball());
    assert!(!v(-1.0, 0.001, 0.0).in_unit_ball());
}

#[test]
fn rejection_sampling_gives_points_of_the_ball() {
    let mut negative = false;
    let mut distinct = false;
    let first = Vector3::from_random_in_unit_sphere();
    for _ in 0..500 {
        let p = Vector3::from_random_in_unit_sphere();
        assert!(p.in_unit_ball());
        for c in [p.0, p.1, p.2] {
            assert!(fx(-1.0) <= c && c < fx(1.0));
            negative = negative || c < fx(0.0);
        }
        distinct = distinct || p != first;
    }
    assert!(negative && distinct);
}

#[test]
fn reflecting_twice_gives_the_vector_back() {
    let n = v(0.0, 0.6, 0.8);
    for i in -10..10i64 {
        for j in -10..10i64 {
            let d = Vector3(
                Fixed::from_raw(i * 1_234_567),
                Fixed::from_raw(j * 987_654),
                Fixed::from_raw((i + j) * 555_555),
            );
            let back = d.reflect(n).reflect(n);
            for (a, b) in [(back.0, d.0), (back.1, d.1), (back.2, d.2)] {
                assert!((a.raw - b.raw).abs() <= 19, "{:?} {:?}", d, back);
            }
            let before = d.length().raw;
            let after = d.reflect(n).length().raw;
            assert!((before - after).abs() <= 16, "{} {}", before, after);
        }
    }
    assert_eq!(v(1.0, -2.0, 3.0).reflect(v(0.0, 1.0, 0.0)).reflect(v(0.0, 1.0, 0.0)), v(1.0, -2.0, 3.0));
}
