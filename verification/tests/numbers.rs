use raytracer::fixed::{isqrt, Fixed, SCALE};

fn fx(raw: i64) -> Fixed {
    Fixed::from_raw(raw)
}

#[test]
fn scale_is_a_million() {
    assert_eq!(SCALE, 1_000_000);
    assert_eq!(Fixed::one().raw, 1_000_000);
    assert_eq!(Fixed::from_int(3).raw, 3_000_000);
}

#[test]
fn sums_saturate() {
    assert_eq!((fx(1_500_000) + fx(2_250_000)).raw, 3_750_000);
    assert_eq!((fx(i64::MAX) + fx(1)).raw, i64::MAX);
    assert_eq!((fx(i64::MIN) - fx(1)).raw, i64::MIN);
    assert_eq!((-fx(i64::MIN)).raw, i64::MAX);
    assert_eq!((-fx(250_000)).raw, -250_000);
}

#[test]
fn products_round_toward_zero() {
    assert_eq!((fx(1_500_000) * fx(2_000_000)).raw, 3_000_000);
    assert_eq!((fx(1) * fx(999_999)).raw, 0);
    assert_eq!((fx(-1) * fx(999_999)).raw, 0);
    assert_eq!((fx(-1_500_000) * fx(333_333)).raw, -499_999);
    assert_eq!((fx(i64::MAX) * fx(i64::MAX)).raw, i64::MAX);
    assert_eq!((fx(i64::MAX) * fx(i64::MIN)).raw, i64::MIN);
}

#[test]
fn quotients_round_toward_zero() {
    assert_eq!(fx(1_000_000).div(fx(3_000_000)), Some(fx(333_333)));
    assert_eq!(fx(-1_000_000).div(fx(3_000_000)), Some(fx(-333_333)));
    assert_eq!(fx(1_000_000).div(fx(-3_000_000)), Some(fx(-333_333)));
    assert_eq!(fx(-1_000_000).div(fx(-3_000_000)), Some(fx(333_333)));
    assert_eq!(fx(7_000_000).div(fx(0)), None);
    assert_eq!(fx(i64::MAX).div(fx(1)), Some(fx(i64::MAX)));
}

#[test]
fn square_roots_round_down() {
    assert_eq!(fx(4_000_000).sqrt(), Some(fx(2_000_000)));
    assert_eq!(fx(2_000_000).sqrt(), Some(fx(1_414_213)));
    assert_eq!(fx(0).sqrt(), Some(fx(0)));
    assert_eq!(fx(-1).sqrt(), None);
    assert_eq!(isqrt(0), 0);
    assert_eq!(isqrt(15), 3);
    assert_eq!(isqrt(16), 4);
    assert_eq!(isqrt(u128::MAX), u64::MAX as u128);
}

#[test]
fn sine_and_cosine_of_known_angles() {
    // pi / 6, pi / 3, pi / 2, pi
    assert!((fx(523_599).sin().raw - 500_000).abs() <= 5);
    assert!((fx(523_599).cos().raw - 866_025).abs() <= 5);
    assert!((fx(1_047_198).sin().raw - 866_025).abs() <= 5);
    assert!((fx(1_047_198).cos().raw - 500_000).abs() <= 5);
    assert!((fx(1_570_796).sin().raw - 1_000_000).abs() <= 5);
    assert!(fx(1_570_796).cos().raw.abs() <= 5);
    assert!(fx(3_141_593).sin().raw.abs() <= 5);
    assert!((fx(3_141_593).cos().raw + 1_000_000).abs() <= 5);
    assert_eq!(fx(0).sin().raw, 0);
    assert_eq!(fx(0).cos().raw, 1_000_000);
    assert_eq!(fx(-523_599).sin().raw, -fx(523_599).sin().raw);
    assert_eq!(fx(-523_599).cos().raw, fx(523_599).cos().raw);
}

#[test]
fn sine_and_cosine_stay_on_the_circle() {
    let mut a: i64 = 0;
    while a < 6_283_185 {
        let s = fx(a).sin().raw as i128;
        let c = fx(a).cos().raw as i128;
        let norm = s * s + c * c;
        let one: i128 = 1_000_000 * 1_000_000;
        assert!((norm - one).abs() <= 40 * 1_000_000, "angle {}", a);
        let expect = ((a as f64) / 1e6).sin() * 1e6;
        assert!((s as f64 - expect).abs() <= 12.0, "angle {}", a);
        a += 997;
    }
}

#[test]
fn tangent_of_a_right_angle_half() {
    // tan(pi / 4) = 1
    let t = fx(785_398).tan().unwrap();
    assert!((t.raw - 1_000_000).abs() <= 10);
}

#[test]
fn sine_and_cosine_exact_values() {
    assert_eq!(fx(785_398).sin(), fx(707_107));
    assert_eq!(fx(785_398).cos(), fx(707_107));
    assert_eq!(fx(785_398).tan(), Some(fx(1_000_000)));
    assert_eq!(fx(0).tan(), Some(fx(0)));
    assert_eq!(fx(1_570_796).sin(), fx(1_000_000));
    assert_eq!(fx(1_570_796).cos(), fx(0));
    assert_eq!(fx(1_570_796).tan(), None);
    for a in [1i64, 523_599, 2_000_000, 4_000_000, 6_283_184, 7_000_000_000] {
        assert_eq!(fx(-a).sin().raw, -fx(a).sin().raw);
        assert_eq!(fx(-a).cos(), fx(a).cos());
        assert!(fx(a).sin().raw.abs() <= 1_000_000 && fx(a).cos().raw.abs() <= 1_000_000);
    }
}
