use minplus::weight::{horizontal_min, is_number, min, rank_of, UNREACHABLE, ZERO};

fn b(x: f32) -> u32 {
    x.to_bits()
}

#[test]
fn constants_are_the_patterns_of_the_numbers() {
    assert_eq!(UNREACHABLE, f32::INFINITY.to_bits());
    assert_eq!(UNREACHABLE, 0x7f80_0000);
    assert_eq!(ZERO, 0.0f32.to_bits());
}

#[test]
fn is_number_tells_numbers_from_the_rest() {
    assert!(is_number(b(0.0)));
    assert!(is_number(b(-0.0)));
    assert!(is_number(b(1.5)));
    assert!(is_number(b(f32::MAX)));
    assert!(is_number(b(f32::MIN)));
    assert!(is_number(b(f32::MIN_POSITIVE)));
    assert!(is_number(b(f32::INFINITY)));
    assert!(is_number(b(f32::NEG_INFINITY)));
    assert!(is_number(1));
    assert!(is_number(0x8000_0001));
    assert!(!is_number(b(f32::NAN)));
    assert!(!is_number(0x7f80_0001));
    assert!(!is_number(0x7fff_ffff));
    assert!(!is_number(0xff80_0001));
    assert!(!is_number(0xffff_ffff));
}

#[test]
fn is_number_agrees_with_the_numbers() {
    let mut w: u32 = 0;
    loop {
        assert_eq!(is_number(w), !f32::from_bits(w).is_nan(), "{:#x}", w);
        match w.checked_add(0x0000_ffff) {
            Some(next) => w = next,
            None => break,
        }
    }
}

#[test]
fn rank_of_has_exact_values() {
    assert_eq!(rank_of(0), 0);
    assert_eq!(rank_of(1), 1);
    assert_eq!(rank_of(0x7f80_0000), 0x7f80_0000);
    assert_eq!(rank_of(0x8000_0000), -1);
    assert_eq!(rank_of(0x8000_0001), -2);
    assert_eq!(rank_of(0xff80_0000), -0x7f80_0001);
    assert_eq!(rank_of(0xffff_ffff), -0x8000_0000);
    assert_eq!(rank_of(0x7fff_ffff), 0x7fff_ffff);
}

#[test]
fn rank_of_orders_as_the_numbers_do() {
    let xs = [
        f32::NEG_INFINITY,
        f32::MIN,
        -1.0e10,
        -2.5,
        -1.0,
        -f32::MIN_POSITIVE,
        -1.0e-45,
        0.0,
        1.0e-45,
        f32::MIN_POSITIVE,
        0.5,
        1.0,
        3.0,
        1.0e10,
        f32::MAX,
        f32::INFINITY,
    ];
    for x in xs {
        for y in xs {
            assert_eq!(rank_of(b(x)) < rank_of(b(y)), x < y, "{} {}", x, y);
        }
    }
    assert!(rank_of(b(-0.0)) < rank_of(b(0.0)));
}

#[test]
fn min_is_the_lesser_number() {
    assert_eq!(min(b(1.0), b(2.0)), b(1.0));
    assert_eq!(min(b(2.0), b(1.0)), b(1.0));
    assert_eq!(min(b(-1.0), b(1.0)), b(-1.0));
    assert_eq!(min(b(-1.0), b(-2.0)), b(-2.0));
    assert_eq!(min(b(f32::INFINITY), b(3.0)), b(3.0));
    assert_eq!(min(b(3.0), b(f32::INFINITY)), b(3.0));
    assert_eq!(min(b(f32::INFINITY), b(f32::INFINITY)), b(f32::INFINITY));
    assert_eq!(min(b(f32::NEG_INFINITY), b(f32::MIN)), b(f32::NEG_INFINITY));
    assert_eq!(min(b(0.0), b(-0.0)), b(-0.0));
    assert_eq!(min(b(-0.0), b(0.0)), b(-0.0));
    assert_eq!(min(b(7.0), b(7.0)), b(7.0));
}

#[test]
fn min_passes_over_what_is_no_number() {
    let nan = b(f32::NAN);
    assert_eq!(min(nan, b(2.0)), b(2.0));
    assert_eq!(min(b(2.0), nan), b(2.0));
    assert_eq!(min(b(f32::INFINITY), nan), b(f32::INFINITY));
    assert_eq!(min(nan, b(f32::INFINITY)), b(f32::INFINITY));
    assert_eq!(min(0xffc0_0000, b(f32::NEG_INFINITY)), b(f32::NEG_INFINITY));
    assert_eq!(min(0x7fc0_0000, 0xffc0_0001), 0x7fc0_0000);
}

#[test]
fn min_agrees_with_the_numbers() {
    let xs = [
        f32::NEG_INFINITY,
        -3.5,
        -1.0e-40,
        0.0,
        1.0e-40,
        2.0,
        f32::MAX,
        f32::INFINITY,
        f32::NAN,
    ];
    for x in xs {
        for y in xs {
            let got = f32::from_bits(min(b(x), b(y)));
            let want = x.min(y);
            assert!(got == want || (got.is_nan() && want.is_nan()), "{} {}", x, y);
        }
    }
}

#[test]
fn horizontal_min_of_nothing_is_unreachable() {
    assert_eq!(horizontal_min(&[]), UNREACHABLE);
}

#[test]
fn horizontal_min_is_the_least_lane() {
    assert_eq!(horizontal_min(&[b(4.0), b(2.0), b(8.0), b(3.0)]), b(2.0));
    assert_eq!(horizontal_min(&[b(4.0)]), b(4.0));
    assert_eq!(horizontal_min(&[b(f32::INFINITY), b(f32::INFINITY)]), UNREACHABLE);
    assert_eq!(horizontal_min(&[b(f32::NAN), b(-1.0), b(f32::NAN)]), b(-1.0));
    assert_eq!(horizontal_min(&[b(f32::NAN)]), UNREACHABLE);
    assert_eq!(horizontal_min(&[b(1.0), b(-0.0), b(0.0), b(-5.0), b(9.0)]), b(-5.0));
}
