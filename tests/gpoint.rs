use gpoint::{FormatDirectives, FormatError, GPoint};

fn render(num: f64, d: FormatDirectives) -> String {
    GPoint(num.to_bits()).fmt(&d).unwrap()
}

fn width(w: usize) -> FormatDirectives {
    FormatDirectives { width: Some(w), ..FormatDirectives::default() }
}

#[test]
fn simple() {
    for (num, res) in [
        (42., "42"),
        (f64::NAN, "nan"),
        (-f64::INFINITY, "-inf"),
        (f64::INFINITY, "inf"),
    ] {
        assert_eq!(&render(num, FormatDirectives::default()), res);
    }
}

#[test]
fn pad() {
    for (num, res) in [
        (42., "      42"),
        (f64::NAN, "     nan"),
        (-f64::INFINITY, "    -inf"),
        (f64::INFINITY, "     inf"),
    ] {
        assert_eq!(&render(num, width(8)), res);
    }
}

#[test]
fn zero_pad() {
    for (num, res) in [
        (42., "00000042"),
        (-1.01, "-0001.01"),
        (f64::NAN, "     nan"),
        (-f64::INFINITY, "    -inf"),
        (f64::INFINITY, "     inf"),
    ] {
        let d = FormatDirectives { zero_pad: true, ..width(8) };
        assert_eq!(&render(num, d), res);
    }
}

#[test]
fn minus_pad() {
    for (num, res) in [
        (42., "42      "),
        (-1.01, "-1.01   "),
        (f64::NAN, "nan     "),
        (-f64::INFINITY, "-inf    "),
        (f64::INFINITY, "inf     "),
    ] {
        let d = FormatDirectives { left_justify: true, ..width(8) };
        assert_eq!(&render(num, d), res);
    }
}

#[test]
fn plus() {
    for (num, res) in [
        (42., "+42"),
        (-1.01, "-1.01"),
        (f64::NAN, "+nan"),
        (-f64::INFINITY, "-inf"),
        (f64::INFINITY, "+inf"),
    ] {
        let d = FormatDirectives { force_sign: true, ..FormatDirectives::default() };
        assert_eq!(&render(num, d), res);
    }
}

#[test]
fn plus_pad() {
    for (num, res) in [
        (42., "     +42"),
        (-1.01, "   -1.01"),
        (f64::NAN, "    +nan"),
        (-f64::INFINITY, "    -inf"),
        (f64::INFINITY, "    +inf"),
    ] {
        let d = FormatDirectives { force_sign: true, ..width(8) };
        assert_eq!(&render(num, d), res);
    }
}

#[test]
fn prec() {
    for (num, res) in [
        (42., "42"),
        (-1.012345678901, "-1.01"),
        (-42.8952, "-42.9"),
        (4321., "4.32e+03"),
    ] {
        let d = FormatDirectives { precision: Some(3), ..FormatDirectives::default() };
        assert_eq!(&render(num, d), res);
    }
}

#[test]
fn alt() {
    for (num, res) in [
        (42., "42.0000"),
        (-1.012345678901, "-1.01235"),
        (432100., "432100."),
    ] {
        let d = FormatDirectives { alternate: true, ..FormatDirectives::default() };
        assert_eq!(&render(num, d), res);
    }
}

#[test]
fn in_context() {
    let text = render(42., FormatDirectives::default());
    assert_eq!(&format!("answer={}!", text), "answer=42!");
}

#[test]
fn documented_scenarios() {
    let def = FormatDirectives::default();
    assert_eq!(render(42.0, def), "42");
    assert_eq!(render(1.2345, FormatDirectives { precision: Some(3), ..def }), "1.23");
    assert_eq!(render(42.0, width(4)), "  42");
    assert_eq!(render(42.0, FormatDirectives { left_justify: true, ..width(4) }), "42  ");
    assert_eq!(render(42.0, FormatDirectives { zero_pad: true, ..width(4) }), "0042");
    assert_eq!(render(42.0, FormatDirectives { force_sign: true, ..def }), "+42");
    assert_eq!(render(42.0, FormatDirectives { alternate: true, ..width(4) }), "42.0000");
    assert_eq!(render(4321.0, FormatDirectives { precision: Some(3), ..def }), "4.32e+03");
    assert_eq!(render(432100.0, FormatDirectives { alternate: true, ..def }), "432100.");
}

#[test]
fn binary32_widens() {
    let d = FormatDirectives::default();
    assert_eq!(GPoint(42f32.to_bits()).fmt(&d).unwrap(), "42");
    assert_eq!(GPoint(0.1f32.to_bits()).fmt(&d).unwrap(), "0.1");
    let p = FormatDirectives { precision: Some(10), ..d };
    assert_eq!(GPoint(0.1f32.to_bits()).fmt(&p).unwrap(), "0.1000000015");
    assert_eq!(GPoint(f32::NEG_INFINITY.to_bits()).fmt(&d).unwrap(), "-inf");
    assert_eq!(GPoint(f32::MIN_POSITIVE.to_bits()).fmt(&d).unwrap(), "1.17549e-38");
}

#[test]
fn zero_and_negative_zero() {
    let d = FormatDirectives::default();
    assert_eq!(render(0.0, d), "0");
    assert_eq!(render(-0.0, d), "-0");
    assert_eq!(render(0.0, FormatDirectives { alternate: true, ..d }), "0.00000");
    assert_eq!(render(0.0, FormatDirectives { precision: Some(0), alternate: true, ..d }), "0.");
    assert_eq!(render(-0.0, FormatDirectives { zero_pad: true, ..width(5) }), "-0000");
}

#[test]
fn notation_thresholds() {
    let d = FormatDirectives::default();
    assert_eq!(render(0.0001, d), "0.0001");
    assert_eq!(render(0.00001, d), "1e-05");
    assert_eq!(render(123456.0, d), "123456");
    assert_eq!(render(1234567.0, d), "1.23457e+06");
    assert_eq!(render(1e100, d), "1e+100");
    assert_eq!(render(1e-300, d), "1e-300");
    assert_eq!(render(f64::MAX, d), "1.79769e+308");
    assert_eq!(render(5e-324, d), "4.94066e-324");
}

#[test]
fn rounding_moves_exponent() {
    let d = FormatDirectives { precision: Some(3), ..FormatDirectives::default() };
    assert_eq!(render(9.9996, d), "10");
    assert_eq!(render(999.6, d), "1e+03");
    assert_eq!(render(0.000099996, d), "0.0001");
    let a = FormatDirectives { alternate: true, ..d };
    assert_eq!(render(9.9996, a), "10.0");
}

#[test]
fn ties_round_to_even() {
    let d = FormatDirectives { precision: Some(1), ..FormatDirectives::default() };
    assert_eq!(render(2.5, d), "2");
    assert_eq!(render(3.5, d), "4");
    assert_eq!(render(0.125, FormatDirectives { precision: Some(2), ..d }), "0.12");
    assert_eq!(render(0.375, FormatDirectives { precision: Some(2), ..d }), "0.38");
    assert_eq!(render(2.5000001, d), "3");
}

#[test]
fn precision_zero_is_one() {
    let d = FormatDirectives { precision: Some(0), ..FormatDirectives::default() };
    assert_eq!(render(42.0, d), "4e+01");
    assert_eq!(render(1.5, d), "2");
}

#[test]
fn large_precision() {
    let d = FormatDirectives { precision: Some(1000), ..FormatDirectives::default() };
    assert_eq!(render(0.5, d), "0.5");
    assert_eq!(render(0.1, d), "0.1000000000000000055511151231257827021181583404541015625");
    assert_eq!(render(1e20, d), "100000000000000000000");
    let e = FormatDirectives { precision: Some(17), ..FormatDirectives::default() };
    assert_eq!(render(0.1, e), "0.10000000000000001");
}

#[test]
fn overflow_is_reported() {
    let wide = width(200);
    assert_eq!(GPoint(1.0f64.to_bits()).fmt(&wide), Err(FormatError::Overflow));
    assert_eq!(render(1.0, width(199)).len(), 199);
    let alt = FormatDirectives { alternate: true, precision: Some(300), ..FormatDirectives::default() };
    assert_eq!(GPoint(1.0f64.to_bits()).fmt(&alt), Err(FormatError::Overflow));
    let tiny = FormatDirectives { precision: Some(1000), ..FormatDirectives::default() };
    assert_eq!(GPoint(5e-324f64.to_bits()).fmt(&tiny), Err(FormatError::Overflow));
    assert_eq!(GPoint(f64::NAN.to_bits()).fmt(&width(500)), Err(FormatError::Overflow));
}

#[test]
fn width_pads_to_exact_length() {
    for w in [0usize, 1, 2, 3, 7, 12] {
        let out = render(-3.25, width(w));
        assert_eq!(out.len(), w.max(5));
        assert!(out.ends_with("-3.25"));
    }
}

#[test]
fn left_justify_beats_zero_pad() {
    for num in [42.0, -1.01, 0.0001, f64::INFINITY] {
        let both = FormatDirectives { zero_pad: true, left_justify: true, ..width(9) };
        let left = FormatDirectives { left_justify: true, ..width(9) };
        assert_eq!(render(num, both), render(num, left));
    }
}

#[test]
fn special_values_ignore_precision_and_alternate() {
    let d = FormatDirectives { precision: Some(12), alternate: true, ..FormatDirectives::default() };
    assert_eq!(render(f64::NAN, d), "nan");
    assert_eq!(render(f64::INFINITY, d), "inf");
    assert_eq!(render(f64::NEG_INFINITY, d), "-inf");
    assert_eq!(render(f64::INFINITY, FormatDirectives { force_sign: true, ..d }), "+inf");
}

#[test]
fn trimming_without_alternate() {
    let d = FormatDirectives::default();
    assert_eq!(render(1.5, d), "1.5");
    assert_eq!(render(100.0, d), "100");
    assert_eq!(render(1.25e-7, d), "1.25e-07");
    assert_eq!(render(1e-7, d), "1e-07");
    let a = FormatDirectives { alternate: true, ..d };
    assert_eq!(render(1e-7, a), "1.00000e-07");
    assert_eq!(render(1.5, a), "1.50000");
}

#[test]
fn fixed_notation_reads_back() {
    for (num, p) in [(0.1, 17usize), (123.456, 5), (-0.00123456, 3), (99.96, 3), (0.5, 40)] {
        let d = FormatDirectives { precision: Some(p), ..FormatDirectives::default() };
        let text = render(num, d);
        assert!(!text.contains('e'));
        let back: f64 = text.parse().unwrap();
        assert_eq!(render(back, d), text);
    }
}

#[test]
fn nonnegative_default_has_no_sign() {
    for num in [0.0, 1.0, 42.0, 0.0001, 123456.0, 1e-5, 1e300] {
        let text = render(num, FormatDirectives::default());
        assert!(text.chars().next().unwrap().is_ascii_digit());
        if !text.contains('e') {
            assert!(text.chars().all(|c| c.is_ascii_digit() || c == '.'));
        }
    }
}

#[test]
fn alternate_never_trims() {
    let a = FormatDirectives { alternate: true, precision: Some(4), ..FormatDirectives::default() };
    assert_eq!(render(2.0, a), "2.000");
    assert_eq!(render(1000.0, a), "1000.");
    assert_eq!(render(0.0005, a), "0.0005000");
    let d = FormatDirectives { precision: Some(4), ..FormatDirectives::default() };
    assert_eq!(render(1000.0, d), "1000");
    assert_eq!(render(0.0005, d), "0.0005");
}
