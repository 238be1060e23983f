use bvh_anim::Decimal;

fn fixed(text: &str, places: usize) -> String {
    let number = Decimal::parse(text.as_bytes()).unwrap();
    let mut out = Vec::new();
    number.append_fixed(places, &mut out);
    String::from_utf8(out).unwrap()
}

#[test]
fn decimal_pads_with_zeros() {
    assert_eq!(fixed("1.0", 2), "1.00");
    assert_eq!(fixed("2.5", 2), "2.50");
    assert_eq!(fixed("7", 3), "7.000");
    assert_eq!(fixed(".5", 1), "0.5");
    assert_eq!(fixed("5.", 1), "5.0");
    assert_eq!(fixed("007.10", 4), "7.1000");
}

#[test]
fn decimal_rounds_half_to_even() {
    assert_eq!(fixed("-3.333333", 2), "-3.33");
    assert_eq!(fixed("0.125", 2), "0.12");
    assert_eq!(fixed("0.135", 2), "0.14");
    assert_eq!(fixed("0.1250001", 2), "0.13");
    assert_eq!(fixed("0.126", 2), "0.13");
    assert_eq!(fixed("0.124", 2), "0.12");
    assert_eq!(fixed("2.5", 0), "2");
    assert_eq!(fixed("3.5", 0), "4");
    assert_eq!(fixed("0.5", 0), "0");
    assert_eq!(fixed("1.5", 0), "2");
}

#[test]
fn decimal_rounding_carries_into_a_new_digit() {
    assert_eq!(fixed("9.999", 2), "10.00");
    assert_eq!(fixed("99.95", 1), "100.0");
    assert_eq!(fixed("0.999", 0), "1");
    assert_eq!(fixed("-0.996", 2), "-1.00");
}

#[test]
fn decimal_keeps_the_sign_of_zero() {
    assert_eq!(fixed("-0", 2), "-0.00");
    assert_eq!(fixed("-0.001", 2), "-0.00");
    assert_eq!(fixed("+1.5", 1), "1.5");
}

#[test]
fn decimal_matches_the_standard_formatting_of_floats() {
    let samples: [f32; 12] = [
        0.0, 1.0, 2.5, -3.333333, 0.1, 0.125, 0.375, 1234.5678, -0.0001, 16777216.0, 1e-7, 0.045,
    ];
    for sample in samples.iter() {
        let exact = format!("{:.60}", sample);
        for places in 0..12usize {
            assert_eq!(fixed(&exact, places), format!("{:.*}", places, sample));
        }
    }
}

#[test]
fn decimal_rejects_what_is_no_literal() {
    for text in ["", "-", "+", ".", "-.", "1e5", "1.2.3", "abc", "1 ", " 1", "--1", "1-", "0x10", "NaN", "inf"] {
        assert!(Decimal::parse(text.as_bytes()).is_none(), "{:?}", text);
    }
}

#[test]
fn decimal_from_units_and_back() {
    let number = Decimal::from_units(false, 33_333_333, 9);
    let mut out = Vec::new();
    number.append_fixed(7, &mut out);
    assert_eq!(out, b"0.0333333");
    assert_eq!(number.truncated_units(9), Some(33_333_333));
    assert_eq!(number.truncated_units(3), Some(33));
    assert_eq!(number.truncated_units(10), Some(333_333_330));
    assert!(!number.is_negative());
    let big = Decimal::parse(b"18446744073709551615").unwrap();
    assert_eq!(big.truncated_units(0), Some(u64::MAX));
    assert_eq!(big.truncated_units(1), None);
    let bigger = Decimal::parse(b"18446744073709551616").unwrap();
    assert_eq!(bigger.truncated_units(0), None);
    assert_eq!(Decimal::zero().truncated_units(1000), Some(0));
}
