use simplebyteunit::arithmetic::{divisor, multiplier};
use simplebyteunit::simplebyteunit::{ByteUnit, Error, Standard, ToByteUnit, B, IEC, K, MAX, SI};
use simplebyteunit::suffix::{parse, suffix, Literal};

#[test]
fn raw_count_is_kept() {
    for v in [0i64, 1, -1, 5000, i64::MAX, i64::MIN] {
        assert_eq!(ByteUnit::new(v, Standard::IEC).val(), v);
        assert_eq!(v.to_byteunit(SI).val(), v);
    }
}

#[test]
fn narrow_counts_widen() {
    assert_eq!(4000000000u32.to_byteunit(SI).val(), 4000000000i64);
    assert_eq!((-7i32).to_byteunit(IEC).val(), -7i64);
    assert_eq!(4000000000u32.to_byteunit(SI).max(), "4.00 GB");
}

#[test]
fn display_round_trips_through_text() {
    for v in [0i64, 1, -1, 999, 5000, -5000000, 123456789, 5000000000000000000, -4882812] {
        for unit in [SI, IEC] {
            let shown = v.to_byteunit(unit).max();
            let back = ByteUnit::from_text(&shown).unwrap();
            assert_eq!(back.max(), shown);
        }
    }
}

#[test]
fn negative_counts_keep_power_and_flip_sign() {
    assert_eq!(divisor(-5000000, 1024, MAX), (2, -477));
    assert_eq!(divisor(5000000, 1024, MAX), (2, 477));
    assert_eq!(divisor(-5000, 1000, MAX), (1, -500));
    assert_eq!(divisor(0, 1024, MAX), (0, 0));
}

#[test]
fn power_zero_shows_whole_bytes() {
    assert_eq!(ByteUnit::IEC(123456789).pow(B), "123456789 B");
    assert_eq!(ByteUnit::SI(-42).pow(B), "-42 B");
    assert_eq!(ByteUnit::SI(0).pow(B), "0 B");
}

#[test]
fn suffix_precedence() {
    let a = parse("5mib").unwrap();
    assert!(a.iec);
    assert_eq!(a.power, 2);
    assert_eq!(a.multiplier, 1024);
    let b = parse("5mb").unwrap();
    assert!(!b.iec);
    assert_eq!(b.power, 2);
    assert_eq!(b.multiplier, 1000);
    let c = parse("5b").unwrap();
    assert!(!c.iec);
    assert_eq!(c.power, 0);
    assert_eq!(c.multiplier, 1000);
}

#[test]
fn scenario_values() {
    assert_eq!(ByteUnit::SI(5000).max(), "5.00 kB");
    assert_eq!(ByteUnit::IEC(-5000000).max(), "-4.77 MiB");
    assert_eq!(ByteUnit::SI(5000000000000000000).pow(0), "5000000000000000000 B");
    assert_eq!(ByteUnit::from_text("500 KiB").unwrap().max(), "500.00 KiB");
    let sum = ByteUnit::SI(5000) + ByteUnit::SI(5000000);
    assert_eq!(sum.val(), 5005000);
    assert!(matches!(sum, ByteUnit::SI(_)));
    assert_eq!(sum.max(), "5.00 MB");
}

#[test]
fn unknown_unit_is_rejected() {
    match parse("abc") {
        Err(Error::InvalidUnit(t)) => assert_eq!(t, "abc"),
        _ => panic!("expected an invalid unit"),
    }
    match ByteUnit::from_text("5 kB ") {
        Err(Error::InvalidUnit(t)) => assert_eq!(t, "5 kB "),
        _ => panic!("expected an invalid unit"),
    }
}

#[test]
fn bad_number_is_rejected() {
    match parse("5xb") {
        Err(Error::ErroneousInput(t)) => assert_eq!(t, "5xb"),
        _ => panic!("expected an erroneous input"),
    }
    for s in ["kb", ". kb", "1e3 b", "1.2.3 MB", "--1 B", "1 2 KiB"] {
        assert!(matches!(ByteUnit::from_text(s), Err(Error::ErroneousInput(_))), "{}", s);
    }
}

#[test]
fn number_forms() {
    assert_eq!(ByteUnit::from_text(".5 kb").unwrap().val(), 500);
    assert_eq!(ByteUnit::from_text("5. kb").unwrap().val(), 5000);
    assert_eq!(ByteUnit::from_text("+2 MB").unwrap().val(), 2000000);
    assert_eq!(ByteUnit::from_text("  1.5 KIB").unwrap().val(), 1536);
    assert_eq!(ByteUnit::from_text("1.9999 b").unwrap().val(), 1);
    assert_eq!(ByteUnit::from_text("-1.9999 b").unwrap().val(), -1);
    assert_eq!(ByteUnit::from_text("0.0000000000000000000000001 EB").unwrap().val(), 0);
    assert_eq!(ByteUnit::from_text("1eb").unwrap().val(), 1000000000000000000);
    assert!(matches!(ByteUnit::from_text("1 GiB").unwrap(), ByteUnit::IEC(1073741824)));
    assert!(matches!(ByteUnit::from_text("1 gb").unwrap(), ByteUnit::SI(1000000000)));
}

#[test]
fn out_of_range_text_saturates() {
    assert_eq!(ByteUnit::from_text("100 EiB").unwrap().val(), i64::MAX);
    assert_eq!(ByteUnit::from_text("-8 EiB").unwrap().val(), i64::MIN);
    assert_eq!(ByteUnit::from_text("-9 EiB").unwrap().val(), i64::MIN);
    assert_eq!(ByteUnit::from_text("99999999999999999999999 B").unwrap().val(), i64::MAX);
}

#[test]
fn extreme_counts_display() {
    assert_eq!(ByteUnit::SI(i64::MIN).max(), "-9.22 EB");
    assert_eq!(ByteUnit::IEC(i64::MIN).max(), "-8.00 EiB");
    assert_eq!(ByteUnit::IEC(i64::MAX).pow(B), "9223372036854775807 B");
}

#[test]
fn ties_round_to_even() {
    assert_eq!(ByteUnit::IEC(3200).k(), "3.12 KiB");
    assert_eq!(ByteUnit::IEC(3210).k(), "3.13 KiB");
    assert_eq!(ByteUnit::SI(1015).k(), "1.02 kB");
}

#[test]
fn capped_power_gives_large_scaled_value() {
    assert_eq!(ByteUnit::SI(5000000000000000000).k(), "5000000000000000.00 kB");
    assert_eq!(ByteUnit::SI(5000000000).m(), "5000.00 MB");
    assert_eq!(ByteUnit::SI(5000000000000).g(), "5000.00 GB");
    assert_eq!(ByteUnit::SI(5000000000000000).t(), "5000.00 TB");
    assert_eq!(ByteUnit::SI(5000000000000000000).p(), "5000.00 PB");
    assert_eq!(ByteUnit::SI(5000000000000000000).e(), "5.00 EB");
    assert_eq!(ByteUnit::SI(5000).pow(-1), "5000 B");
    assert_eq!(ByteUnit::SI(5000).pow(100), "5.00 kB");
}

#[test]
fn tag_is_presentation_only() {
    assert!(ByteUnit::IEC(5000) == ByteUnit::SI(5000));
    assert_ne!(ByteUnit::IEC(5000).max(), ByteUnit::SI(5000).max());
    assert!(ByteUnit::IEC(1) < ByteUnit::SI(2));
    assert!(matches!(ByteUnit::IEC(1) + ByteUnit::SI(1), ByteUnit::IEC(2)));
    assert!(matches!(ByteUnit::SI(7) - ByteUnit::IEC(2), ByteUnit::SI(5)));
    assert!(matches!(ByteUnit::IEC(3) * ByteUnit::SI(-2), ByteUnit::IEC(-6)));
    assert!(matches!(ByteUnit::SI(-7) / ByteUnit::IEC(2), ByteUnit::SI(-3)));
}

#[test]
fn suffix_table() {
    assert_eq!(suffix(&ByteUnit::IEC(0), 3), "GiB");
    assert_eq!(suffix(&ByteUnit::SI(0), 1), "kB");
    assert_eq!(suffix(&ByteUnit::SI(0), 6), "EB");
    assert_eq!(suffix(&ByteUnit::IEC(0), 0), "B");
    assert_eq!(suffix(&ByteUnit::SI(0), 7), "B");
    assert_eq!(suffix(&ByteUnit::IEC(0), -1), "B");
}

#[test]
fn literal_scales_up() {
    let lit = Literal {
        negative: true,
        whole: vec![2],
        fraction: vec![5],
        multiplier: 1000,
        power: 3,
        iec: false,
    };
    assert_eq!(multiplier(&lit), (false, -2500000000));
    let lit = Literal {
        negative: false,
        whole: vec![1],
        fraction: vec![],
        multiplier: 1024,
        power: K,
        iec: true,
    };
    assert_eq!(multiplier(&lit), (true, 1024));
}

#[test]
fn round_trip_breaks_where_rounding_reaches_next_power() {
    let shown = ByteUnit::SI(999995).max();
    assert_eq!(shown, "1000.00 kB");
    assert_eq!(ByteUnit::from_text(&shown).unwrap().max(), "1.00 MB");
    let shown = ByteUnit::IEC(1000).max();
    assert_eq!(shown, "1000 B");
    assert_eq!(ByteUnit::from_text(&shown).unwrap().max(), "1.00 kB");
}

#[test]
fn saturated_count_still_round_trips() {
    let shown = ByteUnit::IEC(i64::MAX).max();
    assert_eq!(shown, "8.00 EiB");
    let back = ByteUnit::from_text(&shown).unwrap();
    assert_eq!(back.val(), i64::MAX);
    assert_eq!(back.max(), shown);
}

#[test]
fn from_str_matches_from_text() {
    let a: ByteUnit = "500 KiB".parse().unwrap();
    assert!(matches!(a, ByteUnit::IEC(512000)));
    let b: ByteUnit = "-2.50 GB".parse().unwrap();
    assert!(matches!(b, ByteUnit::SI(-2500000000)));
    match "abc".parse::<ByteUnit>() {
        Err(Error::InvalidUnit(t)) => assert_eq!(t, "abc"),
        _ => panic!("expected an invalid unit"),
    }
    match "5x b".parse::<ByteUnit>() {
        Err(Error::ErroneousInput(t)) => assert_eq!(t, "5x b"),
        _ => panic!("expected an erroneous input"),
    }
}
