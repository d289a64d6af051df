use memhack::numeric::{
    bytes_to_f64, compare_bytes_exact, compare_bytes_numeric, round_i64_to_f64, round_u64_to_f64, Comparison,
    NumericKey,
};
use memhack::types::ScanValue;

#[test]
fn rounding_matches_f64_conversion() {
    let samples: Vec<u64> = vec![
        0,
        1,
        (1 << 53) - 1,
        1 << 53,
        (1 << 53) + 1,
        (1 << 53) + 2,
        (1 << 53) + 3,
        (1 << 54) + 2,
        (1 << 54) + 6,
        u64::MAX,
        u64::MAX - 1024,
        u64::MAX - 1025,
        12345678901234567890,
        (1 << 63) + 1024,
        (1 << 63) + 1025,
    ];
    for x in samples {
        assert_eq!(round_u64_to_f64(x), (x as f64) as u128, "x = {x}");
    }
    let signed: Vec<i64> = vec![0, -1, i64::MIN, i64::MAX, -(1 << 53) - 1, -(1 << 53) - 3, 9007199254740993];
    for x in signed {
        assert_eq!(round_i64_to_f64(x), (x as f64) as i128, "x = {x}");
    }
}

#[test]
fn rounding_never_reverses_order() {
    let mut xs: Vec<u64> = vec![];
    for k in 50..64u32 {
        let b = 1u64 << k;
        xs.extend_from_slice(&[b - 3, b - 2, b - 1, b, b + 1, b + 2, b + 3]);
    }
    xs.sort();
    for w in xs.windows(2) {
        assert!(round_u64_to_f64(w[0]) <= round_u64_to_f64(w[1]));
    }
}

#[test]
fn large_u64_values_compare_as_f64_do() {
    let hint = ScanValue::U64(0);
    let pairs: Vec<(u64, u64)> = vec![
        ((1 << 53) + 1, 1 << 53),
        ((1 << 53) + 2, 1 << 53),
        (u64::MAX, u64::MAX - 1),
        (5, 4),
        (4, 5),
    ];
    for (a, b) in pairs {
        let r = compare_bytes_numeric(&a.to_le_bytes(), &b.to_le_bytes(), &hint, Comparison::Greater);
        assert_eq!(r, (a as f64) > (b as f64), "{a} > {b}");
    }
    assert_eq!(bytes_to_f64(&u64::MAX.to_le_bytes(), &hint), Some(NumericKey::Number(1i128 << 64)));
}

#[test]
fn large_u64_values_compare_exactly() {
    let hint = ScanValue::U64(0);
    let pairs: Vec<(u64, u64)> = vec![
        ((1 << 53) + 1, 1 << 53),
        ((1 << 53) + 2, 1 << 53),
        (u64::MAX, u64::MAX - 1),
        (5, 4),
        (4, 5),
        (1 << 53, (1 << 53) + 1),
    ];
    for (a, b) in pairs {
        let r = compare_bytes_exact(&a.to_le_bytes(), &b.to_le_bytes(), &hint, Comparison::Greater);
        assert_eq!(r, a > b, "{a} > {b}");
        let l = compare_bytes_exact(&a.to_le_bytes(), &b.to_le_bytes(), &hint, Comparison::Less);
        assert_eq!(l, a < b, "{a} < {b}");
    }
}

#[test]
fn large_i64_values_compare_exactly() {
    let hint = ScanValue::I64(0);
    let vals: Vec<i64> = vec![i64::MIN, i64::MIN + 1, -(1 << 53) - 1, -(1 << 53), 0, (1 << 53), (1 << 53) + 1, i64::MAX];
    for &a in &vals {
        for &b in &vals {
            let g = compare_bytes_exact(&a.to_le_bytes(), &b.to_le_bytes(), &hint, Comparison::Greater);
            assert_eq!(g, a > b, "{a} > {b}");
            let f = compare_bytes_numeric(&a.to_le_bytes(), &b.to_le_bytes(), &hint, Comparison::Greater);
            assert_eq!(f, (a as f64) > (b as f64), "{a} > {b} as f64");
        }
    }
    assert_eq!(bytes_to_f64(&i64::MIN.to_le_bytes(), &hint), Some(NumericKey::Number(i64::MIN as i128)));
}

#[test]
fn signed_values_compare_by_sign() {
    let hint = ScanValue::I32(0);
    assert!(compare_bytes_numeric(&5i32.to_le_bytes(), &(-7i32).to_le_bytes(), &hint, Comparison::Greater));
    assert!(compare_bytes_numeric(&(-7i32).to_le_bytes(), &5i32.to_le_bytes(), &hint, Comparison::Less));
    assert!(!compare_bytes_numeric(&5i32.to_le_bytes(), &5i32.to_le_bytes(), &hint, Comparison::Greater));
    let hint = ScanValue::I8(0);
    assert!(compare_bytes_numeric(&[0x7F], &[0x80], &hint, Comparison::Greater));
}

#[test]
fn floats_compare_by_value() {
    let hint = ScanValue::F32(0);
    let vals: Vec<f32> = vec![-f32::INFINITY, -3.5, -0.0, 0.0, 1e-30, 2.0, 3.5, f32::INFINITY, f32::NAN];
    for &a in &vals {
        for &b in &vals {
            let g = compare_bytes_numeric(&a.to_le_bytes(), &b.to_le_bytes(), &hint, Comparison::Greater);
            let l = compare_bytes_numeric(&a.to_le_bytes(), &b.to_le_bytes(), &hint, Comparison::Less);
            assert_eq!(g, (a as f64) > (b as f64), "{a} > {b}");
            assert_eq!(l, (a as f64) < (b as f64), "{a} < {b}");
        }
    }
    let hint = ScanValue::F64(0);
    let vals: Vec<f64> = vec![-1e300, -0.0, 0.0, 0.5, 1e300, f64::NAN];
    for &a in &vals {
        for &b in &vals {
            let g = compare_bytes_numeric(&a.to_le_bytes(), &b.to_le_bytes(), &hint, Comparison::Greater);
            assert_eq!(g, a > b, "{a} > {b}");
        }
    }
}

#[test]
fn non_numeric_and_wrong_length_never_compare() {
    let s = ScanValue::StringUtf8("x".to_string());
    assert!(!compare_bytes_numeric(&[2], &[1], &s, Comparison::Greater));
    assert_eq!(bytes_to_f64(&[1], &s), None);
    let hint = ScanValue::U32(0);
    assert!(!compare_bytes_numeric(&[2, 0], &[1, 0, 0, 0], &hint, Comparison::Greater));
    assert_eq!(bytes_to_f64(&[1, 0, 0, 0], &hint), Some(NumericKey::Number(1)));
    assert_eq!(bytes_to_f64(&f32::NAN.to_le_bytes(), &ScanValue::F32(0)), Some(NumericKey::NotANumber));
}

#[test]
fn greater_is_less_flipped_and_never_both() {
    let hint = ScanValue::I16(0);
    let vals: Vec<i16> = vec![-300, -1, 0, 1, 300];
    for &a in &vals {
        for &b in &vals {
            let g = compare_bytes_numeric(&a.to_le_bytes(), &b.to_le_bytes(), &hint, Comparison::Greater);
            let l = compare_bytes_numeric(&b.to_le_bytes(), &a.to_le_bytes(), &hint, Comparison::Less);
            assert_eq!(g, l);
            let l2 = compare_bytes_numeric(&a.to_le_bytes(), &b.to_le_bytes(), &hint, Comparison::Less);
            assert!(!(g && l2));
        }
    }
}
