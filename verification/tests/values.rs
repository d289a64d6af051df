use memhack::types::{FoundAddress, ScanValue, ValueType};

fn numeric_values() -> Vec<ScanValue> {
    vec![
        ScanValue::I8(-5),
        ScanValue::I16(-1234),
        ScanValue::I32(-123456789),
        ScanValue::I64(-1234567890123),
        ScanValue::U8(200),
        ScanValue::U16(65000),
        ScanValue::U32(4000000000),
        ScanValue::U64(18000000000000000000),
        ScanValue::F32(1.5f32.to_bits()),
        ScanValue::F64((-2.25f64).to_bits()),
    ]
}

fn same(a: &ScanValue, b: &ScanValue) -> bool {
    format!("{:?}", a) == format!("{:?}", b)
}

#[test]
fn byte_sizes_of_each_kind() {
    let sizes: Vec<usize> = numeric_values().iter().map(|v| v.byte_size()).collect();
    assert_eq!(sizes, vec![1, 2, 4, 8, 1, 2, 4, 8, 4, 8]);
    assert_eq!(ScanValue::StringUtf8("héllo".to_string()).byte_size(), 6);
    assert_eq!(ScanValue::StringUtf16("a😀".to_string()).byte_size(), 6);
    assert_eq!(ScanValue::ByteArray(vec![1, 2, 3]).byte_size(), 3);
}

#[test]
fn to_bytes_is_little_endian() {
    assert_eq!(ScanValue::I32(-2).to_bytes(), (-2i32).to_le_bytes().to_vec());
    assert_eq!(ScanValue::U16(0x1234).to_bytes(), vec![0x34, 0x12]);
    assert_eq!(ScanValue::I64(i64::MIN).to_bytes(), i64::MIN.to_le_bytes().to_vec());
    assert_eq!(ScanValue::F32(1.0f32.to_bits()).to_bytes(), 1.0f32.to_le_bytes().to_vec());
    assert_eq!(ScanValue::F64(0.1f64.to_bits()).to_bytes(), 0.1f64.to_le_bytes().to_vec());
    assert_eq!(ScanValue::StringUtf8("ab".to_string()).to_bytes(), vec![b'a', b'b']);
    let utf16: Vec<u8> = "a😀".encode_utf16().flat_map(|c| c.to_le_bytes()).collect();
    assert_eq!(ScanValue::StringUtf16("a😀".to_string()).to_bytes(), utf16);
    assert_eq!(ScanValue::ByteArray(vec![9, 8]).to_bytes(), vec![9, 8]);
}

#[test]
fn to_bytes_length_is_byte_size() {
    let mut all = numeric_values();
    all.push(ScanValue::StringUtf8("ünïcödé".to_string()));
    all.push(ScanValue::StringUtf16("𝄞 clef".to_string()));
    all.push(ScanValue::ByteArray(vec![0; 7]));
    for v in &all {
        assert_eq!(v.to_bytes().len(), v.byte_size());
    }
}

#[test]
fn written_value_reads_back() {
    for v in numeric_values() {
        let bytes = v.to_bytes();
        let back = v.read_from_buffer(&bytes, 0).unwrap();
        assert!(same(&back, &v));
    }
    let s = ScanValue::StringUtf8("grüße".to_string());
    assert!(same(&s.read_from_buffer(&s.to_bytes(), 0).unwrap(), &s));
    let s = ScanValue::StringUtf16("grüße 😀".to_string());
    assert!(same(&s.read_from_buffer(&s.to_bytes(), 0).unwrap(), &s));
    let b = ScanValue::ByteArray(vec![1, 2, 3, 4]);
    assert!(same(&b.read_from_buffer(&b.to_bytes(), 0).unwrap(), &b));
}

#[test]
fn read_from_buffer_at_offset_and_past_end() {
    let buf = [0xAAu8, 0x78, 0x56, 0x34, 0x12, 0xBB];
    let r = ScanValue::U32(0).read_from_buffer(&buf, 1).unwrap();
    assert!(same(&r, &ScanValue::U32(0x12345678)));
    assert!(ScanValue::U32(0).read_from_buffer(&buf, 3).is_none());
    assert!(ScanValue::U64(0).read_from_buffer(&buf, 0).is_none());
    let r = ScanValue::I16(0).read_from_buffer(&[0xFF, 0xFF], 0).unwrap();
    assert!(same(&r, &ScanValue::I16(-1)));
}

#[test]
fn lossy_decoding_replaces_invalid_text() {
    let s = ScanValue::StringUtf8("xx".to_string());
    let r = s.read_from_buffer(&[0x61, 0xFF], 0).unwrap();
    assert!(same(&r, &ScanValue::StringUtf8("a\u{FFFD}".to_string())));
    let s = ScanValue::StringUtf16("x".to_string());
    let r = s.read_from_buffer(&[0x00, 0xD8], 0).unwrap();
    assert!(same(&r, &ScanValue::StringUtf16("\u{FFFD}".to_string())));
}

#[test]
fn matches_bytes_exact_kinds() {
    let v = ScanValue::I32(1000);
    let mut buf = vec![0u8; 3];
    buf.extend_from_slice(&1000i32.to_le_bytes());
    assert_eq!(v.matches_bytes(&buf, 3), Some(true));
    assert_eq!(v.matches_bytes(&buf, 2), Some(false));
    assert_eq!(v.matches_bytes(&buf, 4), Some(false));
    let s = ScanValue::StringUtf8("hi".to_string());
    assert_eq!(s.matches_bytes(b"ohi", 1), Some(true));
    let e = ScanValue::ByteArray(vec![]);
    assert_eq!(e.matches_bytes(b"abc", 3), Some(true));
}

#[test]
fn matches_bytes_leaves_floats_to_the_caller() {
    assert_eq!(ScanValue::F32(1.0f32.to_bits()).matches_bytes(&[0; 8], 0), None);
    assert_eq!(ScanValue::F64(1.0f64.to_bits()).matches_bytes(&[0; 8], 0), None);
}

#[test]
fn value_type_of_values() {
    assert_eq!(ScanValue::U16(3).value_type(), ValueType::U16);
    assert_eq!(ScanValue::F64(0).value_type(), ValueType::F64);
    assert_eq!(ScanValue::StringUtf8("abc".to_string()).value_type(), ValueType::StringUtf8(3));
    assert_eq!(ScanValue::StringUtf16("abc".to_string()).value_type(), ValueType::StringUtf16(6));
    assert_eq!(ScanValue::ByteArray(vec![1, 2]).value_type(), ValueType::ByteArray(2));
    for v in numeric_values() {
        assert_eq!(v.value_type().byte_size(), v.byte_size());
    }
}

#[test]
fn value_type_sizes_and_defaults() {
    assert_eq!(ValueType::I8.byte_size(), 1);
    assert_eq!(ValueType::U16.byte_size(), 2);
    assert_eq!(ValueType::F32.byte_size(), 4);
    assert_eq!(ValueType::I64.byte_size(), 8);
    assert_eq!(ValueType::StringUtf8(12).byte_size(), 12);
    assert_eq!(ValueType::StringUtf16(10).byte_size(), 10);
    assert_eq!(ValueType::ByteArray(5).byte_size(), 5);
    assert!(same(&ValueType::I32.default_value(), &ScanValue::I32(0)));
    assert!(same(&ValueType::F64.default_value(), &ScanValue::F64(0)));
    assert!(same(&ValueType::StringUtf8(4).default_value(), &ScanValue::StringUtf8(String::new())));
    assert!(same(&ValueType::ByteArray(3).default_value(), &ScanValue::ByteArray(vec![0, 0, 0])));
}

#[test]
fn duplicate_keeps_content() {
    let f = FoundAddress {
        address: 0x1000,
        current_value: ScanValue::StringUtf8("gold".to_string()),
        previous_bytes: vec![1, 2, 3],
    };
    let g = f.duplicate();
    assert_eq!(g.address, 0x1000);
    assert!(same(&g.current_value, &f.current_value));
    assert_eq!(g.previous_bytes, vec![1, 2, 3]);
}

#[test]
fn fits_for_ordinary_values() {
    assert!(ScanValue::StringUtf16("abc".to_string()).fits());
    assert!(ScanValue::U8(1).fits());
}
