//! Data type codes, sizes, and property value conversions.

use tdms_rs::{DataType, PropertyValue, TdmsError};

const ALL: [(DataType, u32, usize); 13] = [
    (DataType::I8, 1, 1),
    (DataType::I16, 2, 2),
    (DataType::I32, 3, 4),
    (DataType::I64, 4, 8),
    (DataType::U8, 5, 1),
    (DataType::U16, 6, 2),
    (DataType::U32, 7, 4),
    (DataType::U64, 8, 8),
    (DataType::Float, 9, 4),
    (DataType::Double, 10, 8),
    (DataType::String, 32, 0),
    (DataType::Boolean, 33, 1),
    (DataType::TimeStamp, 68, 16),
];

#[test]
fn data_type_codes_and_sizes() {
    for (t, code, size) in ALL {
        assert_eq!(t.to_u32(), code);
        assert_eq!(t.itemsize(), size);
        assert_eq!(DataType::from_u32(code).unwrap(), t);
    }
}

#[test]
fn data_type_code_roundtrip_law() {
    for (t, _, _) in ALL {
        assert_eq!(DataType::from_u32(t.to_u32()).unwrap(), t);
    }
}

#[test]
fn data_type_void_code_is_refused() {
    match DataType::from_u32(0) {
        Err(TdmsError::NotImplemented(m)) => assert_eq!(m, "Void DataType not supported in public API"),
        other => panic!("unexpected {:?}", other),
    }
}

#[test]
fn data_type_unknown_code_is_refused() {
    match DataType::from_u32(99) {
        Err(TdmsError::NotImplemented(m)) => assert_eq!(m, "DataType 99"),
        other => panic!("unexpected {:?}", other),
    }
    match DataType::from_u32(4294967295) {
        Err(TdmsError::NotImplemented(m)) => assert_eq!(m, "DataType 4294967295"),
        other => panic!("unexpected {:?}", other),
    }
}

#[test]
fn property_value_conversions() {
    assert_eq!(PropertyValue::from((5i64, 7u64)), PropertyValue::TimeStamp((5, 7)));
    assert_eq!(PropertyValue::from("abc".to_string()), PropertyValue::String("abc".to_string()));
    assert_eq!(PropertyValue::from(-3i32), PropertyValue::I32(-3));
    assert_eq!(PropertyValue::from(true), PropertyValue::Boolean(true));
    let v = PropertyValue::Double(2.5f64.to_bits());
    assert_eq!(v.duplicate(), v);
}

#[test]
fn property_value_from_text() {
    assert_eq!(PropertyValue::from("abc"), PropertyValue::String("abc".to_string()));
    let s = "xyz".to_string();
    assert_eq!(PropertyValue::from(&s), PropertyValue::String("xyz".to_string()));
}

#[test]
fn property_value_text_of_integers() {
    assert_eq!(PropertyValue::I8(-128).text().unwrap(), "-128");
    assert_eq!(PropertyValue::I16(0).text().unwrap(), "0");
    assert_eq!(PropertyValue::I32(1_000_000).text().unwrap(), "1000000");
    assert_eq!(PropertyValue::I64(i64::MIN).text().unwrap(), i64::MIN.to_string());
    assert_eq!(PropertyValue::I64(i64::MAX).text().unwrap(), "9223372036854775807");
    assert_eq!(PropertyValue::U8(255).text().unwrap(), "255");
    assert_eq!(PropertyValue::U16(10).text().unwrap(), "10");
    assert_eq!(PropertyValue::U32(4_000_000_000).text().unwrap(), "4000000000");
    assert_eq!(PropertyValue::U64(u64::MAX).text().unwrap(), "18446744073709551615");
}

#[test]
fn property_value_text_of_others() {
    assert_eq!(PropertyValue::String("a \"b\"".to_string()).text().unwrap(), "\"a \"b\"\"");
    assert_eq!(PropertyValue::Boolean(true).text().unwrap(), "true");
    assert_eq!(PropertyValue::Boolean(false).text().unwrap(), "false");
    assert_eq!(PropertyValue::TimeStamp((-5, 42)).text().unwrap(), "-5.0000000000000000042");
    assert_eq!(PropertyValue::TimeStamp((0, 0)).text().unwrap(), "0.0000000000000000000");
    assert_eq!(
        PropertyValue::TimeStamp((1_700_000_000, u64::MAX)).text().unwrap(),
        format!("{}.{:019}", 1_700_000_000i64, u64::MAX)
    );
    assert_eq!(
        PropertyValue::TimeStamp((3, 1_234_567_890_123_456_789)).text().unwrap(),
        "3.1234567890123456789"
    );
    assert!(PropertyValue::Float(1.5f32.to_bits()).text().is_none());
    assert!(PropertyValue::Double(2.5f64.to_bits()).text().is_none());
}

