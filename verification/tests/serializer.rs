use maxminddb_writer::serializer::{Error, Serializer, TypeId, Value};

fn control(type_id: TypeId, len: usize) -> Vec<u8> {
    let mut serializer = Serializer::new(Vec::new());
    serializer.write_control(type_id, len).unwrap();
    serializer.into_inner()
}

#[test]
fn test_write_control() {
    assert_eq!(control(TypeId::Text, 2), vec![0b01000010]);
    assert_eq!(control(TypeId::Text, 28), vec![0b01011100]);
    assert_eq!(control(TypeId::Text, 80), vec![0b01011101, 0b00110011]);
    assert_eq!(
        control(TypeId::Text, 13392),
        vec![0b01011110, 0b00110011, 0b00110011]
    );
    assert_eq!(
        control(TypeId::Text, 3421264),
        vec![0b01011111, 0b00110011, 0b00110011, 0b00110011]
    );
    assert_eq!(
        control(TypeId::Text, 16843036),
        vec![0b01011111, 0xFF, 0xFF, 0xFF]
    );

    assert_eq!(control(TypeId::Uint32, 1), vec![0b11000001]);
    assert_eq!(control(TypeId::Uint128, 3), vec![0b00000011, 0b00000011]);
}

#[test]
fn test_control_length_out_of_range() {
    let mut serializer = Serializer::new(Vec::new());
    let r = serializer.write_control(TypeId::Text, 16_843_037);
    assert_eq!(r, Err(Error::LengthOutOfRange));
    assert_eq!(serializer.into_inner(), Vec::<u8>::new());
}

#[test]
fn test_uint_payloads_strip_leading_zeros() {
    let mut s = Serializer::new(Vec::new());
    s.serialize_u32(0).unwrap();
    s.serialize_u32(1).unwrap();
    s.serialize_u32(0x0102).unwrap();
    let bytes = s.into_inner();
    // zero: control only; one: control plus one byte; 0x0102: two bytes
    assert_eq!(bytes, vec![0b1100_0000, 0b1100_0001, 0x01, 0b1100_0010, 0x01, 0x02]);
}

#[test]
fn test_int32_is_four_bytes() {
    let mut s = Serializer::new(Vec::new());
    s.serialize_i32(-1).unwrap();
    assert_eq!(s.into_inner(), vec![0b0000_0100, 0x01, 0xFF, 0xFF, 0xFF, 0xFF]);
}

#[test]
fn test_integer_out_of_range() {
    let mut s = Serializer::new(Vec::new());
    assert_eq!(s.serialize_i64(i64::MAX), Err(Error::IntegerOutOfRange));
    assert_eq!(
        s.serialize_i128((i32::MIN as i128) - 1),
        Err(Error::IntegerOutOfRange)
    );
    assert!(s.serialize_i64(i32::MIN as i64).is_ok());
    assert!(s.serialize_i128(i32::MAX as i128).is_ok());
}

#[test]
fn test_bool_encoding() {
    let mut s = Serializer::new(Vec::new());
    s.serialize_bool(false).unwrap();
    s.serialize_bool(true).unwrap();
    s.serialize_none().unwrap();
    s.serialize_unit().unwrap();
    assert_eq!(
        s.into_inner(),
        vec![0b0000_0000, 0b0000_0111, 0b0000_0001, 0b0000_0111, 0b0000_0000, 0b0000_0111, 0b0000_0001, 0b0000_0111]
    );
}

#[test]
fn test_string_encoding() {
    let mut s = Serializer::new(Vec::new());
    s.serialize_str("foo").unwrap();
    assert_eq!(s.into_inner(), vec![0b0100_0011, b'f', b'o', b'o']);
}

#[test]
fn test_string_length_counts_bytes_not_chars() {
    let mut s = Serializer::new(Vec::new());
    // two characters, four UTF-8 bytes
    s.serialize_str("ąć").unwrap();
    let bytes = s.into_inner();
    assert_eq!(bytes[0], 0b0100_0100);
    assert_eq!(bytes.len(), 5);
}

#[test]
fn test_value_array_and_map() {
    let mut s = Serializer::new(Vec::new());
    let v = Value::Array(vec![Value::Uint16(1), Value::Uint16(2)]);
    s.serialize_value(&v).unwrap();
    // array control (code 11 -> extended), two elements
    assert_eq!(
        s.into_inner(),
        vec![0b0000_0010, 4, 0b1010_0001, 1, 0b1010_0001, 2]
    );

    let mut s = Serializer::new(Vec::new());
    let m = Value::Mapping(vec![(
        Value::Text("a".to_string()),
        Value::Uint16(7),
    )]);
    s.serialize_value(&m).unwrap();
    assert_eq!(
        s.into_inner(),
        vec![0b1110_0001, 0b0100_0001, b'a', 0b1010_0001, 7]
    );
}

#[test]
fn test_value_too_long_fails() {
    let mut s = Serializer::new(Vec::new());
    let big = Value::Bytes(vec![0u8; 16_843_037]);
    assert_eq!(s.serialize_value(&big), Err(Error::LengthOutOfRange));
}
