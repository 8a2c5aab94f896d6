use std::collections::HashMap;

use maxminddb_writer::metadata::RecordSize;
use maxminddb_writer::paths::IpAddrWithMask;
use maxminddb_writer::serializer::Value;
use maxminddb_writer::Database;

fn seed_simple_db() -> Database {
    let mut db = Database::default();
    // the reader used for validation insists on format version 2
    db.metadata.binary_format_major_version = 2;
    let data_42 = db.insert_value(&Value::Uint32(42)).unwrap();
    let data_foo = db.insert_value(&Value::Text("foo".to_string())).unwrap();
    db.insert_node(IpAddrWithMask::new(vec![0, 0, 0, 0], 16), data_42);
    db.insert_node(IpAddrWithMask::new(vec![1, 0, 0, 0], 16), data_foo);

    db
}

fn lookup<T: serde::de::DeserializeOwned>(raw_db: &[u8], octets: [u8; 4]) -> T {
    let reader = maxminddb::Reader::from_source(raw_db).unwrap();
    let addr = format!("{}.{}.{}.{}", octets[0], octets[1], octets[2], octets[3]);
    let result = reader.lookup(addr.parse().unwrap()).unwrap();
    result.decode::<T>().unwrap().unwrap()
}

#[test]
fn test_simple() {
    let db = seed_simple_db();
    let raw_db = db.to_vec().unwrap();

    let expected_data_42: u32 = lookup(&raw_db, [0, 0, 0, 0]);
    let expected_data_foo: String = lookup(&raw_db, [1, 0, 0, 0]);

    assert_eq!(expected_data_42, 42);
    assert_eq!(expected_data_foo, "foo");
}

#[test]
fn test_small_record_write() {
    let mut db = seed_simple_db();

    // Force small record size to test the small node writing
    db.metadata.record_size = RecordSize::Small;
    let raw_db = db.to_vec().unwrap();

    let expected_data: u32 = lookup(&raw_db, [0, 0, 0, 0]);

    assert_eq!(expected_data, 42);
    assert!(matches!(db.metadata.record_size, RecordSize::Small));
}

#[test]
fn test_medium_record_write() {
    let mut db = seed_simple_db();

    // Force medium record size to test the medium node writing
    db.metadata.record_size = RecordSize::Medium;
    let raw_db = db.to_vec().unwrap();

    let expected_data: u32 = lookup(&raw_db, [0, 0, 0, 0]);

    assert_eq!(expected_data, 42);
    assert!(matches!(db.metadata.record_size, RecordSize::Medium));
}

#[test]
fn test_large_record_write() {
    let mut db = seed_simple_db();

    // Force large record size to test the large node writing
    db.metadata.record_size = RecordSize::Large;
    let raw_db = db.to_vec().unwrap();

    let expected_data: u32 = lookup(&raw_db, [0, 0, 0, 0]);

    assert_eq!(expected_data, 42);
    assert!(matches!(db.metadata.record_size, RecordSize::Large));
}

fn create_minimal_db(value: &Value) -> Vec<u8> {
    let mut db = Database::default();
    db.metadata.binary_format_major_version = 2;
    let data = db.insert_value(value).unwrap();
    db.insert_node(vec![false], data);
    db.insert_node(vec![true], data);
    db.to_vec().unwrap()
}

fn test_pass_through_maxminddb<T>(value: Value, expected: T)
where
    T: serde::de::DeserializeOwned + PartialEq + std::fmt::Debug,
{
    let db = create_minimal_db(&value);
    let deserialized_value: T = lookup(db.as_slice(), [0, 0, 0, 0]);
    assert_eq!(expected, deserialized_value);
}

#[test]
fn test() {
    test_pass_through_maxminddb(Value::Boolean(false), false);
    test_pass_through_maxminddb(Value::Boolean(true), true);

    test_pass_through_maxminddb(Value::Uint16(0), 0u16);
    test_pass_through_maxminddb(Value::Uint32(0), 0u32);
    test_pass_through_maxminddb(Value::Uint64(0), 0u64);

    test_pass_through_maxminddb(Value::Uint16(42), 42u16);
    test_pass_through_maxminddb(Value::Uint32(42), 42u32);
    test_pass_through_maxminddb(Value::Uint64(42), 42u64);

    test_pass_through_maxminddb(Value::Uint16(u16::MAX), u16::MAX);
    test_pass_through_maxminddb(Value::Uint32(u32::MAX), u32::MAX);
    test_pass_through_maxminddb(Value::Uint64(u64::MAX), u64::MAX);
    test_pass_through_maxminddb(Value::Uint128(u128::MAX), u128::MAX);

    test_pass_through_maxminddb(Value::Int32(0), 0i32);
    test_pass_through_maxminddb(Value::Int32(-1), -1i32);
    test_pass_through_maxminddb(Value::Int32(i32::MAX), i32::MAX);
    test_pass_through_maxminddb(Value::Int32(i32::MIN), i32::MIN);

    test_pass_through_maxminddb(Value::Int32(-42), -42i64);

    test_pass_through_maxminddb(Value::Text("".to_string()), "".to_string());
    test_pass_through_maxminddb(Value::Text("test".to_string()), "test".to_string());
    test_pass_through_maxminddb(
        Value::Text("zażółć gęślą jaźń".to_string()),
        "zażółć gęślą jaźń".to_string(),
    );

    test_pass_through_maxminddb(
        Value::Array(vec![Value::Int32(1), Value::Int32(2), Value::Int32(3)]),
        [1, 2, 3],
    );
    test_pass_through_maxminddb(
        Value::Array(vec![Value::Int32(1), Value::Int32(2), Value::Int32(3)]),
        vec![1, 2, 3],
    );

    let mut map = HashMap::new();
    map.insert("test".to_string(), 42);
    map.insert("test2".to_string(), 42);
    test_pass_through_maxminddb(
        Value::Mapping(vec![
            (Value::Text("test".to_string()), Value::Int32(42)),
            (Value::Text("test2".to_string()), Value::Int32(42)),
        ]),
        map,
    );

    // a nested record: strings, integers, and an array
    let nested = Value::Mapping(vec![
        (Value::Text("a".to_string()), Value::Uint32(42)),
        (Value::Text("b".to_string()), Value::Text("test".to_string())),
        (
            Value::Text("c".to_string()),
            Value::Array(vec![Value::Uint64(1), Value::Uint64(2), Value::Uint64(3)]),
        ),
    ]);
    let db = create_minimal_db(&nested);
    let decoded: serde_json::Value = lookup(db.as_slice(), [0, 0, 0, 0]);
    assert_eq!(decoded.get("a").unwrap().as_u64().unwrap(), 42);
    assert_eq!(decoded.get("b").unwrap().as_str().unwrap(), "test");
    assert_eq!(
        decoded.get("c").unwrap().as_array().unwrap().len(),
        3
    );
    assert_eq!(
        decoded.get("c").unwrap().as_array().unwrap()[2]
            .as_u64()
            .unwrap(),
        3
    );
}

#[test]
fn test_metadata_fields_round_trip() {
    let mut db = seed_simple_db();
    db.metadata.database_type = "ip2country".to_string();
    db.metadata.languages = vec!["en".to_string(), "pl".to_string()];
    db.metadata.binary_format_major_version = 2;
    db.metadata.binary_format_minor_version = 0;
    db.metadata.build_epoch = 1_700_000_000;
    db.metadata.description = vec![("en".to_string(), "a test database".to_string())];

    let raw_db = db.to_vec().unwrap();
    let reader = maxminddb::Reader::from_source(raw_db.as_slice()).unwrap();
    assert_eq!(reader.metadata().database_type, "ip2country");
    assert_eq!(reader.metadata().languages, vec!["en", "pl"]);
    assert_eq!(reader.metadata().binary_format_major_version, 2);
    assert_eq!(reader.metadata().build_epoch, 1_700_000_000);
    assert_eq!(reader.metadata().record_size, 24);
    assert_eq!(reader.metadata().ip_version, 4);
}

#[test]
fn test_insert_value_length_out_of_range() {
    let mut db = Database::default();
    let r = db.insert_value(&Value::Bytes(vec![0u8; 16_843_037]));
    assert_eq!(
        r,
        Err(maxminddb_writer::serializer::Error::LengthOutOfRange)
    );
}

#[test]
fn test_longest_prefix_wins() {
    let mut db = Database::default();
    db.metadata.binary_format_major_version = 2;
    let coarse = db.insert_value(&Value::Text("coarse".to_string())).unwrap();
    let fine = db.insert_value(&Value::Text("fine".to_string())).unwrap();
    db.insert_node(IpAddrWithMask::new(vec![10, 0, 0, 0], 8), coarse);
    db.insert_node(IpAddrWithMask::new(vec![10, 1, 0, 0], 16), fine);
    let raw_db = db.to_vec().unwrap();

    let fine_hit: String = lookup(&raw_db, [10, 1, 2, 3]);
    let coarse_hit: String = lookup(&raw_db, [10, 2, 0, 0]);
    assert_eq!(fine_hit, "fine");
    assert_eq!(coarse_hit, "coarse");
}
