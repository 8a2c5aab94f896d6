use maxminddb_writer::data::Datastore;
use maxminddb_writer::serializer::Value;

#[test]
fn test_datastore_offsets() {
    let mut store = Datastore::default();
    assert_eq!(store.len(), 0);
    let r1 = store.insert(&Value::Bytes(vec![1, 2, 3])).unwrap();
    let r2 = store.insert(&Value::Boolean(true)).unwrap();
    // bytes payload, then a boolean with its value in the length field
    assert_eq!(
        store.serialized_data(),
        &[0b1000_0011, 1, 2, 3, 0b0000_0001, 0b0000_0111]
    );
    // on-disk pointers are biased past the records and the separator
    assert_eq!(r1.data_section_offset(10), 26);
    assert_eq!(r2.data_section_offset(10), 30);
    assert_eq!(store.len(), 6);
}
