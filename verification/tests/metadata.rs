use maxminddb_writer::metadata::{DatabaseMetadata, RecordSize};

#[test]
fn test_record_size_boundaries() {
    assert_eq!(RecordSize::for_max_ptr(0), RecordSize::Small);
    assert_eq!(RecordSize::for_max_ptr(0xFF_FFFF), RecordSize::Small);
    assert_eq!(RecordSize::for_max_ptr(0x100_0000), RecordSize::Medium);
    assert_eq!(RecordSize::for_max_ptr(0xFFF_FFFF), RecordSize::Medium);
    assert_eq!(RecordSize::for_max_ptr(0x1000_0000), RecordSize::Large);
}

#[test]
fn test_record_size_bits() {
    assert_eq!(RecordSize::Small.bits(), 24);
    assert_eq!(RecordSize::Medium.bits(), 28);
    assert_eq!(RecordSize::Large.bits(), 32);
}

#[test]
fn test_database_metadata_builders() {
    let md = DatabaseMetadata::default();
    assert_eq!(md.node_count(), 0);
    assert_eq!(md.ip_version(), 4);
    let md = md.with_node_count(77).with_ipv6();
    assert_eq!(md.node_count(), 77);
    assert_eq!(md.ip_version(), 6);
}
