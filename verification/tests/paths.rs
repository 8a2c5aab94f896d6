use maxminddb_writer::paths::{octets_with_mask, trailing_zeros, IntoBitPath, IpAddrWithMask};

#[test]
fn test_trailing_zeros() {
    assert_eq!(trailing_zeros(&[0, 0, 0, 0]), 32);
    assert_eq!(trailing_zeros(&[0, 0, 0, 1]), 0);
    assert_eq!(trailing_zeros(&[0, 0, 1, 0]), 8);
    assert_eq!(trailing_zeros(&[0, 1, 0, 0]), 16);
    assert_eq!(trailing_zeros(&[1, 0, 0, 0]), 24);
    assert_eq!(trailing_zeros(&[1, 0, 0, 1]), 0);
}

#[test]
fn test_octets_with_mask() {
    assert_eq!(
        octets_with_mask(&[1, 0, 0, 0], 255),
        vec![
            (vec![1, 0, 0, 0], 25),
            (vec![1, 0, 0, 128], 26),
            (vec![1, 0, 0, 192], 27),
            (vec![1, 0, 0, 224], 28),
            (vec![1, 0, 0, 240], 29),
            (vec![1, 0, 0, 248], 30),
            (vec![1, 0, 0, 252], 31),
            (vec![1, 0, 0, 254], 32),
        ],
    );
    assert_eq!(
        octets_with_mask(&[1, 0, 0, 240], 32),
        vec![(vec![1, 0, 0, 240], 28), (vec![1, 0, 1, 0], 28)],
    );
    assert_eq!(
        octets_with_mask(&[196, 11, 105, 0], 256),
        vec![(vec![196, 11, 105, 0], 24)],
    );
    assert_eq!(
        octets_with_mask(&[196, 11, 105, 0], 1024),
        vec![
            (vec![196, 11, 105, 0], 24),
            (vec![196, 11, 106, 0], 23),
            (vec![196, 11, 108, 0], 24),
        ],
    );
}

#[test]
fn test_octets_with_mask_zero_count() {
    assert_eq!(octets_with_mask(&[10, 0, 0, 0], 0), vec![]);
}

#[test]
fn test_ip_addr_with_mask() {
    let addrs = IpAddrWithMask::from_count(&[196, 11, 105, 0], 1024);
    assert_eq!(
        addrs,
        vec![
            IpAddrWithMask {
                octets: vec![196, 11, 105, 0],
                mask: 24,
            },
            IpAddrWithMask {
                octets: vec![196, 11, 106, 0],
                mask: 23,
            },
            IpAddrWithMask {
                octets: vec![196, 11, 108, 0],
                mask: 24,
            },
        ]
    );
}

#[test]
fn test_bit_path_msb_first() {
    let prefix = IpAddrWithMask::new(vec![0b1010_0000, 0, 0, 1], 12);
    let bits = prefix.into_bit_path();
    assert_eq!(
        bits,
        vec![true, false, true, false, false, false, false, false, false, false, false, false]
    );
}

#[test]
fn test_bit_path_full_address() {
    let prefix = IpAddrWithMask::new(vec![0, 0, 0, 1], 32);
    let bits = prefix.into_bit_path();
    assert_eq!(bits.len(), 32);
    assert!(bits[31]);
    assert!(!bits[30]);
}
