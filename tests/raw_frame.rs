use erbium::packet::{checksum, new_udp, reply_destination, MAX_UDP_PAYLOAD};

#[test]
fn checksum_known_value() {
    // Worked example of RFC 1071.
    assert_eq!(checksum(&vec![0x00, 0x01, 0xf2, 0x03, 0xf4, 0xf5, 0xf6, 0xf7]), 0x220d);
    assert_eq!(checksum(&vec![]), 0xffff);
    assert_eq!(checksum(&vec![0x01]), 0xfeff);
}

#[test]
fn frame_layout_and_checksums() {
    let payload = b"hello".to_vec();
    let f = new_udp(
        [2, 0, 0, 0, 0, 1],
        u32::from_be_bytes([192, 0, 2, 1]),
        67,
        [2, 0, 0, 0, 0, 2],
        u32::from_be_bytes([192, 0, 2, 50]),
        68,
        &payload,
    )
    .unwrap();
    assert_eq!(f.len(), 14 + 20 + 8 + 5);
    assert_eq!(&f[0..6], &[2, 0, 0, 0, 0, 2]);
    assert_eq!(&f[6..12], &[2, 0, 0, 0, 0, 1]);
    assert_eq!(&f[12..14], &[0x08, 0x00]);
    assert_eq!(f[14], 0x45);
    assert_eq!(&f[16..18], &[0, 33]);
    assert_eq!(f[22], 64);
    assert_eq!(f[23], 17);
    assert_eq!(&f[26..30], &[192, 0, 2, 1]);
    assert_eq!(&f[30..34], &[192, 0, 2, 50]);
    // A header with its checksum in place sums to all ones.
    assert_eq!(checksum(&f[14..34].to_vec()), 0);
    assert_eq!(&f[34..36], &[0, 67]);
    assert_eq!(&f[36..38], &[0, 68]);
    assert_eq!(&f[38..40], &[0, 13]);
    let mut pseudo = vec![192, 0, 2, 1, 192, 0, 2, 50, 0, 17, 0, 13];
    pseudo.extend_from_slice(&f[34..]);
    assert_eq!(checksum(&pseudo), 0);
    assert_eq!(&f[42..], b"hello");
}

#[test]
fn oversized_payload_refused() {
    let big = vec![0u8; MAX_UDP_PAYLOAD + 1];
    assert!(new_udp([0; 6], 0, 67, [0; 6], 0, 68, &big).is_none());
}

#[test]
fn destination_rule() {
    let chaddr = vec![2, 0, 0, 0, 0, 1, 0, 0, 0, 0, 0, 0, 0, 0, 0, 0];
    assert_eq!(reply_destination(0x8000, 0x0a000001, &chaddr, 7), ([0xff; 6], 0xffffffff));
    assert_eq!(reply_destination(0, 0, &chaddr, 7), ([0xff; 6], 0xffffffff));
    assert_eq!(reply_destination(0, 0x0a000001, &chaddr, 7), ([2, 0, 0, 0, 0, 1], 7));
}
