use catch::icmp::{build_icmp_packet, checksum};

#[test]
fn checksum_of_empty_buffer() {
    assert_eq!(checksum(&[]), 0xFFFF);
}

#[test]
fn checksum_of_one_word() {
    assert_eq!(checksum(&[0x00, 0x01]), 0xFFFE);
}

#[test]
fn checksum_pads_odd_trailing_byte_high() {
    assert_eq!(checksum(&[0x01]), 0xFEFF);
}

#[test]
fn checksum_folds_carries() {
    // 0xFFFF + 0x0001 wraps to 0x0001 in one's-complement arithmetic.
    assert_eq!(checksum(&[0xFF, 0xFF, 0x00, 0x01]), 0xFFFE);
}

#[test]
fn echo_packet_layout() {
    let p = build_icmp_packet(0x1234, 0x0007);
    assert_eq!(p.len(), 8);
    assert_eq!(p[0], 8);
    assert_eq!(p[1], 0);
    assert_eq!(&p[4..6], &[0x12, 0x34]);
    assert_eq!(&p[6..8], &[0x00, 0x07]);
}

#[test]
fn echo_packet_exact_checksum() {
    let p = build_icmp_packet(1, 0);
    // Words of the zero-checksum header: 0x0800 + 0x0001 = 0x0801.
    assert_eq!(&p[2..4], &[0xF7, 0xFE]);
}

#[test]
fn echo_packet_checksums_to_zero() {
    // A packet whose checksum field is filled in sums to 0xFFFF, so the
    // complement comes out zero: how a receiver validates it.
    for (id, seq) in [(1u16, 0u16), (0xABCD, 0x00FF), (0, 0)] {
        let p = build_icmp_packet(id, seq);
        assert_eq!(checksum(&p), 0);
    }
}
