use esm::manager::helper::{
    compute_checksum, generate_icmp_no_route_to_host_reply, ICMPDestinationUnreachableCode,
};

#[test]
fn checksum_of_rfc1071_example() {
    let data = [0x00u8, 0x01, 0xf2, 0x03, 0xf4, 0xf5, 0xf6, 0xf7];
    assert_eq!(compute_checksum(&data), 0x220d);
}

#[test]
fn checksum_of_ipv4_header() {
    let header = [
        0x45u8, 0x00, 0x00, 0x73, 0x00, 0x00, 0x40, 0x00, 0x40, 0x11, 0x00, 0x00, 0xc0, 0xa8, 0x00,
        0x01, 0xc0, 0xa8, 0x00, 0xc7,
    ];
    assert_eq!(compute_checksum(&header), 0xb861);
}

#[test]
fn checksum_of_empty_data_is_all_ones() {
    assert_eq!(compute_checksum(&[]), 0xffff);
}

#[test]
fn checksum_of_all_ones_words_is_zero() {
    assert_eq!(compute_checksum(&[0xff, 0xff, 0xff, 0xff]), 0x0000);
}

#[test]
fn filled_checksum_verifies() {
    let mut header = [
        0x45u8, 0x00, 0x00, 0x73, 0x00, 0x00, 0x40, 0x00, 0x40, 0x11, 0x00, 0x00, 0xc0, 0xa8, 0x00,
        0x01, 0xc0, 0xa8, 0x00, 0xc7,
    ];
    let c = compute_checksum(&header);
    header[10] = (c >> 8) as u8;
    header[11] = (c & 0xff) as u8;
    assert_eq!(compute_checksum(&header), 0);
}

#[test]
fn code_bytes() {
    assert_eq!(ICMPDestinationUnreachableCode::DestinationNetworkUnreachable.as_u8(), 0);
    assert_eq!(ICMPDestinationUnreachableCode::DestinationHostUnreachable.as_u8(), 1);
    assert_eq!(ICMPDestinationUnreachableCode::SourceRouteFailed.as_u8(), 5);
    assert_eq!(ICMPDestinationUnreachableCode::DestinationHostUnknown.as_u8(), 7);
}

#[test]
fn reply_bytes_exact() {
    let mut original = [0u8; 28];
    for (i, b) in original.iter_mut().enumerate() {
        *b = i as u8;
    }
    let reply = generate_icmp_no_route_to_host_reply(
        original,
        ICMPDestinationUnreachableCode::DestinationHostUnknown,
    );
    let expected: [u8; 56] = [
        69, 0, 0, 56, 0, 0, 0, 0, 64, 1, 34, 136, 172, 29, 0, 1, 172, 29, 0, 2, 3, 7, 70, 52, 0, 0,
        0, 0, 0, 1, 2, 3, 4, 5, 6, 7, 8, 9, 10, 11, 12, 13, 14, 15, 16, 17, 18, 19, 20, 21, 22, 23,
        24, 25, 26, 27,
    ];
    assert_eq!(reply, expected);
}

#[test]
fn reply_checksums_verify() {
    let original = [0xabu8; 28];
    for code in [
        ICMPDestinationUnreachableCode::DestinationNetworkUnreachable,
        ICMPDestinationUnreachableCode::DestinationHostUnreachable,
        ICMPDestinationUnreachableCode::SourceRouteFailed,
        ICMPDestinationUnreachableCode::DestinationHostUnknown,
    ] {
        let reply = generate_icmp_no_route_to_host_reply(original, code);
        assert_eq!(compute_checksum(&reply[0..20]), 0);
        assert_eq!(compute_checksum(&reply[20..56]), 0);
        assert_eq!(&reply[28..56], &original[..]);
        assert_eq!(reply[21], code.as_u8());
        assert_eq!(reply[20], 3);
    }
}

#[test]
fn checksum_ignores_word_order_and_zero_words() {
    let d1 = [0x12u8, 0x34, 0xab, 0xcd, 0xff, 0x01];
    let d2 = [0xffu8, 0x01, 0x00, 0x00, 0x12, 0x34, 0xab, 0xcd, 0x00, 0x00];
    assert_eq!(compute_checksum(&d1), compute_checksum(&d2));
}

#[test]
fn checksum_of_byte_swapped_words_is_byte_swapped() {
    let d1 = [0x45u8, 0x00, 0x00, 0x73, 0x00, 0x00, 0x40, 0x00, 0x40, 0x11];
    let mut d2 = d1;
    for k in 0..d1.len() / 2 {
        d2.swap(2 * k, 2 * k + 1);
    }
    assert_eq!(compute_checksum(&d2), compute_checksum(&d1).swap_bytes());
}
