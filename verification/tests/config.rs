use bytes::Bytes;
use esm::config::{generate_icmp_no_route_to_host_reply, send_packet};
use esm::manager::helper::compute_checksum;
use esm::manager::types::{Config, EndPoint, EndPointStrategy};
use esm::net::IpAddr;

#[test]
fn first_revision_reply_is_host_unreachable() {
    let original = [0x11u8; 28];
    let reply = generate_icmp_no_route_to_host_reply(original);
    assert_eq!(reply[20], 3);
    assert_eq!(reply[21], 1);
    assert_eq!(&reply[28..], &original[..]);
    assert_eq!(compute_checksum(&reply[0..20]), 0);
    assert_eq!(compute_checksum(&reply[20..56]), 0);
}

#[test]
fn first_revision_routing_decision() {
    let mut config = Config::default();
    let ep = EndPoint {
        addr: Vec::new(),
        strategy: EndPointStrategy::Broadcast,
        secret_key: "k".to_string(),
    };
    config.end_points.insert(IpAddr::V4(0xAC1D_0003), ep);
    let packet = Bytes::from((0u8..40).collect::<Vec<u8>>());
    assert!(send_packet(&config, &IpAddr::V4(0xAC1D_0003), &packet).is_none());
    let reply = send_packet(&config, &IpAddr::V4(0xAC1D_0004), &packet).unwrap();
    assert_eq!(reply[21], 1);
    assert_eq!(&reply[28..56], &packet[0..28]);
}
