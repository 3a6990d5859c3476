use bytes::Bytes;
use esm::net::IpAddr;
use esm::tun::{
    classify_ip_slice, device_network, DeviceNetwork, packet_endpoints, tun_packet_destination, IpSliceOutcome, TunDeviceError,
};
use esm::types::HeaderAllocatedPayload;

fn with_header(ip_packet: &[u8]) -> HeaderAllocatedPayload<Bytes> {
    let mut v = vec![0u8; 6];
    v.extend_from_slice(ip_packet);
    HeaderAllocatedPayload(Bytes::from(v))
}

fn ipv4_packet() -> Vec<u8> {
    let mut p = vec![
        0x45, 0x00, 0x00, 0x1c, 0x00, 0x00, 0x40, 0x00, 0x40, 0x11, 0x00, 0x00, 172, 29, 0, 1, 172,
        29, 0, 9,
    ];
    p.extend_from_slice(&[0x12, 0x34, 0x56, 0x78, 0x00, 0x08, 0x00, 0x00]);
    p
}

fn ipv6_packet() -> Vec<u8> {
    let mut p = vec![0x60, 0, 0, 0, 0, 0, 59, 64];
    p.extend_from_slice(&[0u8; 15]);
    p.push(1);
    p.extend((1..=16).map(|i| i as u8));
    p
}

#[test]
fn ipv4_destination() {
    assert_eq!(
        tun_packet_destination(&with_header(&ipv4_packet())),
        Ok(Some(IpAddr::V4(0xAC1D_0009)))
    );
}

#[test]
fn ipv6_destination() {
    assert_eq!(
        tun_packet_destination(&with_header(&ipv6_packet())),
        Ok(Some(IpAddr::V6(0x0102_0304_0506_0708_090a_0b0c_0d0e_0f10)))
    );
}

#[test]
fn truncated_packet_is_dropped_quietly() {
    assert_eq!(tun_packet_destination(&with_header(&[])), Ok(None));
    assert_eq!(tun_packet_destination(&with_header(&ipv4_packet()[..12])), Ok(None));
    assert_eq!(tun_packet_destination(&with_header(&ipv6_packet()[..39])), Ok(None));
}

#[test]
fn bad_version_is_refused() {
    let mut p = ipv4_packet();
    p[0] = 0x55;
    assert_eq!(tun_packet_destination(&with_header(&p)), Err(TunDeviceError::NotValidPacket));
    let mut q = ipv4_packet();
    q[0] = 0x44;
    assert_eq!(tun_packet_destination(&with_header(&q)), Err(TunDeviceError::NotValidPacket));
}

#[test]
fn classification() {
    assert_eq!(classify_ip_slice(IpSliceOutcome::V4 { source: [1, 2, 3, 4], destination: [10, 0, 0, 1] }), Ok(Some(IpAddr::V4(0x0a00_0001))));
    assert_eq!(classify_ip_slice(IpSliceOutcome::LenError), Ok(None));
    assert_eq!(classify_ip_slice(IpSliceOutcome::HeaderError), Err(TunDeviceError::NotValidPacket));
}

#[test]
fn error_messages() {
    assert_eq!(TunDeviceError::NotValidPacket.message(), "Packet is not valid");
    assert_eq!(
        TunDeviceError::NotValidProto.message(),
        "Packet Proto is not valid (it seems not IPv4, IPv6)"
    );
}

#[test]
fn endpoints_of_packets() {
    assert_eq!(
        packet_endpoints(&Bytes::from(ipv4_packet())),
        Some((IpAddr::V4(0xAC1D_0001), IpAddr::V4(0xAC1D_0009)))
    );
    assert_eq!(
        packet_endpoints(&Bytes::from(ipv6_packet())),
        Some((IpAddr::V6(1), IpAddr::V6(0x0102_0304_0506_0708_090a_0b0c_0d0e_0f10)))
    );
    assert_eq!(packet_endpoints(&Bytes::from(vec![0x45u8, 0, 0])), None);
    assert_eq!(packet_endpoints(&Bytes::new()), None);
}

#[test]
fn device_network_checks_prefix_length() {
    match device_network(IpAddr::V4(0xAC1D_0002), 24) {
        Some(DeviceNetwork::V4(net)) => {
            assert_eq!(net.prefix_len(), 24);
            assert_eq!(u32::from(net.addr()), 0xAC1D_0002);
        }
        _ => panic!("expected an IPv4 network"),
    }
    assert!(device_network(IpAddr::V4(1), 32).is_some());
    assert!(device_network(IpAddr::V4(1), 33).is_none());
    match device_network(IpAddr::V6(5), 128) {
        Some(DeviceNetwork::V6(net)) => {
            assert_eq!(net.prefix_len(), 128);
            assert_eq!(u128::from(net.addr()), 5);
        }
        _ => panic!("expected an IPv6 network"),
    }
    assert!(device_network(IpAddr::V6(5), 129).is_none());
}
