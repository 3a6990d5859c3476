use crate::buffer::bytes_view;
use crate::manager::helper::{code_byte, icmp_reply_spec, ICMPDestinationUnreachableCode};
use crate::manager::types::{end_point_addrs, Config};
use crate::manager::unreachable_reply;
use crate::net::IpAddr;
use vstd::prelude::*;

verus! {

/// The "host unreachable" reply (code 1) quoting `original`.
pub fn generate_icmp_no_route_to_host_reply(original: [u8; 28]) -> (packet: [u8; 56])
    ensures
        packet@ == icmp_reply_spec(
            original@,
            code_byte(ICMPDestinationUnreachableCode::DestinationHostUnreachable),
        ),
        packet@.subrange(0, 10) == seq![0x45u8, 0x00, 0x00, 0x38, 0x00, 0x00, 0x00, 0x00, 0x40, 0x01],
        packet@.subrange(12, 20) == seq![0xacu8, 0x1d, 0x00, 0x01, 0xac, 0x1d, 0x00, 0x02],
        packet@[20] == 3,
        packet@[21] == 1,
        packet@.subrange(24, 28) == seq![0u8, 0, 0, 0],
        packet@.subrange(28, 56) == original@,
{
    crate::manager::helper::generate_icmp_no_route_to_host_reply(original, ICMPDestinationUnreachableCode::DestinationHostUnreachable)
}

/// A routing decision without connections: a packet for a configured end
/// point is taken (nothing comes back); any other is answered with "host
/// unreachable", quoting its first 28 bytes.
pub fn send_packet(config: &Config, addr: &IpAddr, packet: &bytes::Bytes) -> (reply: Option<
    bytes::Bytes,
>)
    requires
        !end_point_addrs(config.end_points@).contains(*addr) ==> bytes_view(*packet).len() >= 28,
    ensures
        end_point_addrs(config.end_points@).contains(*addr) ==> reply is None,
        !end_point_addrs(config.end_points@).contains(*addr) ==> (reply matches Some(r)
            && bytes_view(r) == icmp_reply_spec(
            bytes_view(*packet).subrange(0, 28),
            code_byte(ICMPDestinationUnreachableCode::DestinationHostUnreachable),
        )),
{
    if config.contains_end_point(addr) {
        None
    } else {
        Some(unreachable_reply(packet, ICMPDestinationUnreachableCode::DestinationHostUnreachable))
    }
}

} // verus!
