use crate::buffer::{bytes_as_slice, bytes_view};
use crate::net::IpAddr;
use crate::types::{HeaderAllocatedPayload, HEADER_LEN};
use vstd::prelude::*;
use vstd::slice::slice_subrange;

verus! {

/// Why a packet read from the TUN device was refused.
#[derive(Debug, Clone, Copy, PartialEq, Eq)]
pub enum TunDeviceError {
    NotValidProto,
    NotValidPacket,
}

impl TunDeviceError {
    /// The message that describes the error.
    pub fn message(&self) -> (text: &'static str)
        ensures
            *self == TunDeviceError::NotValidProto ==> text@
                == "Packet Proto is not valid (it seems not IPv4, IPv6)"@,
            *self == TunDeviceError::NotValidPacket ==> text@ == "Packet is not valid"@,
    {
        match self {
            TunDeviceError::NotValidProto => "Packet Proto is not valid (it seems not IPv4, IPv6)",
            TunDeviceError::NotValidPacket => "Packet is not valid",
        }
    }
}

/// What slicing the IP headers of a packet found: the source and destination
/// address bytes of a valid IPv4 or IPv6 packet, or the kind of error.
#[derive(Debug, Clone, Copy, PartialEq, Eq)]
pub enum IpSliceOutcome {
    V4 { source: [u8; 4], destination: [u8; 4] },
    V6 { source: [u8; 16], destination: [u8; 16] },
    /// The data is too short for the headers or for the length they declare.
    LenError,
    /// A header holds a value that is not valid.
    HeaderError,
}

/// What `etherparse::IpSlice::from_slice` finds in `data`, reduced to the
/// source and destination address bytes or the kind of error.
pub uninterp spec fn ip_slice_outcome(data: Seq<u8>) -> IpSliceOutcome;

/// `etherparse::IpSlice::from_slice` on `data`, then the source and
/// destination addresses of the parsed header. The outcome is a function of the bytes; the crate's
/// source shows these facts of it: an empty slice is a length error; a
/// version other than 4 or 6 is a header error; an IPv4 header length below
/// 5 words is a header error; data shorter than the IPv4 header length, or
/// an IPv6 packet shorter than its 40-byte header, is a length error; the
/// source and destination of an IPv4 packet are bytes 12..16 and 16..20, of
/// an IPv6 packet bytes 8..24 and 24..40. The remaining checks (total length, extension headers) are left
/// to the name.
#[verifier::external_body]
fn slice_ip_addresses(data: &[u8]) -> (outcome: IpSliceOutcome)
    ensures
        outcome == ip_slice_outcome(data@),
        data@.len() == 0 ==> outcome == IpSliceOutcome::LenError,
        data@.len() > 0 && data@[0] / 16 != 4 && data@[0] / 16 != 6 ==> outcome
            == IpSliceOutcome::HeaderError,
        data@.len() > 0 && data@[0] / 16 == 4 && data@[0] % 16 < 5 ==> outcome
            == IpSliceOutcome::HeaderError,
        data@.len() > 0 && data@[0] / 16 == 4 && data@[0] % 16 >= 5 && data@.len() < (data@[0]
            % 16) * 4 ==> outcome == IpSliceOutcome::LenError,
        data@.len() > 0 && data@[0] / 16 == 6 && data@.len() < 40 ==> outcome
            == IpSliceOutcome::LenError,
        outcome matches IpSliceOutcome::V4 { source, destination } ==> data@.len() >= 20
            && data@[0] / 16 == 4 && source@ == data@.subrange(12, 16) && destination@
            == data@.subrange(16, 20),
        outcome matches IpSliceOutcome::V6 { source, destination } ==> data@.len() >= 40
            && data@[0] / 16 == 6 && source@ == data@.subrange(8, 24) && destination@
            == data@.subrange(24, 40),
{
    match etherparse::IpSlice::from_slice(data) {
        Ok(etherparse::IpSlice::Ipv4(p)) => IpSliceOutcome::V4 {
            source: p.header().source(),
            destination: p.header().destination(),
        },
        Ok(etherparse::IpSlice::Ipv6(p)) => IpSliceOutcome::V6 {
            source: p.header().source(),
            destination: p.header().destination(),
        },
        Err(etherparse::err::ip::SliceError::Len(_)) => IpSliceOutcome::LenError,
        Err(etherparse::err::ip::SliceError::IpHeaders(_)) => IpSliceOutcome::HeaderError,
    }
}

/// The number that the bytes of `s` spell, most significant first.
pub open spec fn be_value(s: Seq<u8>) -> nat
    decreases s.len(),
{
    if s.len() == 0 {
        0
    } else {
        be_value(s.drop_last()) * 256 + s.last() as nat
    }
}

/// The address that destination bytes spell.
pub open spec fn destination_addr(outcome: IpSliceOutcome) -> Option<IpAddr> {
    match outcome {
        IpSliceOutcome::V4 { destination, .. } => Some(IpAddr::V4(be_value(destination@) as u32)),
        IpSliceOutcome::V6 { destination, .. } => Some(IpAddr::V6(be_value(destination@) as u128)),
        _ => None,
    }
}

/// The addresses that the source and destination bytes spell.
pub open spec fn endpoints_of(outcome: IpSliceOutcome) -> Option<(IpAddr, IpAddr)> {
    match outcome {
        IpSliceOutcome::V4 { source, destination } => Some(
            (IpAddr::V4(be_value(source@) as u32), IpAddr::V4(be_value(destination@) as u32)),
        ),
        IpSliceOutcome::V6 { source, destination } => Some(
            (IpAddr::V6(be_value(source@) as u128), IpAddr::V6(be_value(destination@) as u128)),
        ),
        _ => None,
    }
}

/// 256 to the power `n`.
pub open spec fn byte_scale(n: nat) -> nat
    decreases n,
{
    if n == 0 {
        1
    } else {
        256 * byte_scale((n - 1) as nat)
    }
}

proof fn lemma_be_value_bound(s: Seq<u8>, n: nat)
    requires
        s.len() <= n,
    ensures
        be_value(s) < byte_scale(n),
    decreases n,
{
    if n > 0 {
        let m = (n - 1) as nat;
        if s.len() > 0 {
            lemma_be_value_bound(s.drop_last(), m);
            let p = byte_scale(m);
            assert(be_value(s) < p * 256) by (nonlinear_arith)
                requires
                    be_value(s) == be_value(s.drop_last()) * 256 + s.last(),
                    be_value(s.drop_last()) < p,
                    s.last() < 256,
            ;
        } else {
            lemma_be_value_bound(s, m);
        }
    }
}

/// The number that `bytes` spell, most significant first.
fn be_bytes_value(bytes: &[u8]) -> (value: u128)
    requires
        bytes@.len() <= 16,
    ensures
        value == be_value(bytes@),
{
    let mut value: u128 = 0;
    let mut i: usize = 0;
    while i < bytes.len()
        invariant
            i <= bytes@.len() <= 16,
            value == be_value(bytes@.take(i as int)),
        decreases bytes@.len() - i,
    {
        proof {
            assert(bytes@.take(i + 1).drop_last() =~= bytes@.take(i as int));
            lemma_be_value_bound(bytes@.take(i + 1), 16);
            reveal_with_fuel(byte_scale, 17);
        }
        value = value * 256 + bytes[i] as u128;
        i = i + 1;
    }
    assert(bytes@.take(i as int) =~= bytes@);
    value
}

/// The IPv4 address that four bytes spell.
fn v4_address(bytes: [u8; 4]) -> (addr: IpAddr)
    ensures
        addr == IpAddr::V4(be_value(bytes@) as u32),
{
    let v = be_bytes_value(bytes.as_slice());
    proof {
        lemma_be_value_bound(bytes@, 4);
        reveal_with_fuel(byte_scale, 5);
    }
    IpAddr::V4(v as u32)
}

/// The IPv6 address that sixteen bytes spell.
fn v6_address(bytes: [u8; 16]) -> (addr: IpAddr)
    ensures
        addr == IpAddr::V6(be_value(bytes@) as u128),
{
    IpAddr::V6(be_bytes_value(bytes.as_slice()))
}

/// What the TUN queue does with a sliced packet: a valid packet goes to the
/// manager for its destination (`Ok(Some(..))`), a truncated one is dropped
/// quietly (`Ok(None)`), any other is refused.
pub fn classify_ip_slice(outcome: IpSliceOutcome) -> (decision: Result<Option<IpAddr>, TunDeviceError>)
    ensures
        outcome is V4 || outcome is V6 ==> decision == Ok::<Option<IpAddr>, TunDeviceError>(
            destination_addr(outcome),
        ),
        outcome matches IpSliceOutcome::V4 { destination, .. } ==> decision == Ok::<
            Option<IpAddr>,
            TunDeviceError,
        >(
            Some(
                IpAddr::V4(
                    (destination@[0] * 0x100_0000 + destination@[1] * 0x1_0000 + destination@[2] * 256
                        + destination@[3]) as u32,
                ),
            ),
        ),
        outcome matches IpSliceOutcome::V6 { destination, .. } ==> decision == Ok::<
            Option<IpAddr>,
            TunDeviceError,
        >(Some(IpAddr::V6(be_value(destination@) as u128))),
        outcome is LenError ==> decision == Ok::<Option<IpAddr>, TunDeviceError>(None),
        outcome is HeaderError ==> decision == Err::<Option<IpAddr>, TunDeviceError>(
            TunDeviceError::NotValidPacket,
        ),
{
    proof {
        if let IpSliceOutcome::V4 { destination, .. } = outcome {
            lemma_be_value_4(destination@);
        }
    }
    match outcome {
        IpSliceOutcome::V4 { destination, .. } => Ok(Some(v4_address(destination))),
        IpSliceOutcome::V6 { destination, .. } => Ok(Some(v6_address(destination))),
        IpSliceOutcome::LenError => Ok(None),
        IpSliceOutcome::HeaderError => Err(TunDeviceError::NotValidPacket),
    }
}

/// The source and destination addresses of the IP packet `packet`, when it
/// slices as a valid IPv4 or IPv6 packet.
pub fn packet_endpoints(packet: &bytes::Bytes) -> (ends: Option<(IpAddr, IpAddr)>)
    ensures
        ends == endpoints_of(ip_slice_outcome(bytes_view(*packet))),
        ip_slice_outcome(bytes_view(*packet)) is V4 ==> ends == Some(
            (
                IpAddr::V4(
                    (bytes_view(*packet)[12] * 0x100_0000 + bytes_view(*packet)[13] * 0x1_0000
                        + bytes_view(*packet)[14] * 256 + bytes_view(*packet)[15]) as u32,
                ),
                IpAddr::V4(
                    (bytes_view(*packet)[16] * 0x100_0000 + bytes_view(*packet)[17] * 0x1_0000
                        + bytes_view(*packet)[18] * 256 + bytes_view(*packet)[19]) as u32,
                ),
            ),
        ),
        ip_slice_outcome(bytes_view(*packet)) is V6 ==> ends == Some(
            (
                IpAddr::V6(be_value(bytes_view(*packet).subrange(8, 24)) as u128),
                IpAddr::V6(be_value(bytes_view(*packet).subrange(24, 40)) as u128),
            ),
        ),
        !(ip_slice_outcome(bytes_view(*packet)) is V4) && !(ip_slice_outcome(bytes_view(*packet)) is V6)
            ==> ends is None,
{
    let outcome = slice_ip_addresses(bytes_as_slice(packet));
    proof {
        if let IpSliceOutcome::V4 { source, destination } = outcome {
            lemma_be_value_4(source@);
            lemma_be_value_4(destination@);
        }
    }
    match outcome {
        IpSliceOutcome::V4 { source, destination } => Some((v4_address(source), v4_address(destination))),
        IpSliceOutcome::V6 { source, destination } => Some((v6_address(source), v6_address(destination))),
        _ => None,
    }
}

/// Where a packet read from the TUN device goes: the IP packet after the
/// reserved header is sliced and classified (see `classify_ip_slice`).
pub fn tun_packet_destination(buf: &HeaderAllocatedPayload<bytes::Bytes>) -> (decision: Result<
    Option<IpAddr>,
    TunDeviceError,
>)
    requires
        bytes_view(buf.0).len() >= HEADER_LEN,
    ensures
        decision == classify_result(
            ip_slice_outcome(bytes_view(buf.0).subrange(HEADER_LEN as int, bytes_view(buf.0).len() as int)),
        ),
        ip_slice_outcome(bytes_view(buf.0).subrange(HEADER_LEN as int, bytes_view(buf.0).len() as int))
            is V4 ==> decision == Ok::<Option<IpAddr>, TunDeviceError>(
            Some(
                IpAddr::V4(
                    (bytes_view(buf.0)[22] * 0x100_0000 + bytes_view(buf.0)[23] * 0x1_0000
                        + bytes_view(buf.0)[24] * 256 + bytes_view(buf.0)[25]) as u32,
                ),
            ),
        ),
        ip_slice_outcome(bytes_view(buf.0).subrange(HEADER_LEN as int, bytes_view(buf.0).len() as int))
            is V6 ==> decision == Ok::<Option<IpAddr>, TunDeviceError>(
            Some(IpAddr::V6(be_value(bytes_view(buf.0).subrange(30, 46)) as u128)),
        ),
        ip_slice_outcome(bytes_view(buf.0).subrange(HEADER_LEN as int, bytes_view(buf.0).len() as int))
            is LenError ==> decision == Ok::<Option<IpAddr>, TunDeviceError>(None),
        ip_slice_outcome(bytes_view(buf.0).subrange(HEADER_LEN as int, bytes_view(buf.0).len() as int))
            is HeaderError ==> decision == Err::<Option<IpAddr>, TunDeviceError>(
            TunDeviceError::NotValidPacket,
        ),
{
    let data = bytes_as_slice(&buf.0);
    let packet = slice_subrange(data, HEADER_LEN, data.len());
    let outcome = slice_ip_addresses(packet);
    proof {
        let whole = bytes_view(buf.0);
        if let IpSliceOutcome::V4 { source, destination } = outcome {
            lemma_be_value_4(destination@);
            lemma_decision_ignores_source(source, source, destination);
        }
        if let IpSliceOutcome::V6 { destination, .. } = outcome {
            assert(destination@ =~= whole.subrange(30, 46));
        }
    }
    classify_ip_slice(outcome)
}

/// The number that four bytes spell.
proof fn lemma_be_value_4(s: Seq<u8>)
    requires
        s.len() == 4,
    ensures
        be_value(s) == s[0] * 0x100_0000 + s[1] * 0x1_0000 + s[2] * 256 + s[3],
        be_value(s) <= u32::MAX,
{
    let s3 = s.drop_last();
    let s2 = s3.drop_last();
    let s1 = s2.drop_last();
    let s0 = s1.drop_last();
    assert(s0.len() == 0);
    assert(be_value(s0) == 0);
    assert(s1.last() == s[0] && s2.last() == s[1] && s3.last() == s[2] && s.last() == s[3]);
    assert(be_value(s1) == s[0]);
    assert(be_value(s2) == s[0] * 256 + s[1]);
    assert(be_value(s3) == (s[0] * 256 + s[1]) * 256 + s[2]);
}

/// The decision on a valid IPv4 packet is to hand it on for the address that
/// its destination bytes spell, whatever its source: two packets with the
/// same destination are decided alike.
pub proof fn lemma_decision_ignores_source(source: [u8; 4], other_source: [u8; 4], destination: [u8; 4])
    ensures
        classify_result(IpSliceOutcome::V4 { source, destination }) == classify_result(
            IpSliceOutcome::V4 { source: other_source, destination },
        ),
        classify_result(IpSliceOutcome::V4 { source, destination }) == Ok::<
            Option<IpAddr>,
            TunDeviceError,
        >(
            Some(
                IpAddr::V4(
                    (destination@[0] * 0x100_0000 + destination@[1] * 0x1_0000 + destination@[2] * 256
                        + destination@[3]) as u32,
                ),
            ),
        ),
{
    lemma_be_value_4(destination@);
}

/// The same for IPv6: the decision is to hand the packet on for the address
/// that its sixteen destination bytes spell, whatever its source.
pub proof fn lemma_v6_decision_ignores_source(
    source: [u8; 16],
    other_source: [u8; 16],
    destination: [u8; 16],
)
    ensures
        classify_result(IpSliceOutcome::V6 { source, destination }) == classify_result(
            IpSliceOutcome::V6 { source: other_source, destination },
        ),
        classify_result(IpSliceOutcome::V6 { source, destination }) == Ok::<
            Option<IpAddr>,
            TunDeviceError,
        >(Some(IpAddr::V6(be_value(destination@) as u128))),
{
}

/// The decision of `classify_ip_slice` for `outcome`.
pub open spec fn classify_result(outcome: IpSliceOutcome) -> Result<Option<IpAddr>, TunDeviceError> {
    match outcome {
        IpSliceOutcome::LenError => Ok(None),
        IpSliceOutcome::HeaderError => Err(TunDeviceError::NotValidPacket),
        _ => Ok(destination_addr(outcome)),
    }
}

#[verifier::external_type_specification]
#[verifier::external_body]
pub struct ExIpv4Net(netconfig::ipnet::Ipv4Net);

#[verifier::external_type_specification]
#[verifier::external_body]
pub struct ExIpv6Net(netconfig::ipnet::Ipv6Net);

#[verifier::external_type_specification]
#[verifier::external_body]
pub struct ExPrefixLenError(netconfig::ipnet::PrefixLenError);

/// The IPv4 network that `ipnet::Ipv4Net::new` makes of an address (as its
/// 32-bit number) and a valid prefix length.
pub uninterp spec fn ipv4_network(addr: u32, prefix_len: u8) -> netconfig::ipnet::Ipv4Net;

/// The IPv6 network that `ipnet::Ipv6Net::new` makes of an address (as its
/// 128-bit number) and a valid prefix length.
pub uninterp spec fn ipv6_network(addr: u128, prefix_len: u8) -> netconfig::ipnet::Ipv6Net;

/// `ipnet::Ipv4Net::new` (through `netconfig`): the network of `addr` with
/// `prefix_len` bits of prefix; the crate refuses a prefix length above 32.
#[verifier::external_body]
fn ipv4_net_new(addr: u32, prefix_len: u8) -> (net: Result<
    netconfig::ipnet::Ipv4Net,
    netconfig::ipnet::PrefixLenError,
>)
    ensures
        net is Ok <==> prefix_len <= 32,
        net matches Ok(n) ==> n == ipv4_network(addr, prefix_len),
{
    netconfig::ipnet::Ipv4Net::new(addr.into(), prefix_len)
}

/// `ipnet::Ipv6Net::new` (through `netconfig`): the network of `addr` with
/// `prefix_len` bits of prefix; the crate refuses a prefix length above 128.
#[verifier::external_body]
fn ipv6_net_new(addr: u128, prefix_len: u8) -> (net: Result<
    netconfig::ipnet::Ipv6Net,
    netconfig::ipnet::PrefixLenError,
>)
    ensures
        net is Ok <==> prefix_len <= 128,
        net matches Ok(n) ==> n == ipv6_network(addr, prefix_len),
{
    netconfig::ipnet::Ipv6Net::new(addr.into(), prefix_len)
}

/// The network that the TUN device's address and prefix length describe.
pub enum DeviceNetwork {
    V4(netconfig::ipnet::Ipv4Net),
    V6(netconfig::ipnet::Ipv6Net),
}

/// A prefix length is valid for an address: at most 32 bits for IPv4, at
/// most 128 for IPv6.
pub open spec fn prefix_len_valid(ip: IpAddr, prefix_len: u8) -> bool {
    match ip {
        IpAddr::V4(_) => prefix_len <= 32,
        IpAddr::V6(_) => prefix_len <= 128,
    }
}

/// The network of the device address `ip` with `subnet` bits of prefix, or
/// none when the prefix length is not valid for the address.
pub fn device_network(ip: IpAddr, subnet: u8) -> (net: Option<DeviceNetwork>)
    ensures
        net is Some <==> prefix_len_valid(ip, subnet),
        net matches Some(DeviceNetwork::V4(n)) ==> (ip matches IpAddr::V4(a) && n == ipv4_network(
            a,
            subnet,
        )),
        net matches Some(DeviceNetwork::V6(n)) ==> (ip matches IpAddr::V6(a) && n == ipv6_network(
            a,
            subnet,
        )),
{
    match ip {
        IpAddr::V4(a) => match ipv4_net_new(a, subnet) {
            Ok(n) => Some(DeviceNetwork::V4(n)),
            Err(_) => None,
        },
        IpAddr::V6(a) => match ipv6_net_new(a, subnet) {
            Ok(n) => Some(DeviceNetwork::V6(n)),
            Err(_) => None,
        },
    }
}

} // verus!
