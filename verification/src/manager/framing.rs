use crate::buffer::{bytes_as_slice, bytes_from_vec, bytes_view};
use crate::types::HEADER_LEN;
use vstd::prelude::*;
use vstd::slice::slice_to_vec;

verus! {

/// The four bytes of `v`, most significant first.
pub open spec fn be32_bytes(v: u32) -> Seq<u8> {
    seq![(v / 0x100_0000) as u8, ((v / 0x1_0000) % 256) as u8, ((v / 256) % 256) as u8, (v % 256) as u8]
}

/// The tunnel header: the sequence number, then the length of the IP packet
/// that follows (the bytes after the header), as 16 bits, both big-endian.
pub open spec fn tunnel_header(seq_no: u32, packet_len: int) -> Seq<u8> {
    let len16 = (packet_len - HEADER_LEN) % 65536;
    be32_bytes(seq_no) + seq![(len16 / 256) as u8, (len16 % 256) as u8]
}

/// `packet` with its first `HEADER_LEN` bytes replaced by the tunnel header.
pub open spec fn framed_packet(packet: Seq<u8>, seq_no: u32) -> Seq<u8> {
    tunnel_header(seq_no, packet.len() as int) + packet.subrange(HEADER_LEN as int, packet.len() as int)
}

/// A framed packet is as long as the packet; its first four bytes spell the
/// sequence number and the next two the length of what follows the header
/// (modulo 2^16), both most significant first; the bytes after the header are
/// those of the packet.
pub proof fn lemma_framed_header(packet: Seq<u8>, seq_no: u32)
    requires
        packet.len() >= HEADER_LEN,
    ensures
        framed_packet(packet, seq_no).len() == packet.len(),
        framed_packet(packet, seq_no)[0] * 0x100_0000 + framed_packet(packet, seq_no)[1] * 0x1_0000
            + framed_packet(packet, seq_no)[2] * 256 + framed_packet(packet, seq_no)[3] == seq_no,
        framed_packet(packet, seq_no)[4] * 256 + framed_packet(packet, seq_no)[5] == (packet.len()
            - HEADER_LEN) % 65536,
        framed_packet(packet, seq_no).subrange(HEADER_LEN as int, packet.len() as int)
            == packet.subrange(HEADER_LEN as int, packet.len() as int),
{
    let f = framed_packet(packet, seq_no);
    let len16 = (packet.len() - HEADER_LEN) % 65536;
    assert(f[4] == len16 / 256 && f[5] == len16 % 256);
    assert(f[0] == seq_no / 0x100_0000 && f[1] == (seq_no / 0x1_0000) % 256 && f[2] == (seq_no
        / 256) % 256 && f[3] == seq_no % 256);
    assert((seq_no / 0x100_0000) * 0x100_0000 + ((seq_no / 0x1_0000) % 256) * 0x1_0000 + ((seq_no
        / 256) % 256) * 256 + seq_no % 256 == seq_no) by (bit_vector);
    assert(f.subrange(HEADER_LEN as int, packet.len() as int) =~= packet.subrange(
        HEADER_LEN as int,
        packet.len() as int,
    ));
}

/// Writes the tunnel header for sequence number `seq_no` into the reserved
/// first bytes of `packet`.
pub fn frame_packet(packet: &bytes::Bytes, seq_no: u32) -> (framed: bytes::Bytes)
    requires
        bytes_view(*packet).len() >= HEADER_LEN,
    ensures
        bytes_view(framed) == framed_packet(bytes_view(*packet), seq_no),
        bytes_view(framed).len() == bytes_view(*packet).len(),
        bytes_view(framed)[0] * 0x100_0000 + bytes_view(framed)[1] * 0x1_0000 + bytes_view(framed)[2]
            * 256 + bytes_view(framed)[3] == seq_no,
        bytes_view(framed)[4] * 256 + bytes_view(framed)[5] == (bytes_view(*packet).len() - HEADER_LEN)
            % 65536,
        bytes_view(framed).subrange(HEADER_LEN as int, bytes_view(framed).len() as int)
            == bytes_view(*packet).subrange(HEADER_LEN as int, bytes_view(*packet).len() as int),
{
    proof {
        lemma_framed_header(bytes_view(*packet), seq_no);
    }
    let data = bytes_as_slice(packet);
    let mut v = slice_to_vec(data);
    let len16 = ((data.len() - HEADER_LEN) % 65536) as u16;
    assert((seq_no >> 24) as u8 == seq_no / 0x100_0000 && (seq_no >> 16) as u8 == (seq_no / 0x1_0000)
        % 256 && (seq_no >> 8) as u8 == (seq_no / 256) % 256 && seq_no as u8 == seq_no % 256)
        by (bit_vector);
    assert((len16 >> 8) as u8 == len16 / 256 && len16 as u8 == len16 % 256) by (bit_vector);
    v.set(0, (seq_no >> 24) as u8);
    v.set(1, (seq_no >> 16) as u8);
    v.set(2, (seq_no >> 8) as u8);
    v.set(3, seq_no as u8);
    v.set(4, (len16 >> 8) as u8);
    v.set(5, len16 as u8);
    assert(v@ =~= framed_packet(bytes_view(*packet), seq_no));
    bytes_from_vec(v)
}

/// The first 28 bytes of `data` (an IPv4 header and 8 bytes after it).
pub fn first_28(data: &[u8]) -> (prefix: [u8; 28])
    requires
        data@.len() >= 28,
    ensures
        prefix@ == data@.subrange(0, 28),
{
    let mut prefix = [0u8; 28];
    let mut i: usize = 0;
    while i < 28
        invariant
            i <= 28,
            data@.len() >= 28,
            forall|k: int| 0 <= k < i ==> prefix@[k] == data@[k],
        decreases 28 - i,
    {
        prefix[i] = data[i];
        i = i + 1;
    }
    assert(prefix@ =~= data@.subrange(0, 28));
    prefix
}

} // verus!
