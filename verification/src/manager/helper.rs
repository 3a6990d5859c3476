use vstd::prelude::*;
use vstd::slice::slice_subrange;

verus! {

/// The 16-bit big-endian word made of two bytes.
pub open spec fn be_word(hi: u8, lo: u8) -> nat {
    hi as nat * 256 + lo as nat
}

/// Sum of the big-endian 16-bit words of `data` (a trailing odd byte is ignored).
pub open spec fn word_sum(data: Seq<u8>) -> nat
    decreases data.len(),
{
    if data.len() < 2 {
        0
    } else {
        word_sum(data.take(data.len() - 2)) + be_word(data[data.len() - 2], data[data.len() - 1])
    }
}

/// End-around-carry folding of a sum into 16 bits.
pub open spec fn fold16(s: nat) -> nat
    decreases s,
{
    if s < 65536 {
        s
    } else {
        proof {
            lemma_fold_step_decreases(s);
        }
        fold16(s % 65536 + s / 65536)
    }
}

pub proof fn lemma_fold_step_decreases(s: nat)
    requires
        s >= 65536,
    ensures
        s % 65536 + s / 65536 < s,
{
    assert(s % 65536 + s / 65536 < s) by (nonlinear_arith)
        requires
            s >= 65536,
    {
        assert(s == 65536 * (s / 65536) + s % 65536);
        assert(s / 65536 >= 1);
    }
}

/// The Internet checksum (RFC 1071) of `data`: the ones' complement of the
/// folded sum of its 16-bit words, the word sum taken modulo 2^32.
pub open spec fn checksum_spec(data: Seq<u8>) -> int {
    65535 - fold16(word_sum(data) % 0x1_0000_0000)
}

pub proof fn lemma_fold16_bound(s: nat)
    ensures
        fold16(s) <= 65535,
    decreases s,
{
    if s >= 65536 {
        lemma_fold_step_decreases(s);
        lemma_fold16_bound(s % 65536 + s / 65536);
    }
}

/// Computes the Internet checksum of `data`, a sequence of 16-bit words.
pub fn compute_checksum(data: &[u8]) -> (checksum: u16)
    requires
        data@.len() % 2 == 0,
    ensures
        checksum == checksum_spec(data@),
{
    let mut sum: u32 = 0;
    let mut i: usize = 0;
    while i < data.len()
        invariant
            i <= data@.len(),
            i % 2 == 0,
            data@.len() % 2 == 0,
            sum == word_sum(data@.take(i as int)) % 0x1_0000_0000,
        decreases data@.len() - i,
    {
        let hi = data[i];
        let lo = data[i + 1];
        let word: u32 = (hi as u32) * 256 + (lo as u32);
        proof {
            let next = data@.take(i + 2);
            assert(next.take(next.len() - 2) =~= data@.take(i as int));
            assert(word_sum(next) == word_sum(data@.take(i as int)) + be_word(hi, lo));
        }
        sum = sum.wrapping_add(word);
        i = i + 2;
    }
    assert(data@.take(i as int) =~= data@);
    let ghost total = sum as nat;
    while sum >= 65536
        invariant
            fold16(sum as nat) == fold16(total),
        decreases sum,
    {
        let ghost before = sum as nat;
        assert((sum & 0xffff) == sum % 65536 && (sum >> 16) == sum / 65536) by (bit_vector);
        proof {
            lemma_fold_step_decreases(before);
        }
        sum = (sum & 0xffff) + (sum >> 16);
    }
    let folded: u16 = sum as u16;
    assert(!folded == 65535 - folded) by (bit_vector);
    proof {
        lemma_fold16_bound(total);
    }
    !folded
}


/// ICMP "destination unreachable" codes used in replies.
#[derive(Clone, Copy, Debug, PartialEq, Eq)]
pub enum ICMPDestinationUnreachableCode {
    DestinationNetworkUnreachable,
    DestinationHostUnreachable,
    SourceRouteFailed,
    DestinationHostUnknown,
}

/// The code byte that ICMP assigns to each reason.
pub open spec fn code_byte(code: ICMPDestinationUnreachableCode) -> u8 {
    match code {
        ICMPDestinationUnreachableCode::DestinationNetworkUnreachable => 0,
        ICMPDestinationUnreachableCode::DestinationHostUnreachable => 1,
        ICMPDestinationUnreachableCode::SourceRouteFailed => 5,
        ICMPDestinationUnreachableCode::DestinationHostUnknown => 7,
    }
}

impl ICMPDestinationUnreachableCode {
    /// The code byte of this reason, as it stands in the ICMP header.
    pub fn as_u8(&self) -> (byte: u8)
        ensures
            byte == code_byte(*self),
    {
        match self {
            ICMPDestinationUnreachableCode::DestinationNetworkUnreachable => 0,
            ICMPDestinationUnreachableCode::DestinationHostUnreachable => 1,
            ICMPDestinationUnreachableCode::SourceRouteFailed => 5,
            ICMPDestinationUnreachableCode::DestinationHostUnknown => 7,
        }
    }
}

/// Length of an ICMP destination-unreachable reply built here: a 20-byte IPv4
/// header, an 8-byte ICMP header and the 28 quoted bytes.
pub const ICMP_REPLY_LEN: usize = 56;

/// The reply before its two checksum fields are filled: IPv4 header
/// (version 4, IHL 5, total length 56, TTL 64, protocol ICMP,
/// 172.29.0.1 -> 172.29.0.2), ICMP type 3 with `code`, then `original`.
pub open spec fn reply_template(original: Seq<u8>, code: u8) -> Seq<u8> {
    seq![
        0x45u8, 0x00u8, 0x00u8, 56u8, 0x00u8, 0x00u8, 0x00u8, 0x00u8, 0x40u8, 0x01u8,
        0x00u8, 0x00u8, 172u8, 29u8, 0u8, 1u8, 172u8, 29u8, 0u8, 2u8,
        0x03u8, code, 0x00u8, 0x00u8, 0x00u8, 0x00u8, 0x00u8, 0x00u8,
    ] + original
}

/// Every reply is an IPv4 packet of 56 bytes (version 4, header of 5 words,
/// no fragmenting, TTL 64) carrying ICMP (protocol 1) from 172.29.0.1 to
/// 172.29.0.2, of type 3 (destination unreachable) with the unused word zero,
/// whatever packet it quotes and whatever its code; only the code byte, the
/// two checksums and the quoted bytes vary.
pub proof fn lemma_reply_fixed_fields(original: Seq<u8>, code: u8)
    requires
        original.len() == 28,
    ensures
        icmp_reply_spec(original, code).len() == 56,
        icmp_reply_spec(original, code).subrange(0, 10) == seq![
            0x45u8,
            0x00,
            0x00,
            0x38,
            0x00,
            0x00,
            0x00,
            0x00,
            0x40,
            0x01,
        ],
        icmp_reply_spec(original, code)[9] == 1,
        icmp_reply_spec(original, code).subrange(12, 20) == seq![
            0xacu8,
            0x1d,
            0x00,
            0x01,
            0xac,
            0x1d,
            0x00,
            0x02,
        ],
        icmp_reply_spec(original, code)[20] == 3,
        icmp_reply_spec(original, code)[21] == code,
        icmp_reply_spec(original, code).subrange(24, 28) == seq![0u8, 0, 0, 0],
        icmp_reply_spec(original, code).subrange(28, 56) == original,
{
    let r = icmp_reply_spec(original, code);
    assert(r.subrange(0, 10) =~= seq![0x45u8, 0x00, 0x00, 0x38, 0x00, 0x00, 0x00, 0x00, 0x40, 0x01]);
    assert(r.subrange(12, 20) =~= seq![0xacu8, 0x1d, 0x00, 0x01, 0xac, 0x1d, 0x00, 0x02]);
    assert(r.subrange(24, 28) =~= seq![0u8, 0, 0, 0]);
    assert(r.subrange(28, 56) =~= original);
}

/// Stores the 16-bit value `v` big-endian at positions `at` and `at + 1`.
pub open spec fn put_be16(s: Seq<u8>, at: int, v: int) -> Seq<u8> {
    s.update(at, (v / 256) as u8).update(at + 1, (v % 256) as u8)
}

/// The complete reply: the ICMP checksum over bytes 20..56 goes to bytes
/// 22..24, then the IPv4 header checksum over bytes 0..20 to bytes 10..12.
pub open spec fn icmp_reply_spec(original: Seq<u8>, code: u8) -> Seq<u8> {
    let t = reply_template(original, code);
    let with_icmp = put_be16(t, 22, checksum_spec(t.subrange(20, 56)));
    put_be16(with_icmp, 10, checksum_spec(with_icmp.subrange(0, 20)))
}

/// The two bytes of `v`, most significant first.
pub fn split_be16(v: u16) -> (bytes: (u8, u8))
    ensures
        bytes.0 == v / 256,
        bytes.1 == v % 256,
{
    assert((v >> 8) as u8 == v / 256 && (v & 0xff) as u8 == v % 256) by (bit_vector);
    ((v >> 8) as u8, (v & 0xff) as u8)
}

/// Builds an ICMP "destination unreachable" reply (code `code`) that quotes
/// `original`, the first 28 bytes of the packet that could not be delivered.
pub fn generate_icmp_no_route_to_host_reply(
    original: [u8; 28],
    code: ICMPDestinationUnreachableCode,
) -> (packet: [u8; 56])
    ensures
        packet@ == icmp_reply_spec(original@, code_byte(code)),
        packet@.subrange(28, 56) == original@,
        packet@[21] == code_byte(code),
        packet@.subrange(0, 10) == seq![0x45u8, 0x00, 0x00, 0x38, 0x00, 0x00, 0x00, 0x00, 0x40, 0x01],
        packet@.subrange(12, 20) == seq![0xacu8, 0x1d, 0x00, 0x01, 0xac, 0x1d, 0x00, 0x02],
        packet@[20] == 3,
        packet@.subrange(24, 28) == seq![0u8, 0, 0, 0],
{
    proof {
        lemma_reply_fixed_fields(original@, code_byte(code));
    }
    let mut packet = [0u8; 56];
    let code_value = code.as_u8();

    // IPv4 header
    packet[0] = 0x45;
    packet[1] = 0x00;
    packet[2] = 0x00;
    packet[3] = 56;
    packet[4] = 0x00;
    packet[5] = 0x00;
    packet[6] = 0x00;
    packet[7] = 0x00;
    packet[8] = 0x40;
    packet[9] = 0x01;
    packet[10] = 0x00;
    packet[11] = 0x00;
    packet[12] = 172;
    packet[13] = 29;
    packet[14] = 0;
    packet[15] = 1;
    packet[16] = 172;
    packet[17] = 29;
    packet[18] = 0;
    packet[19] = 2;

    // ICMP header
    packet[20] = 0x03;
    packet[21] = code_value;
    packet[22] = 0x00;
    packet[23] = 0x00;
    packet[24] = 0x00;
    packet[25] = 0x00;
    packet[26] = 0x00;
    packet[27] = 0x00;

    // the quoted bytes of the original packet
    let mut k: usize = 0;
    while k < 28
        invariant
            k <= 28,
            forall|j: int| 0 <= j < 28 ==> packet@[j] == reply_template(original@, code_byte(code))[j],
            forall|j: int| 0 <= j < k ==> packet@[28 + j] == original@[j],
        decreases 28 - k,
    {
        packet[28 + k] = original[k];
        k = k + 1;
    }
    let ghost t = reply_template(original@, code_byte(code));
    assert(packet@ =~= t);

    let checksum = compute_checksum(slice_subrange(packet.as_slice(), 20, 56));
    let (hi, lo) = split_be16(checksum);
    packet[22] = hi;
    packet[23] = lo;
    let ghost with_reply_sum = put_be16(t, 22, checksum_spec(t.subrange(20, 56)));
    assert(packet@ =~= with_reply_sum);

    let header_checksum = compute_checksum(slice_subrange(packet.as_slice(), 0, 20));
    let (hi, lo) = split_be16(header_checksum);
    packet[10] = hi;
    packet[11] = lo;
    assert(packet@ =~= put_be16(with_reply_sum, 10, checksum_spec(with_reply_sum.subrange(0, 20))));
    packet
}

/// Replacing the word at even offset `at` by `v` changes the word sum by the difference.
pub proof fn lemma_word_sum_put(data: Seq<u8>, at: int, v: int)
    requires
        data.len() % 2 == 0,
        0 <= at,
        at + 1 < data.len(),
        at % 2 == 0,
        0 <= v < 65536,
    ensures
        word_sum(put_be16(data, at, v)) + be_word(data[at], data[at + 1]) == word_sum(data) + v,
    decreases data.len(),
{
    let n = data.len();
    let d2 = put_be16(data, at, v);
    assert(be_word((v / 256) as u8, (v % 256) as u8) == v);
    if at == n - 2 {
        assert(d2.take(n - 2) =~= data.take(n - 2));
    } else {
        let front = data.take(n - 2);
        assert(d2.take(n - 2) =~= put_be16(front, at, v));
        lemma_word_sum_put(front, at, v);
    }
}

/// Each word is at most 65535, so the word sum is at most 65535 per word.
pub proof fn lemma_word_sum_bound(data: Seq<u8>)
    ensures
        word_sum(data) <= (data.len() / 2) * 65535,
    decreases data.len(),
{
    if data.len() >= 2 {
        let front = data.take(data.len() - 2);
        lemma_word_sum_bound(front);
        assert(front.len() / 2 + 1 == data.len() / 2);
        assert((front.len() / 2) * 65535 + 65535 == (data.len() / 2) * 65535) by (nonlinear_arith)
            requires
                front.len() / 2 + 1 == data.len() / 2,
        ;
    }
}

/// Folding keeps the value modulo 65535 and yields zero only from zero.
pub proof fn lemma_fold16_mod(s: nat)
    ensures
        fold16(s) % 65535 == s % 65535,
        fold16(s) <= 65535,
        s > 0 ==> fold16(s) > 0,
    decreases s,
{
    lemma_fold16_bound(s);
    if s >= 65536 {
        let q = s / 65536;
        let r = s % 65536;
        lemma_fold_step_decreases(s);
        assert(s == 65536 * q + r && q >= 1) by (nonlinear_arith)
            requires
                s >= 65536,
                q == s / 65536,
                r == s % 65536,
        ;
        assert((q + r) % 65535 == s % 65535) by (nonlinear_arith)
            requires
                s == 65536 * q + r,
                q >= 1,
                r >= 0,
        {
            assert(s == (q + r) + 65535 * q);
            vstd::arithmetic::div_mod::lemma_mod_multiples_vanish(q as int, (q + r) as int, 65535);
        }
        lemma_fold16_mod(q + r);
    }
}

/// Adding the complement of its fold to a sum gives a sum that folds to 0xffff.
pub proof fn lemma_add_complement_folds_to_ones(s: nat)
    requires
        s + 65535 < 0x1_0000_0000,
    ensures
        fold16((s + (65535 - fold16(s))) as nat) == 65535,
{
    lemma_fold16_mod(s);
    let f = fold16(s);
    let s2 = (s + (65535 - f)) as nat;
    lemma_fold16_mod(s2);
    assert(s2 % 65535 == 0) by {
        assert(s2 == (s - f) + 65535);
        vstd::arithmetic::div_mod::lemma_mod_add_multiples_vanish((s - f) as int, 65535);
        vstd::arithmetic::div_mod::lemma_mod_equivalence(s as int, f as int, 65535);
    }
    assert(s2 > 0);
    assert(fold16(s2) == 65535) by {
        let g = fold16(s2);
        assert(0 < g <= 65535 && g % 65535 == 0);
        if g < 65535 {
            vstd::arithmetic::div_mod::lemma_small_mod(g, 65535);
        }
    }
}

/// A block whose zeroed checksum field is filled with the block's checksum
/// checks out: its checksum computes to zero.
pub proof fn lemma_filled_checksum_verifies(data: Seq<u8>, at: int)
    requires
        data.len() % 2 == 0,
        data.len() <= 65536,
        0 <= at,
        at + 1 < data.len(),
        at % 2 == 0,
        data[at] == 0,
        data[at + 1] == 0,
    ensures
        checksum_spec(put_be16(data, at, checksum_spec(data))) == 0,
{
    let s = word_sum(data);
    lemma_word_sum_bound(data);
    assert(s + 65535 < 0x1_0000_0000) by (nonlinear_arith)
        requires
            s <= (data.len() / 2) * 65535,
            data.len() <= 65536,
    ;
    assert(s % 0x1_0000_0000 == s) by {
        vstd::arithmetic::div_mod::lemma_small_mod(s, 0x1_0000_0000);
    }
    lemma_fold16_bound(s);
    let c = 65535 - fold16(s);
    assert(checksum_spec(data) == c);
    lemma_word_sum_put(data, at, c);
    let s2 = word_sum(put_be16(data, at, c));
    assert(s2 == s + c);
    assert(s2 % 0x1_0000_0000 == s2) by {
        vstd::arithmetic::div_mod::lemma_small_mod(s2, 0x1_0000_0000);
    }
    lemma_add_complement_folds_to_ones(s);
}

/// Both checksums of a generated reply check out: the ICMP message (bytes
/// 20..56) and the IPv4 header (bytes 0..20) each compute to checksum zero.
pub proof fn lemma_reply_checksums_verify(original: Seq<u8>, code: u8)
    requires
        original.len() == 28,
    ensures
        checksum_spec(icmp_reply_spec(original, code).subrange(20, 56)) == 0,
        checksum_spec(icmp_reply_spec(original, code).subrange(0, 20)) == 0,
{
    let t = reply_template(original, code);
    let body = t.subrange(20, 56);
    let c1 = checksum_spec(body);
    lemma_fold16_mod(word_sum(body) % 0x1_0000_0000);
    let with_reply_sum = put_be16(t, 22, c1);
    assert(with_reply_sum.subrange(20, 56) =~= put_be16(body, 2, c1));
    lemma_filled_checksum_verifies(body, 2);
    let header = with_reply_sum.subrange(0, 20);
    let c2 = checksum_spec(header);
    lemma_fold16_mod(word_sum(header) % 0x1_0000_0000);
    let r = put_be16(with_reply_sum, 10, c2);
    assert(r == icmp_reply_spec(original, code));
    assert(r.subrange(20, 56) =~= with_reply_sum.subrange(20, 56));
    assert(r.subrange(0, 20) =~= put_be16(header, 10, c2));
    lemma_filled_checksum_verifies(header, 10);
}

/// The 16-bit big-endian words of `data`, in order.
pub open spec fn words(data: Seq<u8>) -> Seq<nat> {
    Seq::new(data.len() / 2, |k: int| be_word(data[2 * k], data[2 * k + 1]))
}

/// The sum of a sequence of numbers.
pub open spec fn seq_sum(s: Seq<nat>) -> nat
    decreases s.len(),
{
    if s.len() == 0 {
        0
    } else {
        seq_sum(s.drop_last()) + s.last()
    }
}

/// The words of `data` that are not zero, in order.
pub open spec fn nonzero_words(data: Seq<u8>) -> Seq<nat> {
    words(data).filter(|w: nat| w != 0)
}

proof fn lemma_word_sum_is_sum_of_words(data: Seq<u8>)
    requires
        data.len() % 2 == 0,
    ensures
        word_sum(data) == seq_sum(words(data)),
    decreases data.len(),
{
    if data.len() >= 2 {
        let front = data.take(data.len() - 2);
        lemma_word_sum_is_sum_of_words(front);
        assert(words(data).drop_last() =~= words(front));
    } else {
        assert(words(data) =~= Seq::<nat>::empty());
    }
}

proof fn lemma_seq_sum_remove(s: Seq<nat>, i: int)
    requires
        0 <= i < s.len(),
    ensures
        seq_sum(s) == seq_sum(s.remove(i)) + s[i],
    decreases s.len(),
{
    if i == s.len() - 1 {
        assert(s.remove(i) =~= s.drop_last());
    } else {
        lemma_seq_sum_remove(s.drop_last(), i);
        assert(s.remove(i).drop_last() =~= s.drop_last().remove(i));
        assert(s.remove(i).last() == s.last());
    }
}

proof fn lemma_seq_sum_permutation(s: Seq<nat>, t: Seq<nat>)
    requires
        s.to_multiset() == t.to_multiset(),
    ensures
        seq_sum(s) == seq_sum(t),
    decreases s.len(),
{
    broadcast use vstd::seq_lib::group_to_multiset_ensures;
    broadcast use vstd::multiset::group_multiset_axioms;

    if s.len() == 0 {
        assert(t.to_multiset().len() == 0);
        assert(t.len() == 0);
    } else {
        let x = s.last();
        let front = s.drop_last();
        assert(front.push(x) =~= s);
        assert(s.to_multiset() == front.to_multiset().insert(x));
        assert(t.to_multiset().count(x) > 0);
        assert(t.contains(x));
        let i = choose|i: int| 0 <= i < t.len() && t[i] == x;
        let rest = t.remove(i);
        assert(rest.to_multiset() == t.to_multiset().remove(x));
        assert(front.to_multiset() =~= rest.to_multiset());
        lemma_seq_sum_permutation(front, rest);
        lemma_seq_sum_remove(t, i);
    }
}

proof fn lemma_seq_sum_without_zeros(s: Seq<nat>)
    ensures
        seq_sum(s.filter(|w: nat| w != 0)) == seq_sum(s),
    decreases s.len(),
{
    reveal_with_fuel(Seq::filter, 1);
    if s.len() > 0 {
        lemma_seq_sum_without_zeros(s.drop_last());
        let f = s.filter(|w: nat| w != 0);
        let g = s.drop_last().filter(|w: nat| w != 0);
        if s.last() != 0 {
            assert(f == g.push(s.last()));
            assert(f.drop_last() =~= g);
        } else {
            assert(f == g);
        }
    }
}

/// The checksum depends only on which nonzero words the data holds, each
/// with its number of occurrences: reordering the words, or adding and
/// removing zero words, leaves it unchanged.
pub proof fn lemma_checksum_word_order(d1: Seq<u8>, d2: Seq<u8>)
    requires
        d1.len() % 2 == 0,
        d2.len() % 2 == 0,
        nonzero_words(d1).to_multiset() == nonzero_words(d2).to_multiset(),
    ensures
        checksum_spec(d1) == checksum_spec(d2),
{
    lemma_word_sum_is_sum_of_words(d1);
    lemma_word_sum_is_sum_of_words(d2);
    lemma_seq_sum_without_zeros(words(d1));
    lemma_seq_sum_without_zeros(words(d2));
    lemma_seq_sum_permutation(nonzero_words(d1), nonzero_words(d2));
}

/// `v` with its two bytes exchanged.
pub open spec fn swap_bytes16(v: int) -> int {
    (v % 256) * 256 + v / 256
}

/// The sum of the high bytes of the words of `data`.
pub open spec fn high_byte_sum(data: Seq<u8>) -> nat
    decreases data.len(),
{
    if data.len() < 2 {
        0
    } else {
        high_byte_sum(data.take(data.len() - 2)) + data[data.len() - 2] as nat
    }
}

/// The sum of the low bytes of the words of `data`.
pub open spec fn low_byte_sum(data: Seq<u8>) -> nat
    decreases data.len(),
{
    if data.len() < 2 {
        0
    } else {
        low_byte_sum(data.take(data.len() - 2)) + data[data.len() - 1] as nat
    }
}

/// `d2` holds the words of `d1` with their bytes exchanged.
pub open spec fn byte_swapped(d1: Seq<u8>, d2: Seq<u8>) -> bool {
    &&& d2.len() == d1.len()
    &&& forall|k: int|
        0 <= k < d1.len() / 2 ==> #[trigger] d2[2 * k] == d1[2 * k + 1] && d2[2 * k + 1] == d1[2 * k]
}

proof fn lemma_swapped_sums(d1: Seq<u8>, d2: Seq<u8>)
    requires
        d1.len() % 2 == 0,
        byte_swapped(d1, d2),
    ensures
        word_sum(d1) == 256 * high_byte_sum(d1) + low_byte_sum(d1),
        word_sum(d2) == 256 * low_byte_sum(d1) + high_byte_sum(d1),
    decreases d1.len(),
{
    if d1.len() >= 2 {
        let n = d1.len() as int;
        let (f1, f2) = (d1.take(n - 2), d2.take(n - 2));
        assert(byte_swapped(f1, f2)) by {
            assert forall|k: int| 0 <= k < f1.len() / 2 implies #[trigger] f2[2 * k] == f1[2 * k + 1]
                && f2[2 * k + 1] == f1[2 * k] by {
                assert(d2[2 * k] == d1[2 * k + 1] && d2[2 * k + 1] == d1[2 * k]);
            }
        }
        lemma_swapped_sums(f1, f2);
        let k = (n - 2) / 2;
        assert(2 * k == n - 2);
        assert(d2[2 * k] == d1[2 * k + 1] && d2[2 * k + 1] == d1[2 * k]);
    }
}

/// Byte-order independence: exchanging the two bytes of every word
/// exchanges the two bytes of the checksum (for data of up to 65537 words,
/// where the word sum does not wrap).
pub proof fn lemma_checksum_byte_swap(d1: Seq<u8>, d2: Seq<u8>)
    requires
        d1.len() % 2 == 0,
        d1.len() <= 131074,
        byte_swapped(d1, d2),
    ensures
        checksum_spec(d2) == swap_bytes16(checksum_spec(d1)),
{
    lemma_swapped_sums(d1, d2);
    lemma_word_sum_bound(d1);
    lemma_word_sum_bound(d2);
    let (a, b) = (high_byte_sum(d1) as int, low_byte_sum(d1) as int);
    let (s1, s2) = (word_sum(d1), word_sum(d2));
    assert(s1 < 0x1_0000_0000 && s2 < 0x1_0000_0000) by (nonlinear_arith)
        requires
            s1 <= (d1.len() / 2) * 65535,
            s2 <= (d2.len() / 2) * 65535,
            d1.len() <= 131074,
            d2.len() == d1.len(),
    ;
    vstd::arithmetic::div_mod::lemma_small_mod(s1, 0x1_0000_0000);
    vstd::arithmetic::div_mod::lemma_small_mod(s2, 0x1_0000_0000);
    lemma_fold16_mod(s1);
    lemma_fold16_mod(s2);
    let (f1, f2) = (fold16(s1) as int, fold16(s2) as int);
    let (q, r) = (f1 / 256, f1 % 256);
    assert(f1 == 256 * q + r && 0 <= r < 256 && 0 <= q <= 255) by (nonlinear_arith)
        requires
            0 <= f1 <= 65535,
            q == f1 / 256,
            r == f1 % 256,
    ;
    assert(swap_bytes16(f1) == 256 * r + q);
    if s1 == 0 {
        assert(a == 0 && b == 0);
        assert(s2 == 0);
    } else {
        assert(s2 > 0);
        // swap(f1) and f2 are both in 1..=65535 and agree modulo 65535
        assert(256 * s1 == 65535 * a + s2);
        assert(256 * f1 == 65535 * q + swap_bytes16(f1));
        assert(f1 % 65535 == s1 % 65535 && f2 % 65535 == s2 % 65535);
        assert((swap_bytes16(f1) - f2) % 65535 == 0) by {
            vstd::arithmetic::div_mod::lemma_fundamental_div_mod(s1 as int, 65535);
            vstd::arithmetic::div_mod::lemma_fundamental_div_mod(f1, 65535);
            vstd::arithmetic::div_mod::lemma_fundamental_div_mod(s2 as int, 65535);
            vstd::arithmetic::div_mod::lemma_fundamental_div_mod(f2, 65535);
            let (k1, k2, k3, k4) = (s1 as int / 65535, f1 / 65535, s2 as int / 65535, f2 / 65535);
            let m = s1 as int % 65535;
            let m2 = s2 as int % 65535;
            assert(swap_bytes16(f1) - f2 == 65535 * (256 * k2 - q - 256 * k1 + a + k3 - k4))
                by (nonlinear_arith)
                requires
                    s1 == 65535 * k1 + m,
                    f1 == 65535 * k2 + m,
                    s2 == 65535 * k3 + m2,
                    f2 == 65535 * k4 + m2,
                    256 * s1 == 65535 * a + s2,
                    256 * f1 == 65535 * q + swap_bytes16(f1),
            ;
            vstd::arithmetic::div_mod::lemma_mod_multiples_basic(
                256 * k2 - q - 256 * k1 + a + k3 - k4,
                65535,
            );
        }
        assert(1 <= swap_bytes16(f1) <= 65535);
        assert(swap_bytes16(f1) == f2) by {
            let d = swap_bytes16(f1) - f2;
            if d != 0 {
                assert(-65535 < d < 65535);
                if d > 0 {
                    vstd::arithmetic::div_mod::lemma_small_mod(d as nat, 65535);
                } else {
                    vstd::arithmetic::div_mod::lemma_fundamental_div_mod(d, 65535);
                    assert(d % 65535 == d + 65535) by (nonlinear_arith)
                        requires
                            d == 65535 * (d / 65535) + d % 65535,
                            0 <= d % 65535 < 65535,
                            -65535 < d < 0,
                    ;
                }
            }
        }
    }
    let c1 = 65535 - f1;
    assert(c1 == 256 * (255 - q) + (255 - r));
    vstd::arithmetic::div_mod::lemma_fundamental_div_mod_converse_mod(c1, 256, 255 - q, 255 - r);
    vstd::arithmetic::div_mod::lemma_fundamental_div_mod_converse_div(c1, 256, 255 - q, 255 - r);
    assert(swap_bytes16(c1) == 65535 - swap_bytes16(f1));
}

} // verus!
