pub mod framing;
pub mod helper;
pub mod socket_strategy;
pub mod types;

use crate::buffer::{bytes_as_slice, bytes_copy_from_slice, bytes_view};
use crate::manager::framing::{first_28, frame_packet, framed_packet};
use crate::manager::helper::{
    code_byte, generate_icmp_no_route_to_host_reply, icmp_reply_spec,
    ICMPDestinationUnreachableCode,
};
use crate::manager::socket_strategy::{next_sequence_no, ConnectionBackend};
use crate::manager::types::{end_point_addrs, Config};
use crate::net::IpAddr;
use crate::reconcile::{
    keys_after, lemma_sync_plan_idempotent, lemma_sync_plan_reconciles, no_duplicate_keys,
    plan_sync, sync_plan, SyncStep,
};
use crate::types::{HeaderAllocatedPayload, HEADER_LEN};
use vstd::prelude::*;

verus! {

/// Picks the channel for the next packet handed to the TUN queues, in turn.
pub struct TxRoundRobin {
    tx_cnt: usize,
}

impl TxRoundRobin {
    #[verifier::type_invariant]
    spec fn below_max(self) -> bool {
        self.tx_cnt < usize::MAX
    }

    /// The index picked last (0 before the first pick).
    pub closed spec fn last(&self) -> usize {
        self.tx_cnt
    }

    /// A cursor that has picked nothing yet.
    pub fn new() -> (cursor: Self)
        ensures
            cursor.last() == 0,
    {
        TxRoundRobin { tx_cnt: 0 }
    }

    /// Picks the index, among `tx_len` channels, that follows the one picked
    /// last; with no channel there is nothing to pick.
    pub fn next_target(&mut self, tx_len: usize) -> (target: Option<usize>)
        ensures
            tx_len == 0 ==> target is None && final(self).last() == old(self).last(),
            tx_len > 0 ==> target == Some(final(self).last()) && final(self).last()
                == round_robin_step(old(self).last() as int, tx_len as int),
    {
        proof {
            use_type_invariant(&*self);
        }
        if tx_len == 0 {
            return None;
        }
        self.tx_cnt = (self.tx_cnt + 1) % tx_len;
        Some(self.tx_cnt)
    }
}

/// The index a cursor that picked `last` picks next among `tx_len` channels.
pub open spec fn round_robin_step(last: int, tx_len: int) -> int {
    (last + 1) % tx_len
}

/// The index picked last after `k` more picks, among `tx_len` channels, by a
/// cursor that picked `last`: `round_robin_step` taken `k` times.
pub open spec fn last_after(last: int, tx_len: int, k: nat) -> int
    decreases k,
{
    if k == 0 {
        last
    } else {
        round_robin_step(last_after(last, tx_len, (k - 1) as nat), tx_len)
    }
}

/// `(base + k) % n`, the `k`-th value of the window of `n` residues from `base`.
spec fn window_at(base: int, k: int, n: int) -> int {
    (base + k) % n
}

/// Some value of the window of `n` residues from `base` is `i`.
spec fn window_covers(base: int, i: int, n: int) -> bool {
    exists|k: int| 0 <= k < n && #[trigger] window_at(base, k, n) == i
}

/// The `n` values `(base + k) % n`, for `k` from 0 below `n`, are distinct
/// and are all of `0..n`.
proof fn lemma_mod_window(base: int, n: int)
    requires
        0 <= base,
        n > 0,
    ensures
        forall|k1: int, k2: int|
            0 <= k1 < k2 < n ==> #[trigger] window_at(base, k1, n) != #[trigger] window_at(base, k2, n),
        forall|i: int| 0 <= i < n ==> #[trigger] window_covers(base, i, n),
{
    assert forall|k1: int, k2: int| 0 <= k1 < k2 < n implies #[trigger] window_at(base, k1, n)
        != #[trigger] window_at(base, k2, n) by {
        let (a, b) = (base + k1, base + k2);
        if a % n == b % n {
            vstd::arithmetic::div_mod::lemma_fundamental_div_mod(a, n);
            vstd::arithmetic::div_mod::lemma_fundamental_div_mod(b, n);
            assert(b - a == n * (b / n - a / n)) by (nonlinear_arith)
                requires
                    a == n * (a / n) + a % n,
                    b == n * (b / n) + b % n,
                    a % n == b % n,
            ;
            assert(false) by (nonlinear_arith)
                requires
                    b - a == n * (b / n - a / n),
                    0 < b - a < n,
            ;
        }
    }
    assert forall|i: int| 0 <= i < n implies #[trigger] window_covers(base, i, n) by {
        vstd::arithmetic::div_mod::lemma_mod_bound(base, n);
        let s = base % n;
        let k = if i >= s {
            i - s
        } else {
            i - s + n
        };
        vstd::arithmetic::div_mod::lemma_add_mod_noop(base, k, n);
        vstd::arithmetic::div_mod::lemma_small_mod(k as nat, n as nat);
        if i >= s {
            vstd::arithmetic::div_mod::lemma_small_mod(i as nat, n as nat);
        } else {
            vstd::arithmetic::div_mod::lemma_mod_add_multiples_vanish(i, n);
            vstd::arithmetic::div_mod::lemma_small_mod(i as nat, n as nat);
        }
        assert(window_at(base, k, n) == i);
    }
}

/// Channel `i` is picked within the `tx_len` picks that follow a pick of `last`.
pub open spec fn picked_within(last: int, i: int, tx_len: int) -> bool {
    exists|j: nat| 1 <= j <= tx_len && #[trigger] last_after(last, tx_len, j) == i
}

/// After `k` picks from `last < tx_len`, the cursor stands at `(last + k) % tx_len`.
proof fn lemma_last_after(last: int, tx_len: int, k: nat)
    requires
        0 <= last < tx_len,
    ensures
        last_after(last, tx_len, k) == (last + k) % tx_len,
    decreases k,
{
    if k == 0 {
        vstd::arithmetic::div_mod::lemma_small_mod(last as nat, tx_len as nat);
    } else {
        lemma_last_after(last, tx_len, (k - 1) as nat);
        vstd::arithmetic::div_mod::lemma_add_mod_noop_right(1, last + k - 1, tx_len);
    }
}

/// Round robin over an unchanged list of `tx_len` channels, from a cursor that
/// picked `last < tx_len`: pick `j` (counting from 1) is channel
/// `(last + j) % tx_len`; the `tx_len` consecutive picks reach every channel
/// exactly once, and the cursor ends where it started.  Each pick is one call
/// of `TxRoundRobin::next_target`, whose contract is `round_robin_step`.
pub proof fn lemma_round_robin_visits_each_once(last: int, tx_len: int)
    requires
        0 <= last < tx_len,
    ensures
        forall|j: nat| #[trigger] last_after(last, tx_len, j) == (last + j) % tx_len,
        forall|j1: nat, j2: nat|
            1 <= j1 < j2 <= tx_len ==> #[trigger] last_after(last, tx_len, j1) != #[trigger] last_after(
                last,
                tx_len,
                j2,
            ),
        forall|i: int| 0 <= i < tx_len ==> #[trigger] picked_within(last, i, tx_len),
        last_after(last, tx_len, tx_len as nat) == last,
{
    assert forall|j: nat| #[trigger] last_after(last, tx_len, j) == (last + j) % tx_len by {
        lemma_last_after(last, tx_len, j);
    }
    lemma_mod_window(last + 1, tx_len);
    assert forall|j1: nat, j2: nat| 1 <= j1 < j2 <= tx_len implies #[trigger] last_after(
        last,
        tx_len,
        j1,
    ) != #[trigger] last_after(last, tx_len, j2) by {
        assert(window_at(last + 1, j1 - 1, tx_len) != window_at(last + 1, j2 - 1, tx_len));
    }
    assert forall|i: int| 0 <= i < tx_len implies #[trigger] picked_within(last, i, tx_len) by {
        assert(window_covers(last + 1, i, tx_len));
        let k = choose|k: int| 0 <= k < tx_len && #[trigger] window_at(last + 1, k, tx_len) == i;
        let j = (k + 1) as nat;
        assert(last_after(last, tx_len, j) == i);
    }
    vstd::arithmetic::div_mod::lemma_mod_add_multiples_vanish(last, tx_len);
    vstd::arithmetic::div_mod::lemma_small_mod(last as nat, tx_len as nat);
}

/// What to do with a packet read from the TUN device.
pub enum SendPlan {
    /// Send this framed packet over the peer's links.
    Transmit(bytes::Bytes),
    /// Nothing can carry the packet: hand this ICMP reply back to the TUN device.
    Reply(bytes::Bytes),
}

/// An ICMP destination-unreachable reply, with reason `code`, quoting the
/// first 28 bytes of `packet`.
pub fn unreachable_reply(packet: &bytes::Bytes, code: ICMPDestinationUnreachableCode) -> (reply:
    bytes::Bytes)
    requires
        bytes_view(*packet).len() >= 28,
    ensures
        bytes_view(reply) == icmp_reply_spec(bytes_view(*packet).subrange(0, 28), code_byte(code)),
{
    let original = first_28(bytes_as_slice(packet));
    let data = generate_icmp_no_route_to_host_reply(original, code);
    bytes_copy_from_slice(data.as_slice())
}

/// Decides what becomes of `payload`, a packet read from the TUN device for
/// tunnel address `addr`, whose peer connection is `backend` (if one is open).
/// A packet for an address with no configured end point is answered with
/// "host unknown"; one with a configured end point but no open connection
/// with "source route failed"; otherwise the packet takes the connection's
/// next sequence number and goes out framed with it.
pub fn send_packet(
    config: &Config,
    addr: &IpAddr,
    backend: Option<&mut ConnectionBackend>,
    payload: HeaderAllocatedPayload<bytes::Bytes>,
) -> (plan: SendPlan)
    requires
        !end_point_addrs(config.end_points@).contains(*addr) || backend is None ==> bytes_view(
            payload.0,
        ).len() >= 28,
        bytes_view(payload.0).len() >= HEADER_LEN,
    ensures
        !end_point_addrs(config.end_points@).contains(*addr) ==> {
            &&& plan matches SendPlan::Reply(r) && bytes_view(r) == icmp_reply_spec(
                bytes_view(payload.0).subrange(0, 28),
                code_byte(ICMPDestinationUnreachableCode::DestinationHostUnknown),
            )
            &&& backend matches Some(b) ==> *final(b) == *b
        },
        end_point_addrs(config.end_points@).contains(*addr) && backend is None ==> (
        plan matches SendPlan::Reply(r) && bytes_view(r) == icmp_reply_spec(
            bytes_view(payload.0).subrange(0, 28),
            code_byte(ICMPDestinationUnreachableCode::SourceRouteFailed),
        )),
        end_point_addrs(config.end_points@).contains(*addr) ==> (backend matches Some(b) ==> {
            &&& final(b).sequence_no() == next_sequence_no(b.sequence_no())
            &&& final(b).secret() == b.secret()
            &&& plan matches SendPlan::Transmit(f) && bytes_view(f) == framed_packet(
                bytes_view(payload.0),
                final(b).sequence_no(),
            )
        }),
{
    let packet = payload.0;
    if !config.contains_end_point(addr) {
        return SendPlan::Reply(
            unreachable_reply(&packet, ICMPDestinationUnreachableCode::DestinationHostUnknown),
        );
    }
    match backend {
        Some(b) => {
            let seq_no = b.get_sequence_no();
            SendPlan::Transmit(frame_packet(&packet, seq_no))
        },
        None => SendPlan::Reply(
            unreachable_reply(&packet, ICMPDestinationUnreachableCode::SourceRouteFailed),
        ),
    }
}

/// The reply for a framed packet that the peer's links did not take (no link
/// is open): "host unknown", quoting the first 28 bytes of the framed packet.
pub fn transmit_failed_reply(framed: &bytes::Bytes) -> (reply: bytes::Bytes)
    requires
        bytes_view(*framed).len() >= 28,
    ensures
        bytes_view(reply) == icmp_reply_spec(
            bytes_view(*framed).subrange(0, 28),
            code_byte(ICMPDestinationUnreachableCode::DestinationHostUnknown),
        ),
{
    unreachable_reply(framed, ICMPDestinationUnreachableCode::DestinationHostUnknown)
}

/// Plans how the open peer connections (keyed by tunnel address, listed in
/// `connected`) change to match the configured end points: connections
/// whose address is still configured are kept and reloaded, the others are
/// shut down and removed, and configured addresses without a connection get
/// a new one.
pub fn revalidate_connection(connected: &Vec<IpAddr>, config: &Config) -> (steps: Vec<SyncStep>)
    ensures
        steps@ == sync_plan(connected@, end_point_addrs(config.end_points@)),
        no_duplicate_keys(end_point_addrs(config.end_points@)),
{
    let configured = config.end_point_keys();
    plan_sync(connected, &configured)
}

/// Revalidating twice changes nothing the second time: once the plan for the
/// connected addresses has been carried out, the connections that remain are
/// exactly the configured addresses, and a second plan over them (listed in
/// any order without repeats) keeps every connection.
pub proof fn lemma_revalidate_idempotent(
    connected: Seq<IpAddr>,
    configured: Seq<IpAddr>,
    reconnected: Seq<IpAddr>,
)
    requires
        connected.len() <= usize::MAX,
        configured.len() <= usize::MAX,
        reconnected.len() <= usize::MAX,
        no_duplicate_keys(configured),
        no_duplicate_keys(reconnected),
        reconnected.to_set() == keys_after(connected, configured, sync_plan(connected, configured)),
    ensures
        forall|k: int|
            0 <= k < sync_plan(reconnected, configured).len() ==> (#[trigger] sync_plan(
                reconnected,
                configured,
            )[k]) is Keep,
{
    lemma_sync_plan_reconciles(connected, configured);
    lemma_sync_plan_idempotent(reconnected, configured);
}

} // verus!
