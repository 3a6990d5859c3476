use crate::manager::types::EndPoint;
use crate::net::SocketAddr;
use crate::reconcile::{plan_sync, sync_plan, SyncStep};
use vstd::prelude::*;

verus! {

/// Sequence number that a connection starts counting from; numbers below 10
/// are kept for control messages.
pub const INITIAL_SEQUENCE_NO: u32 = 11;

/// The sequence number that follows `n`: one more, except that after the
/// largest number counting goes on from `INITIAL_SEQUENCE_NO`, so that the
/// numbers kept for control messages never come up.
pub open spec fn next_sequence_no(n: u32) -> u32 {
    if n == u32::MAX {
        INITIAL_SEQUENCE_NO
    } else {
        (n + 1) as u32
    }
}

/// Counting goes up by one from every number below the largest; only after
/// the largest `u32` does it start again, at 11, the first number after those
/// kept for control messages. So a connection numbered from
/// `INITIAL_SEQUENCE_NO` hands out `u32::MAX - 10` distinct numbers before
/// any repeats: the `k`-th number taken is `11 + k` while that fits.
pub proof fn lemma_sequence_numbers_count_up(n: u32, k: nat)
    ensures
        n < u32::MAX ==> next_sequence_no(n) == n + 1,
        n == u32::MAX ==> next_sequence_no(n) == 11,
        11 + k <= u32::MAX ==> numbered_after(k) == 11 + k,
    decreases k,
{
    if k > 0 {
        lemma_sequence_numbers_count_up(n, (k - 1) as nat);
    }
}

/// The last number taken after `k` numbers were taken from a connection just
/// set to `INITIAL_SEQUENCE_NO`.
pub open spec fn numbered_after(k: nat) -> u32
    decreases k,
{
    if k == 0 {
        INITIAL_SEQUENCE_NO
    } else {
        next_sequence_no(numbered_after((k - 1) as nat))
    }
}

/// Per-peer connection state: the sequence number of the last data packet
/// sent and the peer's shared secret.
pub struct ConnectionBackend {
    seq_no: u32,
    secret_key: String,
}

/// The remote addresses of a peer's links, in list order.
pub open spec fn link_targets(links: Seq<(SocketAddr, SocketAddr)>) -> Seq<SocketAddr> {
    links.map_values(|l: (SocketAddr, SocketAddr)| l.1)
}

impl Default for ConnectionBackend {
    fn default() -> (backend: Self)
        ensures
            backend.sequence_no() == 0,
            backend.secret()@ == Seq::<char>::empty(),
    {
        ConnectionBackend { seq_no: 0, secret_key: String::new() }
    }
}

impl ConnectionBackend {
    /// The sequence number of the last data packet sent.
    pub closed spec fn sequence_no(&self) -> u32 {
        self.seq_no
    }

    /// The peer's shared secret.
    pub closed spec fn secret(&self) -> String {
        self.secret_key
    }

    /// The sequence number of the last data packet sent.
    pub fn last_sequence_no(&self) -> (seq_no: u32)
        ensures
            seq_no == self.sequence_no(),
    {
        self.seq_no
    }

    /// Takes the next sequence number (see `next_sequence_no`).
    pub fn get_sequence_no(&mut self) -> (seq_no: u32)
        ensures
            seq_no == next_sequence_no(old(self).sequence_no()),
            old(self).sequence_no() < u32::MAX ==> seq_no == old(self).sequence_no() + 1,
            old(self).sequence_no() == u32::MAX ==> seq_no == 11,
            final(self).sequence_no() == seq_no,
            final(self).secret() == old(self).secret(),
    {
        if self.seq_no == u32::MAX {
            self.seq_no = INITIAL_SEQUENCE_NO;
        } else {
            self.seq_no = self.seq_no + 1;
        }
        self.seq_no
    }

    /// Takes over the settings of end point `ep`, given the remote addresses
    /// of the links that are open now, and plans how the links change: open
    /// links whose remote address `ep` no longer lists are closed, listed links
    /// that are not open yet are opened. A backend without open links starts
    /// numbering from `INITIAL_SEQUENCE_NO`.
    pub fn load_config_and_init(&mut self, open_links: &Vec<SocketAddr>, ep: &EndPoint) -> (steps:
        Vec<SyncStep>)
        ensures
            open_links@.len() == 0 ==> final(self).sequence_no() == INITIAL_SEQUENCE_NO,
            open_links@.len() != 0 ==> final(self).sequence_no() == old(self).sequence_no(),
            final(self).secret()@ == ep.secret_key@,
            steps@ == sync_plan(open_links@, link_targets(ep.addr@)),
    {
        if open_links.len() == 0 {
            self.seq_no = INITIAL_SEQUENCE_NO;
        }
        self.secret_key = ep.secret_key.clone();
        let mut targets: Vec<SocketAddr> = Vec::new();
        let mut i: usize = 0;
        while i < ep.addr.len()
            invariant
                i <= ep.addr@.len(),
                targets@ == link_targets(ep.addr@).take(i as int),
            decreases ep.addr@.len() - i,
        {
            targets.push(ep.addr[i].1);
            i = i + 1;
            assert(targets@ =~= link_targets(ep.addr@).take(i as int));
        }
        assert(targets@ =~= link_targets(ep.addr@));
        plan_sync(open_links, &targets)
    }
}

} // verus!
