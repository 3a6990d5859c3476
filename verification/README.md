# esm

A TUN-device tunnelling daemon whose packet handling and decisions are
verified with Verus.

- `src/` — the verified library:
  - `manager/helper.rs`: the Internet checksum and ICMP "destination
    unreachable" replies, with the proof that every reply's IPv4 and ICMP
    checksums check out;
  - `manager/framing.rs`: the tunnel header (sequence number and length)
    written in front of each packet;
  - `manager/mod.rs`: what becomes of a packet read from the TUN device, the
    round-robin choice of TUN queue, the revalidation plan of peer connections;
  - `manager/socket_strategy.rs`: per-peer sequence numbers and link plans;
  - `manager/types.rs`: the configuration and its defaults;
  - `reconcile.rs`: stable sorting and the sorted merge that plans how live
    entries are brought in line with wanted ones, with its reconciliation laws;
  - `tun/mod.rs`: slicing IP headers (via `etherparse`) to find a packet's
    destination;
  - `network/`: the overlay router's routing groups and connection table;
  - `buffer.rs`: the `bytes` buffers as byte sequences.
- `app/` — the program: tokio runtime, channels, UDP sockets and the TUN device.
- `tests/` — tests of the library.
