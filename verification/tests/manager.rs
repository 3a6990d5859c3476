use bytes::Bytes;
use esm::manager::helper::{compute_checksum, ICMPDestinationUnreachableCode};
use esm::manager::socket_strategy::{ConnectionBackend, INITIAL_SEQUENCE_NO};
use esm::manager::types::{tun_device_for, Config, EndPoint, EndPointStrategy, EndPointTable, MyTunDevice};
use esm::manager::{
    revalidate_connection, send_packet, transmit_failed_reply, unreachable_reply, SendPlan,
    TxRoundRobin,
};
use esm::manager::framing::frame_packet;
use esm::net::{IpAddr, SocketAddr};
use esm::reconcile::SyncStep;
use esm::types::HeaderAllocatedPayload;

fn v4(a: u8, b: u8, c: u8, d: u8) -> IpAddr {
    IpAddr::V4(u32::from_be_bytes([a, b, c, d]))
}

fn sock(a: u8, port: u16) -> SocketAddr {
    SocketAddr { ip: v4(10, 0, 0, a), port }
}

fn end_point(links: Vec<(SocketAddr, SocketAddr)>, secret: &str) -> EndPoint {
    EndPoint { addr: links, strategy: EndPointStrategy::Broadcast, secret_key: secret.to_string() }
}

fn config_with(addrs: &[IpAddr]) -> Config {
    let mut config = Config::default();
    for a in addrs {
        config.end_points.insert(*a, end_point(Vec::new(), "s"));
    }
    config
}

fn packet(len: usize) -> Vec<u8> {
    (0..len).map(|i| (i * 7 + 1) as u8).collect()
}

#[test]
fn default_config_values() {
    let config = Config::default();
    assert_eq!(config.device_id, [0, 1, 2, 3, 4, 5]);
    assert_eq!(config.secret_key, [0, 1, 2, 3, 4, 5, 6, 7, 8, 9, 10, 11, 12, 13, 14, 15]);
    assert_eq!(config.end_points.len(), 0);
    assert_eq!(config.listen_port, 33600);
    assert_eq!(config.expect_byte_per_sec, 1_000_000_000);
    let tun = MyTunDevice::default();
    assert_eq!(tun.device_name, "esm");
    assert_eq!(tun.ip, v4(172, 29, 0, 2));
    assert_eq!(tun.subnet, 24);
    assert_eq!(tun.mtu, 9000);
    assert!(tun.queue_length.unwrap() >= 1);
}

#[test]
fn config_lookup() {
    let config = config_with(&[v4(172, 29, 0, 5), IpAddr::V6(1)]);
    assert!(config.contains_end_point(&v4(172, 29, 0, 5)));
    assert!(config.contains_end_point(&IpAddr::V6(1)));
    assert!(!config.contains_end_point(&v4(172, 29, 0, 6)));
    assert_eq!(config.end_point_keys(), vec![v4(172, 29, 0, 5), IpAddr::V6(1)]);
}

#[test]
fn round_robin_cycles() {
    let mut rr = TxRoundRobin::new();
    assert_eq!(rr.next_target(0), None);
    let picks: Vec<_> = (0..7).map(|_| rr.next_target(3).unwrap()).collect();
    assert_eq!(picks, vec![1, 2, 0, 1, 2, 0, 1]);
    assert_eq!(rr.next_target(0), None);
    assert_eq!(rr.next_target(3), Some(2));
    assert_eq!(rr.next_target(1), Some(0));
}

#[test]
fn round_robin_visits_every_channel_once() {
    let mut rr = TxRoundRobin::new();
    assert_eq!(rr.next_target(4), Some(1));
    let mut picks: Vec<usize> = (0..4).map(|_| rr.next_target(4).unwrap()).collect();
    assert_eq!(picks, vec![2, 3, 0, 1]);
    picks.sort();
    assert_eq!(picks, vec![0, 1, 2, 3]);
}

#[test]
fn sequence_numbers_count_up() {
    let mut backend = ConnectionBackend::default();
    assert_eq!(backend.get_sequence_no(), 1);
    assert_eq!(backend.get_sequence_no(), 2);
    assert_eq!(backend.last_sequence_no(), 2);
}

#[test]
fn end_point_table_replaces_in_place() {
    let mut table = EndPointTable::new();
    assert!(table.insert(v4(10, 0, 0, 1), end_point(Vec::new(), "a")).is_none());
    assert!(table.insert(v4(10, 0, 0, 2), end_point(Vec::new(), "b")).is_none());
    let old = table.insert(v4(10, 0, 0, 1), end_point(Vec::new(), "c")).unwrap();
    assert_eq!(old.secret_key, "a");
    assert_eq!(table.len(), 2);
    assert_eq!(table.keys(), vec![v4(10, 0, 0, 1), v4(10, 0, 0, 2)]);
    assert_eq!(table.entry(0).1.secret_key, "c");
    assert!(table.contains_key(&v4(10, 0, 0, 2)));
    assert!(!table.contains_key(&v4(10, 0, 0, 3)));
    let copy = table.clone();
    assert_eq!(copy.keys(), table.keys());
}

#[test]
fn tun_device_with_given_queues() {
    let d = tun_device_for(6);
    assert_eq!(d.queue_length, Some(6));
    assert_eq!(d.device_name, "esm");
    assert_eq!(d.subnet, 24);
}

#[test]
fn revalidating_twice_keeps_everything() {
    let config = config_with(&[v4(172, 29, 0, 7), v4(172, 29, 0, 3)]);
    let connected = vec![v4(172, 29, 0, 9), v4(172, 29, 0, 3)];
    let mut live = Vec::new();
    for step in revalidate_connection(&connected, &config) {
        match step {
            SyncStep::Keep { have, .. } => live.push(connected[have]),
            SyncStep::Open { want } => live.push(config.end_points.entry(want).0),
            SyncStep::Close { .. } => {}
        }
    }
    for step in revalidate_connection(&live, &config) {
        assert!(matches!(step, SyncStep::Keep { .. }));
    }
}

#[test]
fn load_config_without_links_restarts_numbering() {
    let mut backend = ConnectionBackend::default();
    let ep = end_point(vec![(sock(1, 100), sock(2, 200)), (sock(1, 101), sock(3, 300))], "key");
    let steps = backend.load_config_and_init(&Vec::new(), &ep);
    assert_eq!(steps, vec![SyncStep::Open { want: 0 }, SyncStep::Open { want: 1 }]);
    assert_eq!(backend.get_sequence_no(), INITIAL_SEQUENCE_NO + 1);
}

#[test]
fn load_config_with_links_keeps_numbering() {
    let mut backend = ConnectionBackend::default();
    backend.get_sequence_no();
    let ep = end_point(vec![(sock(1, 100), sock(3, 300)), (sock(1, 101), sock(2, 200))], "key");
    let open = vec![sock(4, 400), sock(2, 200)];
    let steps = backend.load_config_and_init(&open, &ep);
    assert_eq!(
        steps,
        vec![
            SyncStep::Keep { have: 1, want: 1 },
            SyncStep::Open { want: 0 },
            SyncStep::Close { have: 0 },
        ]
    );
    assert_eq!(backend.get_sequence_no(), 2);
}

#[test]
fn revalidation_plan() {
    let config = config_with(&[v4(172, 29, 0, 7), v4(172, 29, 0, 3)]);
    let connected = vec![v4(172, 29, 0, 9), v4(172, 29, 0, 3)];
    assert_eq!(
        revalidate_connection(&connected, &config),
        vec![
            SyncStep::Keep { have: 1, want: 1 },
            SyncStep::Open { want: 0 },
            SyncStep::Close { have: 0 },
        ]
    );
}

#[test]
fn framing_writes_sequence_and_length() {
    let data = Bytes::from(packet(40));
    let framed = frame_packet(&data, 0x0102_0304);
    assert_eq!(&framed[0..6], &[1, 2, 3, 4, 0, 34]);
    assert_eq!(&framed[6..], &data[6..]);
    let big = Bytes::from(packet(6 + 0x1_2345));
    let framed = frame_packet(&big, 11);
    assert_eq!(&framed[0..6], &[0, 0, 0, 11, 0x23, 0x45]);
}

#[test]
fn unknown_destination_gets_host_unknown_reply() {
    let config = config_with(&[v4(172, 29, 0, 7)]);
    let data = packet(60);
    let mut backend = ConnectionBackend::default();
    let plan = send_packet(
        &config,
        &v4(172, 29, 0, 8),
        Some(&mut backend),
        HeaderAllocatedPayload(Bytes::from(data.clone())),
    );
    match plan {
        SendPlan::Reply(reply) => {
            assert_eq!(reply.len(), 56);
            assert_eq!(reply[21], 7);
            assert_eq!(&reply[28..56], &data[0..28]);
            assert_eq!(compute_checksum(&reply[0..20]), 0);
            assert_eq!(compute_checksum(&reply[20..56]), 0);
        }
        SendPlan::Transmit(_) => panic!("expected a reply"),
    }
    assert_eq!(backend.get_sequence_no(), 1);
}

#[test]
fn known_destination_without_connection_gets_source_route_failed() {
    let config = config_with(&[v4(172, 29, 0, 7)]);
    let data = packet(30);
    let plan =
        send_packet(&config, &v4(172, 29, 0, 7), None, HeaderAllocatedPayload(Bytes::from(data.clone())));
    match plan {
        SendPlan::Reply(reply) => {
            assert_eq!(reply[21], 5);
            assert_eq!(&reply[28..56], &data[0..28]);
        }
        SendPlan::Transmit(_) => panic!("expected a reply"),
    }
}

#[test]
fn known_destination_with_connection_is_framed() {
    let config = config_with(&[v4(172, 29, 0, 7)]);
    let data = packet(20);
    let mut backend = ConnectionBackend::default();
    backend.get_sequence_no();
    let plan = send_packet(
        &config,
        &v4(172, 29, 0, 7),
        Some(&mut backend),
        HeaderAllocatedPayload(Bytes::from(data.clone())),
    );
    match plan {
        SendPlan::Transmit(framed) => {
            assert_eq!(&framed[0..6], &[0, 0, 0, 2, 0, 14]);
            assert_eq!(&framed[6..], &data[6..]);
        }
        SendPlan::Reply(_) => panic!("expected a framed packet"),
    }
    assert_eq!(backend.get_sequence_no(), 3);
}

#[test]
fn failed_transmit_reply_quotes_framed_packet() {
    let framed = Bytes::from(packet(48));
    let reply = transmit_failed_reply(&framed);
    assert_eq!(reply[21], 7);
    assert_eq!(&reply[28..56], &framed[0..28]);
    let other = unreachable_reply(&framed, ICMPDestinationUnreachableCode::SourceRouteFailed);
    assert_eq!(other[21], 5);
    assert_eq!(compute_checksum(&other[0..20]), 0);
}
