use esm::network::inner_router::{
    ConnectionTable, InnerControl, RoutingGroup, RoutingGroupStrategy, UdpConnection,
};
use esm::network::packet_struct::Packet;
use esm::network::tun_device::TunDevice;
use esm::type_alias::NodeId;
use std::cell::Cell;

#[test]
fn empty_group_picks_nothing() {
    for strategy in [
        RoutingGroupStrategy::ActiveStandby,
        RoutingGroupStrategy::RoundRobin(3),
        RoutingGroupStrategy::Replication(None),
        RoutingGroupStrategy::Replication(Some(0)),
    ] {
        let (tx, rx) = tokio::sync::broadcast::channel::<InnerControl>(4);
        let mut group = RoutingGroup::new(NodeId(1), strategy, tx, rx);
        assert_eq!(group.pickup(), None);
    }
}

#[test]
fn empty_connection_table_lists_nothing() {
    let mut table = ConnectionTable::new();
    let listed: Vec<&UdpConnection> = table.list_connections(vec![NodeId(1), NodeId(2)]);
    assert!(listed.is_empty());
    let calls = Cell::new(0);
    table.list_connections_mut(vec![NodeId(1), NodeId(2)], |_c: &mut UdpConnection| {
        calls.set(calls.get() + 1)
    });
    assert_eq!(calls.get(), 0);
}

#[test]
fn tun_device_keeps_name_and_address() {
    let (tx, _rx) = tokio::sync::mpsc::channel::<Packet>(1);
    let (_tx2, rx2) = tokio::sync::mpsc::channel::<Packet>(1);
    let device = TunDevice::new("esm0".to_string(), "172.29.0.2".to_string(), rx2, tx);
    assert_eq!(device.name, "esm0");
    assert_eq!(device.ip, "172.29.0.2");
}

#[test]
fn empty_group_with_large_replication_count_picks_nothing() {
    let (tx, rx) = tokio::sync::broadcast::channel::<InnerControl>(4);
    let mut group = RoutingGroup::new(NodeId(2), RoutingGroupStrategy::Replication(Some(5)), tx, rx);
    assert_eq!(group.pickup(), None);
    assert_eq!(group.pickup(), None);
}
