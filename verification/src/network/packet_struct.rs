use vstd::prelude::*;

verus! {

/// A packet between overlay nodes.
pub enum Packet {
    ControlPacket(ControlPacket),
    DataPacket(DataPacket),
}

/// A control message between two nodes.
pub struct ControlPacket {
    src_node_id: u32,
    dst_node_id: u32,
    data: ControlPacketData,
}

/// The kinds of control message.
pub enum ControlPacketData {
    HeartbeatRequest,
    HeartbeatResponse,
}

/// User data routed between two nodes through a group and a route.
pub struct DataPacket {
    src_node_id: u32,
    dst_node_id: u32,
    current_group: u32,
    route_id: u32,
    data: bytes::Bytes,
}

} // verus!
