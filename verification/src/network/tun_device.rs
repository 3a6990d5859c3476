use crate::network::{PacketRx, PacketTx};
use vstd::prelude::*;

verus! {

/// A TUN device with the queues that carry its packets.
pub struct TunDevice {
    pub name: String,
    pub ip: String,
    tx: PacketRx,
    rx: PacketTx,
}

impl TunDevice {
    /// The device's name.
    pub closed spec fn name_of(&self) -> String {
        self.name
    }

    /// The queue the device reads packets from.
    pub closed spec fn tx_of(&self) -> PacketRx {
        self.tx
    }

    /// The queue the device hands packets to.
    pub closed spec fn rx_of(&self) -> PacketTx {
        self.rx
    }

    /// The device's address, as written.
    pub closed spec fn ip_of(&self) -> String {
        self.ip
    }

    /// A device named `name` with address `ip`, fed by `tx` and feeding `rx`.
    pub fn new(name: String, ip: String, tx: PacketRx, rx: PacketTx) -> (device: Self)
        ensures
            device.name_of() == name,
            device.ip_of() == ip,
            device.tx_of() == tx,
            device.rx_of() == rx,
    {
        Self { name, ip, tx, rx }
    }
}

} // verus!
