pub mod inner_router;
pub mod packet_struct;
pub mod tun_device;

use crate::network::packet_struct::Packet;
use vstd::prelude::*;

verus! {

#[verifier::external_type_specification]
#[verifier::external_body]
#[verifier::reject_recursive_types(T)]
pub struct ExMpscSender<T>(tokio::sync::mpsc::Sender<T>);

#[verifier::external_type_specification]
#[verifier::external_body]
#[verifier::reject_recursive_types(T)]
pub struct ExMpscReceiver<T>(tokio::sync::mpsc::Receiver<T>);

/// Sending side of a packet queue.
pub type PacketTx = tokio::sync::mpsc::Sender<Packet>;

/// Receiving side of a packet queue.
pub type PacketRx = tokio::sync::mpsc::Receiver<Packet>;

} // verus!
