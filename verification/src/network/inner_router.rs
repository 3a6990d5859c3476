use crate::type_alias::NodeId;
use vstd::prelude::*;

verus! {

#[verifier::external_type_specification]
#[verifier::external_body]
#[verifier::reject_recursive_types(T)]
pub struct ExBroadcastSender<T>(tokio::sync::broadcast::Sender<T>);

#[verifier::external_type_specification]
#[verifier::external_body]
#[verifier::reject_recursive_types(T)]
pub struct ExBroadcastReceiver<T>(tokio::sync::broadcast::Receiver<T>);

#[verifier::external_type_specification]
#[verifier::external_body]
pub struct ExInstant(std::time::Instant);

#[verifier::external_type_specification]
#[verifier::external_body]
#[verifier::reject_recursive_types(K)]
#[verifier::reject_recursive_types(V)]
pub struct ExAvlTreeMap<K, V>(avl::AvlTreeMap<K, V>);

/// Requests sent to the tasks that open connections.
#[derive(Clone, Copy, Debug, PartialEq, Eq)]
pub enum InnerControl {
    RequestConnect,
}

pub type InnerTx = tokio::sync::broadcast::Sender<InnerControl>;

pub type InnerRx = tokio::sync::broadcast::Receiver<InnerControl>;

/// `std::time::Instant::now`: the current time. What it returns depends on the clock.
#[verifier::external_body]
fn instant_now() -> std::time::Instant {
    std::time::Instant::now()
}

/// `std::time::Instant::duration_since`: the time from `earlier` to `later`,
/// zero when `earlier` is not earlier. What it returns depends on the clock
/// readings, which are opaque here.
#[verifier::external_body]
fn instant_duration_since(later: &std::time::Instant, earlier: std::time::Instant) -> std::time::Duration {
    later.duration_since(earlier)
}

/// `std::time::Duration::as_secs`: the whole seconds of `d`. Duration values
/// are opaque here, so nothing is stated of the number.
#[verifier::external_body]
fn duration_as_secs(d: &std::time::Duration) -> u64 {
    d.as_secs()
}

/// `tokio::sync::broadcast::Sender::send`: hands `value` to every current
/// receiver. Whether there is one depends on other tasks; the outcome is
/// dropped.
#[verifier::external_body]
fn broadcast_send(tx: &InnerTx, value: InnerControl) {
    let _ = tx.send(value);
}

/// How a routing group picks the nodes that carry a packet.
#[derive(Debug, Clone, Copy, PartialEq, Eq, Hash)]
pub enum RoutingGroupStrategy {
    /// Always the first connected node.
    ActiveStandby,
    /// The connected node after the given index.
    RoundRobin(usize),
    /// Several connected nodes (all of them when no count is given).
    Replication(Option<usize>),
}

/// A group of nodes reachable under one group id.
pub struct RoutingGroup {
    group_id: NodeId,
    node_ids: Vec<NodeId>,
    connected_nodes: Vec<NodeId>,
    strategy: RoutingGroupStrategy,
    inner_tx: InnerTx,
    inner_rx: InnerRx,
    last_refuel: std::time::Instant,
}

/// The nodes that `strategy` picks among `connected` (see `RoutingGroup::pickup`).
pub open spec fn picked_nodes(connected: Seq<NodeId>, strategy: RoutingGroupStrategy) -> Option<
    Seq<NodeId>,
> {
    if connected.len() == 0 {
        None
    } else {
        match strategy {
            RoutingGroupStrategy::ActiveStandby => Some(seq![connected[0]]),
            RoutingGroupStrategy::RoundRobin(idx) => Some(
                seq![connected[(idx + 1) % (connected.len() as int)]],
            ),
            RoutingGroupStrategy::Replication(_) => Some(connected),
        }
    }
}

impl RoutingGroup {
    /// The nodes of the group that are connected now.
    pub closed spec fn connected(&self) -> Seq<NodeId> {
        self.connected_nodes@
    }

    /// All nodes of the group.
    pub closed spec fn nodes(&self) -> Seq<NodeId> {
        self.node_ids@
    }

    /// The channel that connect requests go out on.
    pub closed spec fn requests(&self) -> InnerTx {
        self.inner_tx
    }

    /// The channel that connect requests come in on.
    pub closed spec fn request_feed(&self) -> InnerRx {
        self.inner_rx
    }

    /// The group's strategy.
    pub closed spec fn strategy_of(&self) -> RoutingGroupStrategy {
        self.strategy
    }

    /// The group's id.
    pub closed spec fn id(&self) -> NodeId {
        self.group_id
    }

    /// A group with no nodes yet, last refuelled now.
    pub fn new(
        group_id: NodeId,
        routing_strategy: RoutingGroupStrategy,
        tx: InnerTx,
        rx: InnerRx,
    ) -> (group: Self)
        ensures
            group.id() == group_id,
            group.strategy_of() == routing_strategy,
            group.connected() == Seq::<NodeId>::empty(),
            group.nodes() == Seq::<NodeId>::empty(),
            group.requests() == tx,
            group.request_feed() == rx,
    {
        Self {
            group_id,
            node_ids: Vec::new(),
            connected_nodes: Vec::new(),
            strategy: routing_strategy,
            inner_tx: tx,
            inner_rx: rx,
            last_refuel: instant_now(),
        }
    }

    /// Sends a connect request and resets the request time when
    /// `last_refuel.duration_since(now)` is at least a second. That measure
    /// runs from the current time to the last request, which lies in the past,
    /// so `duration_since` saturates it to zero and no request goes out.
    fn request_refuel(&mut self)
        ensures
            final(self).connected() == old(self).connected(),
            final(self).strategy_of() == old(self).strategy_of(),
            final(self).id() == old(self).id(),
            final(self).nodes() == old(self).nodes(),
            final(self).requests() == old(self).requests(),
            final(self).request_feed() == old(self).request_feed(),
    {
        let elapsed = instant_duration_since(&self.last_refuel, instant_now());
        if duration_as_secs(&elapsed) < 1 {
            return;
        }
        self.last_refuel = instant_now();
        broadcast_send(&self.inner_tx, InnerControl::RequestConnect);
    }

    /// The connected nodes that carry the next packet: none when no node is
    /// connected; else the first node (active-standby), the node after the
    /// strategy's index (round robin), or the connected nodes (replication).
    /// With connected nodes, a replication count above their number is refused.
    pub fn pickup(&mut self) -> (nodes: Option<Vec<NodeId>>)
        requires
            old(self).connected().len() > 0 ==> (old(self).strategy_of() matches RoutingGroupStrategy::RoundRobin(
                idx,
            ) ==> idx < usize::MAX),
            old(self).connected().len() > 0 ==> (old(self).strategy_of() matches RoutingGroupStrategy::Replication(
                Some(size),
            ) ==> size <= old(self).connected().len()),
        ensures
            *final(self) == *old(self),
            nodes matches Some(v) ==> picked_nodes(old(self).connected(), old(self).strategy_of())
                == Some(v@),
            nodes is None <==> picked_nodes(old(self).connected(), old(self).strategy_of()) is None,
    {
        let len = self.connected_nodes.len();
        if len == 0 {
            return None;
        }
        match self.strategy {
            RoutingGroupStrategy::ActiveStandby => {
                let mut v = Vec::new();
                v.push(self.connected_nodes[0]);
                assert(v@ =~= seq![self.connected_nodes@[0]]);
                Some(v)
            },
            RoutingGroupStrategy::RoundRobin(idx) => {
                let i = (idx + 1) % len;
                let mut v = Vec::new();
                v.push(self.connected_nodes[i]);
                assert(v@ =~= seq![self.connected_nodes@[i as int]]);
                Some(v)
            },
            RoutingGroupStrategy::Replication(pull_size) => {
                let mut v = Vec::new();
                let mut k: usize = 0;
                while k < len
                    invariant
                        k <= len,
                        len == self.connected_nodes@.len(),
                        v@ == self.connected_nodes@.take(k as int),
                    decreases len - k,
                {
                    v.push(self.connected_nodes[k]);
                    k = k + 1;
                    assert(v@ =~= self.connected_nodes@.take(k as int));
                }
                assert(v@ =~= self.connected_nodes@);
                Some(v)
            },
        }
    }
}

/// An overlay connection to a node.
pub struct UdpConnection {}

/// Connections keyed by node number.
pub type ConnectionMap = avl::AvlTreeMap<u32, UdpConnection>;

/// What a `ConnectionMap` holds, by key.
pub uninterp spec fn connection_map(m: ConnectionMap) -> Map<u32, UdpConnection>;

/// `avl::AvlTreeMap::new`: an empty map.
#[verifier::external_body]
fn connection_map_new() -> (fresh: ConnectionMap)
    ensures
        connection_map(fresh).dom() == Set::<u32>::empty(),
{
    avl::AvlTreeMap::new()
}

/// `avl::AvlTreeMap::get`: the value stored under `key`, if any.
#[verifier::external_body]
fn connection_map_get<'a>(m: &'a ConnectionMap, key: &u32) -> (v: Option<&'a UdpConnection>)
    ensures
        v is Some <==> connection_map(*m).contains_key(*key),
        v matches Some(c) ==> *c == connection_map(*m)[*key],
{
    m.get(key)
}

/// `avl::AvlTreeMap::get_mut`: the value stored under `key`, if any, to change in place.
#[verifier::external_body]
fn connection_map_get_mut<'a>(m: &'a mut ConnectionMap, key: &u32) -> (v: Option<&'a mut UdpConnection>)
    ensures
        v is Some <==> connection_map(*old(m)).contains_key(*key),
        v matches Some(c) ==> *c == connection_map(*old(m))[*key] && connection_map(*final(m))
            == connection_map(*old(m)).insert(*key, *final(c)),
        v is None ==> connection_map(*final(m)) == connection_map(*old(m)),
{
    m.get_mut(key)
}

/// `func` was run on a connection that held `before`: its postcondition
/// holds of that call.
pub open spec fn ran_on<F: Fn(&mut UdpConnection)>(func: F, before: UdpConnection) -> bool {
    exists|c: &mut UdpConnection| *c == before && #[trigger] func.ensures((c,), ())
}

/// The connections to overlay nodes, by node id.
pub struct ConnectionTable {
    connection: ConnectionMap,
}

/// The ids of `req` that have a connection, in request order.
pub open spec fn connected_ids(req: Seq<NodeId>, table: Map<u32, UdpConnection>) -> Seq<NodeId> {
    req.filter(|id: NodeId| table.contains_key(id.0))
}

impl ConnectionTable {
    /// The connections, by node id.
    pub closed spec fn connections(&self) -> Map<u32, UdpConnection> {
        connection_map(self.connection)
    }

    /// A table with no connection.
    pub fn new() -> (table: Self)
        ensures
            table.connections() == Map::<u32, UdpConnection>::empty(),
    {
        Self { connection: connection_map_new() }
    }

    /// The connections of the requested nodes that have one, in request order.
    pub fn list_connections(&self, req: Vec<NodeId>) -> (conns: Vec<&UdpConnection>)
        ensures
            conns@.len() == connected_ids(req@, self.connections()).len(),
            forall|k: int|
                0 <= k < conns@.len() ==> *#[trigger] conns@[k] == self.connections()[connected_ids(
                    req@,
                    self.connections(),
                )[k].0],
    {
        let ghost table = self.connections();
        let mut conns: Vec<&UdpConnection> = Vec::new();
        let mut i: usize = 0;
        while i < req.len()
            invariant
                i <= req@.len(),
                table == self.connections(),
                table == connection_map(self.connection),
                conns@.len() == connected_ids(req@.take(i as int), table).len(),
                forall|k: int|
                    0 <= k < conns@.len() ==> *#[trigger] conns@[k] == table[connected_ids(
                        req@.take(i as int),
                        table,
                    )[k].0],
            decreases req@.len() - i,
        {
            let id = req[i];
            proof {
                assert(req@.take(i + 1).drop_last() =~= req@.take(i as int));
                reveal_with_fuel(Seq::filter, 1);
            }
            if let Some(c) = connection_map_get(&self.connection, &id.0) {
                conns.push(c);
            }
            i = i + 1;
        }
        assert(req@.take(i as int) =~= req@);
        conns
    }

    /// Runs `func` on the connection of each requested node that has one, in
    /// request order.
    pub fn list_connections_mut<F: Fn(&mut UdpConnection)>(&mut self, req: Vec<NodeId>, func: F)
        requires
            forall|c: &mut UdpConnection| #[trigger] func.requires((c,)),
        ensures
            final(self).connections() == old(self).connections(),
            forall|k: int|
                0 <= k < req@.len() && old(self).connections().contains_key(req@[k].0) ==> #[trigger] ran_on(
                    func,
                    old(self).connections()[req@[k].0],
                ),
    {
        let mut i: usize = 0;
        while i < req.len()
            invariant
                i <= req@.len(),
                forall|c: &mut UdpConnection| #[trigger] func.requires((c,)),
                self.connections() == old(self).connections(),
                forall|k: int|
                    0 <= k < i && old(self).connections().contains_key(req@[k].0) ==> #[trigger] ran_on(
                        func,
                        old(self).connections()[req@[k].0],
                    ),
            decreases req@.len() - i,
        {
            let id = req[i];
            match connection_map_get_mut(&mut self.connection, &id.0) {
                Some(conn) => {
                    let ghost before = *conn;
                    func(conn);
                    assert(exists|c: &mut UdpConnection| #[trigger] func.ensures((c,), ()));
                    assert(ran_on(func, before));
                    assert(self.connections() =~= old(self).connections());
                },
                None => {},
            }
            i = i + 1;
        }
    }
}

/// Where each node or group is routed.
pub enum RoutingTableEntry {
    Node(NodeId),
    Group(Vec<NodeId>),
}

/// The routing table of the overlay.
pub struct RoutingTable {
    routing_table: avl::AvlTreeMap<NodeId, RoutingTableEntry>,
}

/// The router inside a node.
pub struct InnerRouter {
    routing_table: RoutingTable,
}

} // verus!
