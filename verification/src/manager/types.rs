use crate::net::{IpAddr, SocketAddr};
use crate::reconcile::no_duplicate_keys;
use vstd::prelude::*;

verus! {

/// How traffic is spread over the links of an end point. The one strategy
/// there is sends every packet over every open link.
#[derive(Debug, Clone, Copy, PartialEq, Eq)]
pub enum EndPointStrategy {
    Broadcast,
}

/// A link of an end point: the local address to bind and the remote address to reach.
pub type SocketEndpointPair = (SocketAddr, SocketAddr);

/// A remote peer: its links, how traffic is spread over them and the shared secret.
#[derive(Debug)]
pub struct EndPoint {
    pub addr: Vec<SocketEndpointPair>,
    pub strategy: EndPointStrategy,
    pub secret_key: String,
}

/// Settings of the TUN device.
#[derive(Debug)]
pub struct MyTunDevice {
    pub device_name: String,
    pub ip: IpAddr,
    pub subnet: u8,
    pub mtu: u32,
    pub queue_length: Option<usize>,
}

/// End points keyed by the tunnel address that routes to them, each address
/// at most once, listed in the order they were first inserted.
#[derive(Debug)]
pub struct EndPointTable {
    entries: Vec<(IpAddr, EndPoint)>,
}

/// The daemon's configuration.
#[derive(Debug)]
pub struct Config {
    pub secret_key: [u8; 16],
    pub device_id: [u8; 6],
    pub end_points: EndPointTable,
    pub listen_port: u16,
    pub tun: MyTunDevice,
    pub expect_byte_per_sec: usize,
}

/// Two end points with the same links (in order), strategy and secret.
pub open spec fn same_end_point(a: EndPoint, b: EndPoint) -> bool {
    &&& a.addr@ == b.addr@
    &&& a.strategy == b.strategy
    &&& a.secret_key@ == b.secret_key@
}

/// Two end point lists with the same addresses, in the same order, each with
/// the same end point.
pub open spec fn same_entries(a: Seq<(IpAddr, EndPoint)>, b: Seq<(IpAddr, EndPoint)>) -> bool {
    &&& a.len() == b.len()
    &&& forall|i: int|
        0 <= i < a.len() ==> #[trigger] a[i].0 == b[i].0 && same_end_point(a[i].1, b[i].1)
}

impl Clone for EndPoint {
    /// A copy with the same links, strategy and secret.
    fn clone(&self) -> (copy: Self)
        ensures
            copy.addr@ == self.addr@,
            copy.strategy == self.strategy,
            copy.secret_key@ == self.secret_key@,
    {
        let mut addr: Vec<SocketEndpointPair> = Vec::new();
        let mut i: usize = 0;
        while i < self.addr.len()
            invariant
                i <= self.addr@.len(),
                addr@ == self.addr@.take(i as int),
            decreases self.addr@.len() - i,
        {
            addr.push(self.addr[i]);
            i = i + 1;
            assert(addr@ =~= self.addr@.take(i as int));
        }
        assert(addr@ =~= self.addr@);
        EndPoint { addr, strategy: self.strategy, secret_key: self.secret_key.clone() }
    }
}

impl Clone for MyTunDevice {
    /// A copy with the same settings.
    fn clone(&self) -> (copy: Self)
        ensures
            copy.device_name@ == self.device_name@,
            copy.ip == self.ip,
            copy.subnet == self.subnet,
            copy.mtu == self.mtu,
            copy.queue_length == self.queue_length,
    {
        MyTunDevice {
            device_name: self.device_name.clone(),
            ip: self.ip,
            subnet: self.subnet,
            mtu: self.mtu,
            queue_length: self.queue_length,
        }
    }
}

impl Clone for Config {
    /// A copy with the same settings and the same end points, entry for entry.
    fn clone(&self) -> (copy: Self)
        ensures
            copy.secret_key@ == self.secret_key@,
            copy.device_id@ == self.device_id@,
            same_entries(copy.end_points@, self.end_points@),
            copy.listen_port == self.listen_port,
            copy.tun.device_name@ == self.tun.device_name@,
            copy.tun.ip == self.tun.ip,
            copy.tun.subnet == self.tun.subnet,
            copy.tun.mtu == self.tun.mtu,
            copy.tun.queue_length == self.tun.queue_length,
            copy.expect_byte_per_sec == self.expect_byte_per_sec,
    {
        Config {
            secret_key: self.secret_key,
            device_id: self.device_id,
            end_points: self.end_points.clone(),
            listen_port: self.listen_port,
            tun: self.tun.clone(),
            expect_byte_per_sec: self.expect_byte_per_sec,
        }
    }
}

/// `num_cpus::get`: the number of logical CPUs available to this process,
/// which the crate documents to be at least 1. Which number comes back
/// depends on the machine and is not stated.
#[verifier::external_body]
fn available_cpus() -> (count: usize)
    ensures
        count >= 1,
{
    num_cpus::get()
}

/// The tunnel address of the default device: 172.29.0.2.
pub open spec fn default_tun_ip() -> IpAddr {
    IpAddr::V4(0xAC1D_0002)
}

/// The default device settings with `queue_length` queues: named "esm",
/// address 172.29.0.2/24, MTU 9000.
pub fn tun_device_for(queue_length: usize) -> (device: MyTunDevice)
    ensures
        device.device_name@ == "esm"@,
        device.ip == default_tun_ip(),
        device.subnet == 24,
        device.mtu == 9000,
        device.queue_length == Some(queue_length),
{
    MyTunDevice {
        device_name: String::from_str("esm"),
        ip: IpAddr::V4(0xAC1D_0002),
        subnet: 24,
        mtu: 9000,
        queue_length: Some(queue_length),
    }
}

impl Default for MyTunDevice {
    /// The default settings, with one queue per available CPU.
    fn default() -> (device: Self)
        ensures
            device.device_name@ == "esm"@,
            device.ip == default_tun_ip(),
            device.subnet == 24,
            device.mtu == 9000,
            device.queue_length matches Some(n) && n >= 1,
    {
        tun_device_for(available_cpus())
    }
}

impl Default for Config {
    fn default() -> (config: Self)
        ensures
            config.device_id@ == seq![0u8, 1, 2, 3, 4, 5],
            config.secret_key@ == seq![0u8, 1, 2, 3, 4, 5, 6, 7, 8, 9, 10, 11, 12, 13, 14, 15],
            config.end_points@.len() == 0,
            config.listen_port == 33600,
            config.tun.device_name@ == "esm"@,
            config.tun.ip == default_tun_ip(),
            config.tun.subnet == 24,
            config.tun.mtu == 9000,
            config.tun.queue_length matches Some(n) && n >= 1,
            config.expect_byte_per_sec == 1_000_000_000,
    {
        let config = Config {
            device_id: [0, 1, 2, 3, 4, 5],
            secret_key: [0, 1, 2, 3, 4, 5, 6, 7, 8, 9, 10, 11, 12, 13, 14, 15],
            end_points: EndPointTable::new(),
            listen_port: 33600,
            tun: MyTunDevice::default(),
            expect_byte_per_sec: 1_000_000_000,
        };
        assert(config.device_id@ =~= seq![0u8, 1, 2, 3, 4, 5]);
        assert(config.secret_key@ =~= seq![0u8, 1, 2, 3, 4, 5, 6, 7, 8, 9, 10, 11, 12, 13, 14, 15]);
        config
    }
}

/// The tunnel addresses of a list of end points, in list order.
pub open spec fn end_point_addrs(end_points: Seq<(IpAddr, EndPoint)>) -> Seq<IpAddr> {
    end_points.map_values(|e: (IpAddr, EndPoint)| e.0)
}

impl View for EndPointTable {
    type V = Seq<(IpAddr, EndPoint)>;

    closed spec fn view(&self) -> Seq<(IpAddr, EndPoint)> {
        self.entries@
    }
}

impl Clone for EndPointTable {
    /// A copy of the table: the same addresses in the same order, each with a
    /// clone of its end point.
    fn clone(&self) -> (copy: Self)
        ensures
            end_point_addrs(copy@) == end_point_addrs(self@),
            same_entries(copy@, self@),
    {
        proof {
            use_type_invariant(self);
        }
        let mut entries: Vec<(IpAddr, EndPoint)> = Vec::new();
        let mut i: usize = 0;
        while i < self.entries.len()
            invariant
                i <= self@.len(),
                no_duplicate_keys(end_point_addrs(self@)),
                end_point_addrs(entries@) == end_point_addrs(self@).take(i as int),
                same_entries(entries@, self@.take(i as int)),
            decreases self@.len() - i,
        {
            let addr = self.entries[i].0;
            let ep = self.entries[i].1.clone();
            let ghost before = entries@;
            entries.push((addr, ep));
            assert(end_point_addrs(entries@) =~= end_point_addrs(before).push(addr));
            assert(end_point_addrs(self@).take(i + 1) =~= end_point_addrs(self@).take(i as int).push(
                addr,
            ));
            i = i + 1;
            assert(end_point_addrs(entries@) =~= end_point_addrs(self@).take(i as int));
        }
        assert(end_point_addrs(entries@) =~= end_point_addrs(self@));
        EndPointTable { entries }
    }
}

impl EndPointTable {
    #[verifier::type_invariant]
    spec fn addresses_distinct(self) -> bool {
        no_duplicate_keys(end_point_addrs(self.entries@))
    }

    /// A table with no end point.
    pub fn new() -> (table: Self)
        ensures
            table@ == Seq::<(IpAddr, EndPoint)>::empty(),
    {
        EndPointTable { entries: Vec::new() }
    }

    /// The number of end points.
    pub fn len(&self) -> (n: usize)
        ensures
            n == self@.len(),
    {
        self.entries.len()
    }

    /// The `i`-th end point with its address, in table order.
    pub fn entry(&self, i: usize) -> (e: &(IpAddr, EndPoint))
        requires
            i < self@.len(),
        ensures
            *e == self@[i as int],
    {
        &self.entries[i]
    }

    /// Where address `addr` stands in the table, if it is there.
    fn position(&self, addr: &IpAddr) -> (at: Option<usize>)
        ensures
            at matches Some(i) ==> i < self@.len() && self@[i as int].0 == *addr,
            at is None ==> !end_point_addrs(self@).contains(*addr),
    {
        let ghost addrs = end_point_addrs(self@);
        let mut i: usize = 0;
        while i < self.entries.len()
            invariant
                i <= self@.len(),
                addrs == end_point_addrs(self@),
                forall|k: int| 0 <= k < i ==> addrs[k] != *addr,
            decreases self@.len() - i,
        {
            if self.entries[i].0 == *addr {
                return Some(i);
            }
            i = i + 1;
        }
        None
    }

    /// Whether an end point is stored for address `addr`.
    pub fn contains_key(&self, addr: &IpAddr) -> (found: bool)
        ensures
            found == end_point_addrs(self@).contains(*addr),
    {
        match self.position(addr) {
            Some(i) => {
                assert(end_point_addrs(self@)[i as int] == *addr);
                true
            },
            None => false,
        }
    }

    /// Stores `ep` for address `addr`. An end point already stored for the
    /// address is replaced in its place and handed back; otherwise the end
    /// point is added last.
    pub fn insert(&mut self, addr: IpAddr, ep: EndPoint) -> (previous: Option<EndPoint>)
        ensures
            end_point_addrs(old(self)@).contains(addr) ==> exists|i: int|
                0 <= i < old(self)@.len() && old(self)@[i].0 == addr && final(self)@ == old(
                    self,
                )@.update(i, (addr, ep)) && previous == Some(old(self)@[i].1),
            !end_point_addrs(old(self)@).contains(addr) ==> final(self)@ == old(self)@.push(
                (addr, ep),
            ) && previous is None,
    {
        proof {
            use_type_invariant(&*self);
        }
        let ghost before = self@;
        let at = self.position(&addr);
        let mut entries: Vec<(IpAddr, EndPoint)> = Vec::new();
        std::mem::swap(&mut entries, &mut self.entries);
        assert(entries@ == before);
        match at {
            Some(i) => {
                assert(end_point_addrs(before)[i as int] == addr);
                let (_, old_ep) = entries.remove(i);
                entries.insert(i, (addr, ep));
                assert(entries@ =~= before.update(i as int, (addr, ep)));
                assert(end_point_addrs(entries@) =~= end_point_addrs(before));
                self.entries = entries;
                Some(old_ep)
            },
            None => {
                entries.push((addr, ep));
                assert(end_point_addrs(entries@) =~= end_point_addrs(before).push(addr));
                self.entries = entries;
                None
            },
        }
    }

    /// The addresses in the table, in table order.
    pub fn keys(&self) -> (keys: Vec<IpAddr>)
        ensures
            keys@ == end_point_addrs(self@),
            no_duplicate_keys(keys@),
    {
        proof {
            use_type_invariant(self);
        }
        let mut keys: Vec<IpAddr> = Vec::new();
        let mut i: usize = 0;
        while i < self.entries.len()
            invariant
                i <= self@.len(),
                keys@ == end_point_addrs(self@).take(i as int),
            decreases self@.len() - i,
        {
            keys.push(self.entries[i].0);
            i = i + 1;
            assert(keys@ =~= end_point_addrs(self@).take(i as int));
        }
        assert(keys@ =~= end_point_addrs(self@));
        keys
    }
}

impl Config {
    /// Whether an end point is configured for tunnel address `addr`.
    pub fn contains_end_point(&self, addr: &IpAddr) -> (found: bool)
        ensures
            found == end_point_addrs(self.end_points@).contains(*addr),
    {
        self.end_points.contains_key(addr)
    }

    /// The tunnel addresses of the configured end points, in table order;
    /// no address occurs twice.
    pub fn end_point_keys(&self) -> (keys: Vec<IpAddr>)
        ensures
            keys@ == end_point_addrs(self.end_points@),
            no_duplicate_keys(keys@),
    {
        self.end_points.keys()
    }
}

} // verus!
