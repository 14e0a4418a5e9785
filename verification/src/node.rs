//! The decisions of a node: what it does on each event of the overlay network.
//!
//! The node holds what it knows of its peers and of its own addresses. An event changes that and
//! yields actions, which the caller performs in order. Times are nanoseconds of a monotonic clock.

use vstd::prelude::*;

use bytes::Bytes;

use crate::addr::{
    goes_through_relay, is_public_udp_quic, rebuild_udp_quic, udp_ip_port, Ipv4Addr, Multiaddr,
};
#[allow(unused_imports)]
use crate::addr::{
    canonical_of, endpoint_of, is_circuit, is_public_quic, parsed_multiaddr, udp_quic_chars, Proto,
};
use crate::batch::{unpack, BatchBuilder};
#[allow(unused_imports)]
use crate::batch::{batch_message, contents_of, framed_packets, packets_in};
use crate::buffer::{bytes_as_slice, bytes_clone};
#[allow(unused_imports)]
use crate::buffer::bytes_contents;
use crate::collections::{Ident, KeySet};
use crate::dial::{time_since, DialTable, ConnTable};
#[allow(unused_imports)]
use crate::dial::{
    conns_of, elapsed, in_cooldown, without_conn, without_expired, without_peer, DialKey, PeerConn,
};
use crate::peer::PeerId;
#[allow(unused_imports)]
use crate::peer::{parsed_peer_id, peer_id_chars};
use crate::wire::copy_bytes;

verus! {

/// How long a node waits between two announcements, in nanoseconds.
pub const ANNOUNCE_COOLDOWN: u64 = 30_000_000_000;

/// A reading of the clocks: monotonic nanoseconds, and seconds since the Unix epoch.
#[derive(Debug, Clone, Copy)]
pub struct Clock {
    pub now: u64,
    pub unix_secs: u64,
}

/// An announcement: who can be reached where.
#[derive(Debug, Clone)]
pub struct AnnounceMsg {
    pub peer: String,
    pub addrs: Vec<String>,
    pub ts: u64,
}

/// What an [`AnnounceMsg`] says.
#[verifier::ext_equal]
pub struct Announcement {
    pub peer: Seq<char>,
    pub addrs: Seq<Seq<char>>,
    pub ts: u64,
}

impl View for AnnounceMsg {
    type V = Announcement;

    open spec fn view(&self) -> Announcement {
        Announcement {
            peer: self.peer@,
            addrs: Seq::new(self.addrs@.len(), |i: int| self.addrs@[i]@),
            ts: self.ts,
        }
    }
}

/// Something for the caller to do.
pub enum Action {
    /// Publish a message on the data topic.
    Publish(Bytes),
    /// Send a message to a peer over its direct connection.
    SendDirect(PeerId, Vec<u8>),
    /// Hand a packet to the virtual interface.
    Deliver(Bytes),
    /// Answer a direct message with an empty response.
    Acknowledge,
    /// Tell the distributed hash table an address of a peer.
    AddAddress(PeerId, Multiaddr),
    /// Dial an address.
    Dial(Multiaddr),
    /// Offer an address as one under which this node may be reached.
    AddExternalAddress(Multiaddr),
    /// Publish an announcement; on success call [`NodeState::announce_published`].
    Announce(AnnounceMsg),
    /// Start the bootstrap of the hash table; on success call [`NodeState::bootstrap_started`].
    BootstrapDht,
    /// Close a connection.
    CloseConnection(u64),
    /// Ask the gateway to map a UDP port.
    MapPort(Ipv4Addr, u16),
    /// Stop: no more packets will come.
    Stop,
}

/// What an [`Action`] does.
pub enum Effect {
    Publish(Seq<u8>),
    SendDirect(Seq<u8>, Seq<u8>),
    Deliver(Seq<u8>),
    Acknowledge,
    AddAddress(Seq<u8>, Seq<Proto>),
    Dial(Seq<Proto>),
    AddExternalAddress(Seq<Proto>),
    Announce(Announcement),
    BootstrapDht,
    CloseConnection(u64),
    MapPort(Ipv4Addr, u16),
    Stop,
}

impl View for Action {
    type V = Effect;

    open spec fn view(&self) -> Effect {
        match self {
            Action::Publish(data) => Effect::Publish(bytes_contents(*data)),
            Action::SendDirect(peer, data) => Effect::SendDirect(peer@, data@),
            Action::Deliver(data) => Effect::Deliver(bytes_contents(*data)),
            Action::Acknowledge => Effect::Acknowledge,
            Action::AddAddress(peer, addr) => Effect::AddAddress(peer@, addr@),
            Action::Dial(addr) => Effect::Dial(addr@),
            Action::AddExternalAddress(addr) => Effect::AddExternalAddress(addr@),
            Action::Announce(msg) => Effect::Announce(msg@),
            Action::BootstrapDht => Effect::BootstrapDht,
            Action::CloseConnection(conn) => Effect::CloseConnection(*conn),
            Action::MapPort(ip, port) => Effect::MapPort(*ip, *port),
            Action::Stop => Effect::Stop,
        }
    }
}

/// What a list of actions does, in order.
pub open spec fn effects(list: Seq<Action>) -> Seq<Effect> {
    Seq::new(list.len(), |i: int| list[i]@)
}

/// What a node knows.
#[verifier::ext_equal]
pub struct NodeModel {
    /// The node itself.
    pub local: Seq<u8>,
    /// The limit on the bytes of a batch.
    pub max_bytes: nat,
    /// The limit on the packets of a batch.
    pub max_pkts: nat,
    /// The packets that wait to be sent.
    pub batch: Seq<Seq<u8>>,
    /// The peers with a direct connection, in the order in which they got one.
    pub direct: Seq<Seq<u8>>,
    /// The open direct connections, oldest first.
    pub direct_conns: Seq<PeerConn>,
    /// The connections through a relay that a direct one has not replaced, oldest first.
    pub relayed: Seq<PeerConn>,
    /// When which address of which peer was last dialled.
    pub dials: Map<DialKey, u64>,
    /// The addresses to announce.
    pub my_addrs: Seq<Seq<Proto>>,
    /// When an announcement was last published.
    pub last_announce: Option<u64>,
    /// Whether the first connection was already met with an announcement.
    pub announced_once: bool,
    /// Whether the bootstrap of the hash table has started.
    pub kad_bootstrapped: bool,
}

/// What holds of a node at all times.
pub open spec fn node_invariant(m: NodeModel) -> bool {
    &&& m.max_bytes + 4096 <= isize::MAX
    &&& m.direct.no_duplicates()
    &&& m.my_addrs.no_duplicates()
    &&& forall|i: int|
        0 <= i < m.my_addrs.len() ==> is_announceable(#[trigger] m.my_addrs[i])
    &&& forall|i: int|
        0 <= i < m.relayed.len() ==> !m.direct.contains((#[trigger] m.relayed[i]).0)
    &&& forall|p: Seq<u8>| #[trigger]
        m.direct.contains(p) == (conns_of(m.direct_conns, p).len() > 0)
    &&& batch_in_limits(m)
}

/// Whether an address is a canonical public endpoint.
pub open spec fn is_announceable(addr: Seq<Proto>) -> bool {
    canonical_of(addr) == Some(addr) && is_public_quic(addr)
}

/// No packet of a batch is longer than half the limit on bytes. A batch of several packets stays
/// below both limits; one packet is always let in.
pub open spec fn batch_in_limits(m: NodeModel) -> bool {
    &&& m.batch.len() <= u16::MAX
    &&& forall|i: int| 0 <= i < m.batch.len() ==> (#[trigger] m.batch[i]).len() <= m.max_bytes / 2
    &&& m.batch.len() <= 1 || m.batch.len() <= m.max_pkts
    &&& m.batch.len() <= 1 || framed_packets(m.batch).len() < m.max_bytes
    &&& m.batch.len() == 1 ==> framed_packets(m.batch).len() <= m.max_bytes / 2 + 2
}

/// Sending the batch: to the mesh, or to each peer with a direct connection where there is one.
pub open spec fn flush_effects(m: NodeModel) -> Seq<Effect> {
    if m.batch.len() == 0 {
        Seq::empty()
    } else if m.direct.len() == 0 {
        seq![Effect::Publish(batch_message(m.batch))]
    } else {
        Seq::new(
            m.direct.len(),
            |i: int| Effect::SendDirect(m.direct[i], batch_message(m.batch)),
        )
    }
}

/// The node once its batch is sent.
pub open spec fn flushed(m: NodeModel) -> NodeModel {
    NodeModel { batch: Seq::empty(), ..m }
}

/// Whether a packet is too large to be batched.
pub open spec fn is_large(m: NodeModel, pkt: Seq<u8>) -> bool {
    pkt.len() > m.max_bytes / 2
}

/// Whether the batch has to be sent before `pkt` is added.
pub open spec fn is_full_for(m: NodeModel, pkt: Seq<u8>) -> bool {
    m.batch.len() >= m.max_pkts || framed_packets(m.batch).len() + pkt.len() + 2 >= m.max_bytes
}

/// What a packet from the virtual interface makes the node do: a large packet goes out by itself,
/// behind what waits; any other is added to the batch, which is sent first where it is full.
pub open spec fn packet_effects(m: NodeModel, pkt: Seq<u8>) -> Seq<Effect> {
    if is_large(m, pkt) {
        flush_effects(m).push(Effect::Publish(pkt))
    } else if is_full_for(m, pkt) {
        flush_effects(m)
    } else {
        Seq::empty()
    }
}

/// The node after a packet from the virtual interface. A batch with as many packets as its count
/// can say takes no more.
pub open spec fn after_packet(m: NodeModel, pkt: Seq<u8>) -> NodeModel {
    if is_large(m, pkt) {
        flushed(m)
    } else if is_full_for(m, pkt) {
        NodeModel { batch: seq![pkt], ..m }
    } else if m.batch.len() < u16::MAX {
        NodeModel { batch: m.batch.push(pkt), ..m }
    } else {
        m
    }
}

/// Handing packets to the virtual interface, in order.
pub open spec fn deliveries(pkts: Seq<Seq<u8>>) -> Seq<Effect> {
    Seq::new(pkts.len(), |i: int| Effect::Deliver(pkts[i]))
}

/// Where to dial for an address that a peer says it listens on: the address itself where it goes
/// through a relay, else its canonical form where that is public.
pub open spec fn dial_target(addr: Seq<Proto>) -> Option<Seq<Proto>> {
    let direct: Seq<Proto> = match canonical_of(addr) {
        Some(c) => c,
        None => addr,
    };
    if is_circuit(addr) {
        Some(addr)
    } else if is_public_quic(direct) {
        Some(direct)
    } else {
        None
    }
}

/// What one listen address of a peer makes the node do, and the dials it then remembers.
pub open spec fn listen_step(
    dials: Map<DialKey, u64>,
    peer: Seq<u8>,
    addr: Seq<Proto>,
    is_direct: bool,
    now: u64,
) -> (Seq<Effect>, Map<DialKey, u64>) {
    let known: Seq<Effect> = seq![Effect::AddAddress(peer, addr)];
    match dial_target(addr) {
        Some(target) => if !is_direct && !in_cooldown(dials, peer, target, now) {
            (known.push(Effect::Dial(target)), dials.insert((peer, target), now))
        } else {
            (known, dials)
        },
        None => (known, dials),
    }
}

/// What the listen addresses of a peer make the node do, one after the other.
pub open spec fn listen_steps(
    dials: Map<DialKey, u64>,
    peer: Seq<u8>,
    addrs: Seq<Seq<Proto>>,
    is_direct: bool,
    now: u64,
) -> (Seq<Effect>, Map<DialKey, u64>)
    decreases addrs.len(),
{
    if addrs.len() == 0 {
        (Seq::empty(), dials)
    } else {
        let (done, known) = listen_steps(dials, peer, addrs.drop_last(), is_direct, now);
        let (more, then) = listen_step(known, peer, addrs.last(), is_direct, now);
        (done + more, then)
    }
}

/// What one announced address of a peer makes the node do, and the dials it then remembers.
pub open spec fn announced_step(
    dials: Map<DialKey, u64>,
    peer: Seq<u8>,
    addr: Seq<Proto>,
    now: u64,
) -> (Seq<Effect>, Map<DialKey, u64>) {
    if is_public_quic(addr) && !in_cooldown(dials, peer, addr, now) {
        (
            seq![Effect::AddAddress(peer, addr), Effect::Dial(addr)],
            dials.insert((peer, addr), now),
        )
    } else {
        (Seq::empty(), dials)
    }
}

/// What the announced addresses of a peer make the node do, one after the other.
pub open spec fn announced_steps(
    dials: Map<DialKey, u64>,
    peer: Seq<u8>,
    addrs: Seq<Seq<Proto>>,
    now: u64,
) -> (Seq<Effect>, Map<DialKey, u64>)
    decreases addrs.len(),
{
    if addrs.len() == 0 {
        (Seq::empty(), dials)
    } else {
        let (done, known) = announced_steps(dials, peer, addrs.drop_last(), now);
        let (more, then) = announced_step(known, peer, addrs.last(), now);
        (done + more, then)
    }
}

/// The addresses among `texts` that parse, in order.
pub open spec fn parsed_addrs(texts: Seq<Seq<char>>) -> Seq<Seq<Proto>>
    decreases texts.len(),
{
    if texts.len() == 0 {
        Seq::empty()
    } else {
        match parsed_multiaddr(texts.last()) {
            Some(addr) => parsed_addrs(texts.drop_last()).push(addr),
            None => parsed_addrs(texts.drop_last()),
        }
    }
}

/// The views of a list of texts.
pub open spec fn text_views(list: Seq<String>) -> Seq<Seq<char>> {
    Seq::new(list.len(), |i: int| list[i]@)
}

/// What neighbours found on the local network make the node do.
pub open spec fn neighbour_effects(found: Seq<(Seq<u8>, Seq<Proto>)>) -> Seq<Effect>
    decreases found.len(),
{
    if found.len() == 0 {
        Seq::empty()
    } else {
        let (peer, addr) = found.last();
        neighbour_effects(found.drop_last()) + seq![
            Effect::AddAddress(peer, addr),
            Effect::Dial(
                match canonical_of(addr) {
                    Some(c) => c,
                    None => addr,
                },
            ),
        ]
    }
}

/// The text of a canonical address.
pub open spec fn endpoint_chars(addr: Seq<Proto>) -> Seq<char> {
    match endpoint_of(addr) {
        Some((ip, port)) => udp_quic_chars(ip, port),
        None => Seq::empty(),
    }
}

/// Whether enough time has passed since the last announcement.
pub open spec fn announce_due(m: NodeModel, now: u64) -> bool {
    m.last_announce matches Some(then) ==> elapsed(now, then) >= ANNOUNCE_COOLDOWN
}

/// Announcing: all announceable addresses, unless there is none or the last time is too recent.
pub open spec fn announce_effects(m: NodeModel, clock: Clock) -> Seq<Effect> {
    if announce_due(m, clock.now) && m.my_addrs.len() > 0 {
        match peer_id_chars(m.local) {
            Some(peer) => seq![
                Effect::Announce(
                    Announcement {
                        peer,
                        addrs: Seq::new(
                            m.my_addrs.len(),
                            |i: int| endpoint_chars(m.my_addrs[i]),
                        ),
                        ts: clock.unix_secs,
                    },
                ),
            ],
            None => Seq::empty(),
        }
    } else {
        Seq::empty()
    }
}

/// Whether a node that receives `a` reads from it the node and the addresses that it announces. The
/// identifier of every node with a key is a plain multihash.
pub open spec fn is_understood(a: Announcement, m: NodeModel) -> bool {
    &&& parsed_addrs(a.addrs) == m.my_addrs
    &&& crate::peer::is_plain_multihash(m.local) ==> parsed_peer_id(a.peer) == Some(m.local)
}

/// Whether what a node announces is understood.
pub open spec fn announces_clearly(m: NodeModel, clock: Clock) -> bool {
    forall|a: Announcement| #[trigger]
        announce_effects(m, clock).contains(Effect::Announce(a)) ==> is_understood(a, m)
}

/// The node once it may be reached under `addr`: a public endpoint is remembered for announcements.
pub open spec fn with_own_address(m: NodeModel, addr: Seq<Proto>) -> NodeModel {
    match canonical_of(addr) {
        Some(c) => if is_public_quic(c) && !m.my_addrs.contains(c) {
            NodeModel { my_addrs: m.my_addrs.push(c), ..m }
        } else {
            m
        },
        None => m,
    }
}

/// What a new listen address makes the node do.
pub open spec fn listening_effects(m: NodeModel, addr: Seq<Proto>, clock: Clock) -> Seq<Effect> {
    let said: Seq<Effect> = seq![Effect::AddExternalAddress(addr)] + announce_effects(
        with_own_address(m, addr),
        clock,
    );
    match endpoint_of(addr) {
        Some((ip, port)) => said.push(Effect::MapPort(ip, port)),
        None => said,
    }
}

/// What the identification of a peer makes the node do.
pub open spec fn identify_effects(
    m: NodeModel,
    peer: Seq<u8>,
    addrs: Seq<Seq<Proto>>,
    observed: Seq<Proto>,
    clock: Clock,
) -> Seq<Effect> {
    let (dialled, dials) = listen_steps(
        without_expired(m.dials, peer, clock.now),
        peer,
        addrs,
        m.direct.contains(peer),
        clock.now,
    );
    let said: Seq<Effect> = dialled + seq![Effect::AddExternalAddress(observed)] + announce_effects(
        m,
        clock,
    );
    if m.kad_bootstrapped {
        said
    } else {
        said.push(Effect::BootstrapDht)
    }
}

/// The node after the identification of a peer.
pub open spec fn after_identify(
    m: NodeModel,
    peer: Seq<u8>,
    addrs: Seq<Seq<Proto>>,
    now: u64,
) -> NodeModel {
    let (dialled, dials) = listen_steps(
        without_expired(m.dials, peer, now),
        peer,
        addrs,
        m.direct.contains(peer),
        now,
    );
    NodeModel { dials, ..m }
}

/// The first connection is met with an announcement.
pub open spec fn first_connection_effects(m: NodeModel, clock: Clock) -> Seq<Effect> {
    if m.announced_once {
        Seq::empty()
    } else {
        announce_effects(m, clock)
    }
}

/// What a new connection makes the node do: a connection through a relay is closed where the peer
/// already has a direct one, and a direct connection closes those of the peer through a relay.
pub open spec fn connection_effects(
    m: NodeModel,
    peer: Seq<u8>,
    conn: u64,
    remote: Seq<Proto>,
    clock: Clock,
) -> Seq<Effect> {
    let said: Seq<Effect> = first_connection_effects(m, clock);
    if !is_circuit(remote) {
        let old_conns: Seq<u64> = conns_of(m.relayed, peer);
        said + Seq::new(old_conns.len(), |i: int| Effect::CloseConnection(old_conns[i]))
    } else if m.direct.contains(peer) {
        said.push(Effect::CloseConnection(conn))
    } else {
        said
    }
}

/// The node after a new connection.
pub open spec fn after_connection(
    m: NodeModel,
    peer: Seq<u8>,
    conn: u64,
    remote: Seq<Proto>,
) -> NodeModel {
    let met: NodeModel = NodeModel { announced_once: true, ..m };
    if !is_circuit(remote) {
        NodeModel {
            direct: if m.direct.contains(peer) {
                m.direct
            } else {
                m.direct.push(peer)
            },
            direct_conns: m.direct_conns.push((peer, conn)),
            relayed: without_peer(m.relayed, peer),
            ..met
        }
    } else if m.direct.contains(peer) {
        met
    } else {
        NodeModel { relayed: m.relayed.push((peer, conn)), ..met }
    }
}

/// The node after a connection is closed. With its last direct connection a peer is no longer one
/// that is reached directly. A connection through a relay stays on record until a direct one replaces
/// it.
pub open spec fn after_close(m: NodeModel, peer: Seq<u8>, conn: u64) -> NodeModel {
    let left: Seq<PeerConn> = without_conn(m.direct_conns, peer, conn);
    NodeModel {
        direct: if conns_of(left, peer).len() == 0 {
            m.direct.remove_value(peer)
        } else {
            m.direct
        },
        direct_conns: left,
        ..m
    }
}

/// The views of a list of addresses.
pub open spec fn addr_views(list: Seq<Multiaddr>) -> Seq<Seq<Proto>> {
    Seq::new(list.len(), |i: int| list[i]@)
}

/// The views of a list of peers with an address each.
pub open spec fn found_views(list: Seq<(PeerId, Multiaddr)>) -> Seq<(Seq<u8>, Seq<Proto>)> {
    Seq::new(list.len(), |i: int| (list[i].0@, list[i].1@))
}

/// Whether a message comes from the node itself.
pub open spec fn is_from(source: Option<PeerId>, local: Seq<u8>) -> bool {
    source matches Some(peer) && peer@ == local
}

/// A node in operation.
pub struct NodeState {
    local: PeerId,
    max_bytes: usize,
    max_pkts: usize,
    batch: BatchBuilder,
    direct: KeySet<PeerId>,
    direct_conns: ConnTable,
    relayed: ConnTable,
    dials: DialTable,
    my_addrs: KeySet<Multiaddr>,
    last_announce: Option<u64>,
    announced_once: bool,
    kad_bootstrapped: bool,
}

impl View for NodeState {
    type V = NodeModel;

    closed spec fn view(&self) -> NodeModel {
        NodeModel {
            local: self.local@,
            max_bytes: self.max_bytes as nat,
            max_pkts: self.max_pkts as nat,
            batch: self.batch@,
            direct: self.direct@,
            direct_conns: self.direct_conns@,
            relayed: self.relayed@,
            dials: self.dials@,
            my_addrs: self.my_addrs@,
            last_announce: self.last_announce,
            announced_once: self.announced_once,
            kad_bootstrapped: self.kad_bootstrapped,
        }
    }
}

fn push_action(out: &mut Vec<Action>, a: Action)
    ensures
        effects(final(out)@) == effects(old(out)@).push(a@),
{
    out.push(a);
    assert(effects(out@) =~= effects(old(out)@).push(a@));
}

/// The addresses among `texts` that parse, such as those of the bootstrap peers to dial.
pub fn parse_all(texts: &Vec<String>) -> (addrs: Vec<Multiaddr>)
    ensures
        addr_views(addrs@) == parsed_addrs(text_views(texts@)),
{
    let ghost views: Seq<Seq<char>> = text_views(texts@);
    let mut addrs: Vec<Multiaddr> = Vec::new();
    let mut i: usize = 0;
    assert(views.take(0) =~= Seq::<Seq<char>>::empty());
    assert(addr_views(addrs@) =~= Seq::<Seq<Proto>>::empty());
    while i < texts.len()
        invariant
            views == text_views(texts@),
            i <= texts@.len(),
            addr_views(addrs@) == parsed_addrs(views.take(i as int)),
        decreases texts@.len() - i,
    {
        proof {
            let longer: Seq<Seq<char>> = views.take(i + 1);
            assert(longer.drop_last() =~= views.take(i as int));
            assert(longer.last() == texts@[i as int]@);
        }
        match Multiaddr::parse(texts[i].as_str()) {
            Some(addr) => {
                let ghost before: Seq<Seq<Proto>> = addr_views(addrs@);
                let ghost v: Seq<Proto> = addr@;
                addrs.push(addr);
                assert(addr_views(addrs@) =~= before.push(v));
            },
            None => {},
        }
        i += 1;
    }
    assert(views.take(i as int) =~= views);
    addrs
}

impl NodeState {
    /// The parts of the node are in order.
    pub closed spec fn parts_ok(&self) -> bool {
        &&& self.batch.wf()
        &&& self.direct.wf()
        &&& self.dials.wf()
        &&& self.my_addrs.wf()
    }

    /// The node is well formed.
    pub open spec fn wf(&self) -> bool {
        self.parts_ok() && node_invariant(self@)
    }

    /// A node that knows nobody yet.
    pub fn new(local: PeerId, max_batch_bytes: usize, max_batch_pkts: usize) -> (n: NodeState)
        requires
            max_batch_bytes + 4096 <= isize::MAX,
        ensures
            n.wf(),
            n@ == (NodeModel {
                local: local@,
                max_bytes: max_batch_bytes as nat,
                max_pkts: max_batch_pkts as nat,
                batch: Seq::empty(),
                direct: Seq::empty(),
                direct_conns: Seq::empty(),
                relayed: Seq::empty(),
                dials: Map::empty(),
                my_addrs: Seq::empty(),
                last_announce: None,
                announced_once: false,
                kad_bootstrapped: false,
            }),
    {
        let n: NodeState = NodeState {
            local,
            max_bytes: max_batch_bytes,
            max_pkts: max_batch_pkts,
            batch: BatchBuilder::with_capacity(max_batch_bytes + 4096),
            direct: KeySet::new(),
            direct_conns: ConnTable::new(),
            relayed: ConnTable::new(),
            dials: DialTable::new(),
            my_addrs: KeySet::new(),
            last_announce: None,
            announced_once: false,
            kad_bootstrapped: false,
        };
        assert(framed_packets(n@.batch).len() == 0);
        n
    }

    /// Whether `peer` has a direct connection.
    pub fn is_direct(&self, peer: &PeerId) -> (r: bool)
        ensures
            r == self@.direct.contains(peer@),
    {
        self.direct.contains(peer)
    }

    /// Sends what waits in the batch.
    fn flush(&mut self, out: &mut Vec<Action>)
        requires
            old(self).wf(),
        ensures
            final(self).wf(),
            final(self)@ == flushed(old(self)@),
            effects(final(out)@) == effects(old(out)@) + flush_effects(old(self)@),
    {
        let ghost m: NodeModel = self@;
        let ghost start: Seq<Effect> = effects(out@);
        if self.batch.is_empty() {
            assert(m.batch =~= Seq::<Seq<u8>>::empty());
            assert(self@ =~= flushed(m));
            assert(start =~= start + flush_effects(m));
            return;
        }
        let data: Bytes = self.batch.take();
        assert(self@ =~= flushed(m));
        assert(framed_packets(self@.batch).len() == 0);
        if self.direct.len() == 0 {
            push_action(out, Action::Publish(data));
            assert(effects(out@) =~= start + flush_effects(m));
            return;
        }
        let mut i: usize = 0;
        while i < self.direct.len()
            invariant
                self.wf(),
                self@ == flushed(m),
                m.batch.len() > 0,
                m.direct.len() > 0,
                bytes_contents(data) == batch_message(m.batch),
                i <= m.direct.len(),
                effects(out@) == start + flush_effects(m).take(i as int),
            decreases m.direct.len() - i,
        {
            let peer: PeerId = self.direct.get(i).dup();
            let copy: Vec<u8> = copy_bytes(bytes_as_slice(&data));
            push_action(out, Action::SendDirect(peer, copy));
            assert(effects(out@) =~= start + flush_effects(m).take(i + 1));
            i += 1;
        }
        assert(flush_effects(m).take(i as int) =~= flush_effects(m));
    }

    /// The batch interval has passed: what waits is sent.
    pub fn on_tick(&mut self) -> (out: Vec<Action>)
        requires
            old(self).wf(),
        ensures
            final(self).wf(),
            final(self)@ == flushed(old(self)@),
            effects(out@) == flush_effects(old(self)@),
    {
        let mut out: Vec<Action> = Vec::new();
        self.flush(&mut out);
        assert(effects(out@) =~= flush_effects(old(self)@));
        out
    }

    /// No more packets come from the virtual interface: what waits is sent, and the node stops.
    pub fn on_tun_closed(&mut self) -> (out: Vec<Action>)
        requires
            old(self).wf(),
        ensures
            final(self).wf(),
            final(self)@ == flushed(old(self)@),
            effects(out@) == flush_effects(old(self)@).push(Effect::Stop),
    {
        let mut out: Vec<Action> = Vec::new();
        self.flush(&mut out);
        push_action(&mut out, Action::Stop);
        assert(effects(out@) =~= flush_effects(old(self)@).push(Effect::Stop));
        out
    }

    /// A packet comes from the virtual interface.
    pub fn on_tun_packet(&mut self, pkt: Bytes) -> (out: Vec<Action>)
        requires
            old(self).wf(),
        ensures
            final(self).wf(),
            final(self)@ == after_packet(old(self)@, bytes_contents(pkt)),
            effects(out@) == packet_effects(old(self)@, bytes_contents(pkt)),
    {
        let ghost m: NodeModel = self@;
        let ghost p: Seq<u8> = bytes_contents(pkt);
        let mut out: Vec<Action> = Vec::new();
        let pkt_len: usize = bytes_as_slice(&pkt).len();
        if pkt_len > self.max_bytes / 2 {
            self.flush(&mut out);
            push_action(&mut out, Action::Publish(pkt));
            assert(effects(out@) =~= packet_effects(m, p));
            return out;
        }
        if self.batch.count() as usize >= self.max_pkts || self.batch.payload_size() + pkt_len + 2
            >= self.max_bytes {
            self.flush(&mut out);
            assert(framed_packets(self@.batch).len() == 0);
        }
        let ghost before: NodeModel = self@;
        let _ = self.batch.add(&pkt);
        proof {
            if before.batch.len() < u16::MAX {
                let now: Seq<Seq<u8>> = before.batch.push(p);
                assert(now.drop_last() =~= before.batch);
                assert(framed_packets(now).len() == framed_packets(before.batch).len() + 2
                    + p.len());
            }
            if is_full_for(m, p) {
                assert(Seq::<Seq<u8>>::empty().push(p) =~= seq![p]);
            }
            assert(self@ =~= after_packet(m, p));
            assert(effects(out@) =~= packet_effects(m, p));
        }
        out
    }

    /// Hands the packets of a message to the virtual interface.
    fn deliver(data: Vec<u8>, out: &mut Vec<Action>)
        ensures
            effects(final(out)@) == effects(old(out)@) + deliveries(packets_in(data@)),
    {
        let ghost start: Seq<Effect> = effects(out@);
        let ghost pkts: Seq<Seq<u8>> = packets_in(data@);
        let list: Vec<Bytes> = unpack(data);
        let mut i: usize = 0;
        assert(start =~= start + deliveries(pkts).take(0));
        while i < list.len()
            invariant
                contents_of(list@) == pkts,
                i <= list@.len(),
                effects(out@) == start + deliveries(pkts).take(i as int),
            decreases list@.len() - i,
        {
            assert(contents_of(list@)[i as int] == bytes_contents(list@[i as int]));
            push_action(out, Action::Deliver(bytes_clone(&list[i])));
            assert(effects(out@) =~= start + deliveries(pkts).take(i + 1));
            i += 1;
        }
        assert(deliveries(pkts).take(i as int) =~= deliveries(pkts));
    }

    /// A message comes on the data topic. The node's own messages are passed over.
    pub fn on_gossip_data(&self, source: Option<PeerId>, data: Vec<u8>) -> (out: Vec<Action>)
        ensures
            effects(out@) == if is_from(source, self@.local) {
                Seq::empty()
            } else {
                deliveries(packets_in(data@))
            },
    {
        let mut out: Vec<Action> = Vec::new();
        if let Some(peer) = &source {
            if peer.same(&self.local) {
                assert(effects(out@) =~= Seq::<Effect>::empty());
                return out;
            }
        }
        NodeState::deliver(data, &mut out);
        assert(effects(out@) =~= deliveries(packets_in(data@)));
        out
    }

    /// A peer sends a message over its direct connection. It is acknowledged.
    pub fn on_data_request(&self, request: Vec<u8>) -> (out: Vec<Action>)
        ensures
            effects(out@) == deliveries(packets_in(request@)).push(Effect::Acknowledge),
    {
        let mut out: Vec<Action> = Vec::new();
        NodeState::deliver(request, &mut out);
        push_action(&mut out, Action::Acknowledge);
        assert(effects(out@) =~= deliveries(packets_in(request@)).push(Effect::Acknowledge));
        out
    }

    /// A peer announces its addresses: the public ones that were not dialled recently are dialled.
    pub fn dial_announced(&mut self, peer: &PeerId, addrs: &Vec<Multiaddr>, now: u64) -> (out: Vec<
        Action,
    >)
        requires
            old(self).wf(),
        ensures
            final(self).wf(),
            effects(out@) == if peer@ == old(self)@.local {
                Seq::empty()
            } else {
                announced_steps(old(self)@.dials, peer@, addr_views(addrs@), now).0
            },
            final(self)@ == if peer@ == old(self)@.local {
                old(self)@
            } else {
                NodeModel {
                    dials: announced_steps(old(self)@.dials, peer@, addr_views(addrs@), now).1,
                    ..old(self)@
                }
            },
    {
        let ghost m: NodeModel = self@;
        let ghost views: Seq<Seq<Proto>> = addr_views(addrs@);
        let mut out: Vec<Action> = Vec::new();
        if peer.same(&self.local) {
            assert(effects(out@) =~= Seq::<Effect>::empty());
            return out;
        }
        let mut i: usize = 0;
        assert(views.take(0) =~= Seq::<Seq<Proto>>::empty());
        assert(effects(out@) =~= Seq::<Effect>::empty());
        assert(self@ =~= (NodeModel { dials: m.dials, ..m }));
        while i < addrs.len()
            invariant
                self.wf(),
                views == addr_views(addrs@),
                i <= addrs@.len(),
                effects(out@) == announced_steps(m.dials, peer@, views.take(i as int), now).0,
                self@ == (NodeModel {
                    dials: announced_steps(m.dials, peer@, views.take(i as int), now).1,
                    ..m
                }),
            decreases addrs@.len() - i,
        {
            let ghost before: NodeModel = self@;
            let ghost done: Seq<Seq<Proto>> = views.take(i as int);
            let ghost sofar: Seq<Effect> = effects(out@);
            proof {
                let longer: Seq<Seq<Proto>> = views.take(i + 1);
                assert(longer.drop_last() =~= done);
                assert(longer.last() == addrs@[i as int]@);
            }
            if is_public_udp_quic(&addrs[i]) && self.dials.try_dial(peer, &addrs[i], now) {
                push_action(&mut out, Action::AddAddress(peer.dup(), addrs[i].dup()));
                push_action(&mut out, Action::Dial(addrs[i].dup()));
                assert(effects(out@) =~= sofar + seq![
                    Effect::AddAddress(peer@, addrs@[i as int]@),
                    Effect::Dial(addrs@[i as int]@),
                ]);
            } else {
                assert(sofar =~= sofar + Seq::<Effect>::empty());
            }
            proof {
                lemma_dials_are_free(before, self@.dials);
                assert(self@ =~= (NodeModel { dials: self@.dials, ..before }));
            }
            i += 1;
        }
        assert(views.take(i as int) =~= views);
        out
    }

    /// An announcement comes on its topic. The node's own messages are passed over, as are an
    /// announcement whose peer does not parse and addresses that do not parse.
    pub fn on_announcement(&mut self, source: Option<PeerId>, msg: AnnounceMsg, now: u64) -> (out:
        Vec<Action>)
        requires
            old(self).wf(),
        ensures
            final(self).wf(),
            match parsed_peer_id(msg@.peer) {
                Some(peer) => if is_from(source, old(self)@.local) || peer == old(self)@.local {
                    effects(out@) == Seq::<Effect>::empty() && final(self)@ == old(self)@
                } else {
                    let (did, dials) = announced_steps(
                        old(self)@.dials,
                        peer,
                        parsed_addrs(msg@.addrs),
                        now,
                    );
                    effects(out@) == did && final(self)@ == (NodeModel { dials, ..old(self)@ })
                },
                None => effects(out@) == Seq::<Effect>::empty() && final(self)@ == old(self)@,
            },
    {
        let nothing: Vec<Action> = Vec::new();
        assert(effects(nothing@) =~= Seq::<Effect>::empty());
        if let Some(from) = &source {
            if from.same(&self.local) {
                return nothing;
            }
        }
        let peer: PeerId = match PeerId::parse(msg.peer.as_str()) {
            Some(peer) => peer,
            None => {
                return nothing;
            },
        };
        let addrs: Vec<Multiaddr> = parse_all(&msg.addrs);
        assert(text_views(msg.addrs@) =~= msg@.addrs);
        self.dial_announced(&peer, &addrs, now)
    }

    /// Announces the node's addresses where that is due.
    fn announce(&self, clock: Clock, out: &mut Vec<Action>)
        requires
            self.wf(),
        ensures
            effects(final(out)@) == effects(old(out)@) + announce_effects(self@, clock),
            announces_clearly(self@, clock),
    {
        let ghost m: NodeModel = self@;
        let ghost start: Seq<Effect> = effects(out@);
        assert(start =~= start + Seq::<Effect>::empty());
        if let Some(then) = self.last_announce {
            if time_since(clock.now, then) < ANNOUNCE_COOLDOWN {
                return;
            }
        }
        if self.my_addrs.len() == 0 {
            return;
        }
        let peer: String = match self.local.text() {
            Some(peer) => peer,
            None => {
                return;
            },
        };
        let mut addrs: Vec<String> = Vec::new();
        let mut i: usize = 0;
        while i < self.my_addrs.len()
            invariant
                self.wf(),
                m == self@,
                i <= m.my_addrs.len(),
                addrs@.len() == i,
                forall|j: int|
                    0 <= j < i ==> (#[trigger] addrs@[j])@ == endpoint_chars(m.my_addrs[j])
                        && parsed_multiaddr(addrs@[j]@) == Some(m.my_addrs[j]),
            decreases m.my_addrs.len() - i,
        {
            let addr: &Multiaddr = self.my_addrs.get(i);
            proof {
                assert(is_announceable(m.my_addrs[i as int]));
                let (ip, port) = endpoint_of(addr@)->0;
                assert(addr@ == crate::addr::udp_quic(ip, port));
            }
            match addr.text() {
                Some(text) => {
                    addrs.push(text);
                },
                None => vstd::pervasive::unreached(),
            }
            i += 1;
        }
        let msg: AnnounceMsg = AnnounceMsg { peer, addrs, ts: clock.unix_secs };
        proof {
            assert(msg@.addrs =~= Seq::new(
                m.my_addrs.len(),
                |i: int| endpoint_chars(m.my_addrs[i]),
            ));
            lemma_all_parse(msg@.addrs, m.my_addrs);
            assert(is_understood(msg@, m));
        }
        push_action(out, Action::Announce(msg));
        assert(effects(out@) =~= start + announce_effects(m, clock));
    }

    /// An announcement was published.
    pub fn announce_published(&mut self, now: u64)
        requires
            old(self).wf(),
        ensures
            final(self).wf(),
            final(self)@ == (NodeModel { last_announce: Some(now), ..old(self)@ }),
    {
        self.last_announce = Some(now);
    }

    /// The bootstrap of the hash table has started.
    pub fn bootstrap_started(&mut self)
        requires
            old(self).wf(),
        ensures
            final(self).wf(),
            final(self)@ == (NodeModel { kad_bootstrapped: true, ..old(self)@ }),
    {
        self.kad_bootstrapped = true;
    }

    /// What is known of the node's reachability has changed, or the time for another announcement has
    /// come: the node announces itself where that is due.
    pub fn on_reachability_change(&self, clock: Clock) -> (out: Vec<Action>)
        requires
            self.wf(),
        ensures
            effects(out@) == announce_effects(self@, clock),
            announces_clearly(self@, clock),
    {
        let mut out: Vec<Action> = Vec::new();
        self.announce(clock, &mut out);
        assert(effects(out@) =~= announce_effects(self@, clock));
        out
    }

    /// A peer identifies itself, with the addresses it listens on and the address under which it
    /// sees this node.
    pub fn on_identify(
        &mut self,
        peer: &PeerId,
        listen_addrs: &Vec<Multiaddr>,
        observed: &Multiaddr,
        clock: Clock,
    ) -> (out: Vec<Action>)
        requires
            old(self).wf(),
        ensures
            final(self).wf(),
            effects(out@) == identify_effects(
                old(self)@,
                peer@,
                addr_views(listen_addrs@),
                observed@,
                clock,
            ),
            final(self)@ == after_identify(
                old(self)@,
                peer@,
                addr_views(listen_addrs@),
                clock.now,
            ),
            announces_clearly(old(self)@, clock),
    {
        let ghost m: NodeModel = self@;
        let ghost views: Seq<Seq<Proto>> = addr_views(listen_addrs@);
        let now: u64 = clock.now;
        let mut out: Vec<Action> = Vec::new();
        let is_direct: bool = self.direct.contains(peer);
        self.dials.expire(peer, now);
        let ghost fresh: Map<DialKey, u64> = without_expired(m.dials, peer@, now);
        let mut i: usize = 0;
        assert(views.take(0) =~= Seq::<Seq<Proto>>::empty());
        assert(effects(out@) =~= Seq::<Effect>::empty());
        while i < listen_addrs.len()
            invariant
                self.wf(),
                views == addr_views(listen_addrs@),
                now == clock.now,
                is_direct == m.direct.contains(peer@),
                i <= listen_addrs@.len(),
                effects(out@) == listen_steps(
                    fresh,
                    peer@,
                    views.take(i as int),
                    is_direct,
                    now,
                ).0,
                self@ == (NodeModel {
                    dials: listen_steps(fresh, peer@, views.take(i as int), is_direct, now).1,
                    ..m
                }),
            decreases listen_addrs@.len() - i,
        {
            let addr: &Multiaddr = &listen_addrs[i];
            let ghost before: NodeModel = self@;
            let ghost sofar: Seq<Effect> = effects(out@);
            proof {
                let longer: Seq<Seq<Proto>> = views.take(i + 1);
                assert(longer.drop_last() =~= views.take(i as int));
                assert(longer.last() == addr@);
            }
            push_action(&mut out, Action::AddAddress(peer.dup(), addr.dup()));
            if !is_direct {
                let target: Option<Multiaddr> = if goes_through_relay(addr) {
                    Some(addr.dup())
                } else {
                    let canonical: Multiaddr = match rebuild_udp_quic(addr) {
                        Some(c) => c,
                        None => addr.dup(),
                    };
                    if is_public_udp_quic(&canonical) {
                        Some(canonical)
                    } else {
                        None
                    }
                };
                assert(match target {
                    Some(t) => dial_target(addr@) == Some(t@),
                    None => dial_target(addr@) is None,
                });
                if let Some(t) = target {
                    if self.dials.try_dial(peer, &t, now) {
                        push_action(&mut out, Action::Dial(t));
                    }
                }
            }
            proof {
                let known: Map<DialKey, u64> = listen_steps(
                    fresh,
                    peer@,
                    views.take(i as int),
                    is_direct,
                    now,
                ).1;
                let (more, then) = listen_step(known, peer@, addr@, is_direct, now);
                assert(effects(out@) =~= sofar + more);
                assert(self@ =~= (NodeModel { dials: then, ..m }));
                lemma_dials_are_free(before, then);
                assert(self@ =~= (NodeModel { dials: then, ..before }));
            }
            i += 1;
        }
        assert(views.take(i as int) =~= views);
        let ghost dialled: Seq<Effect> = effects(out@);
        push_action(&mut out, Action::AddExternalAddress(observed.dup()));
        let ghost said: Seq<Effect> = effects(out@);
        assert(said =~= dialled + seq![Effect::AddExternalAddress(observed@)]);
        self.announce(clock, &mut out);
        assert(announce_effects(self@, clock) == announce_effects(m, clock));
        if !self.kad_bootstrapped {
            push_action(&mut out, Action::BootstrapDht);
        }
        out
    }

    /// Neighbours are found on the local network: they are dialled, private addresses included.
    pub fn on_mdns_discovered(found: &Vec<(PeerId, Multiaddr)>) -> (out: Vec<Action>)
        ensures
            effects(out@) == neighbour_effects(found_views(found@)),
    {
        let ghost views: Seq<(Seq<u8>, Seq<Proto>)> = found_views(found@);
        let mut out: Vec<Action> = Vec::new();
        let mut i: usize = 0;
        assert(views.take(0) =~= Seq::<(Seq<u8>, Seq<Proto>)>::empty());
        assert(effects(out@) =~= Seq::<Effect>::empty());
        while i < found.len()
            invariant
                views == found_views(found@),
                i <= found@.len(),
                effects(out@) == neighbour_effects(views.take(i as int)),
            decreases found@.len() - i,
        {
            let ghost sofar: Seq<Effect> = effects(out@);
            let peer: &PeerId = &found[i].0;
            let addr: &Multiaddr = &found[i].1;
            proof {
                let longer: Seq<(Seq<u8>, Seq<Proto>)> = views.take(i + 1);
                assert(longer.drop_last() =~= views.take(i as int));
                assert(longer.last() == (peer@, addr@));
            }
            push_action(&mut out, Action::AddAddress(peer.dup(), addr.dup()));
            let target: Multiaddr = match rebuild_udp_quic(addr) {
                Some(c) => c,
                None => addr.dup(),
            };
            push_action(&mut out, Action::Dial(target));
            assert(effects(out@) =~= neighbour_effects(views.take(i + 1)));
            i += 1;
        }
        assert(views.take(i as int) =~= views);
        out
    }

    /// Remembers a public endpoint of this node.
    fn add_own_address(&mut self, addr: &Multiaddr)
        requires
            old(self).wf(),
        ensures
            final(self).wf(),
            final(self)@ == with_own_address(old(self)@, addr@),
    {
        if let Some(canonical) = rebuild_udp_quic(addr) {
            if is_public_udp_quic(&canonical) {
                proof {
                    crate::addr::canonical_form_is_stable(addr@);
                }
                let _ = self.my_addrs.insert(canonical);
            }
        }
        assert(self@ =~= with_own_address(old(self)@, addr@));
    }

    /// The node listens on a new address.
    pub fn on_listen_address(&mut self, addr: &Multiaddr, clock: Clock) -> (out: Vec<Action>)
        requires
            old(self).wf(),
        ensures
            final(self).wf(),
            final(self)@ == with_own_address(old(self)@, addr@),
            effects(out@) == listening_effects(old(self)@, addr@, clock),
            announces_clearly(final(self)@, clock),
    {
        let mut out: Vec<Action> = Vec::new();
        push_action(&mut out, Action::AddExternalAddress(addr.dup()));
        self.add_own_address(addr);
        let ghost first: Seq<Effect> = effects(out@);
        assert(first =~= seq![Effect::AddExternalAddress(addr@)]);
        self.announce(clock, &mut out);
        if let Some((ip, port)) = udp_ip_port(addr) {
            push_action(&mut out, Action::MapPort(ip, port));
        }
        out
    }

    /// An address of the node is confirmed from outside.
    pub fn on_external_address(&mut self, addr: &Multiaddr, clock: Clock) -> (out: Vec<Action>)
        requires
            old(self).wf(),
        ensures
            final(self).wf(),
            final(self)@ == with_own_address(old(self)@, addr@),
            effects(out@) == announce_effects(with_own_address(old(self)@, addr@), clock),
            announces_clearly(final(self)@, clock),
    {
        let mut out: Vec<Action> = Vec::new();
        self.add_own_address(addr);
        self.announce(clock, &mut out);
        assert(effects(out@) =~= announce_effects(self@, clock));
        out
    }

    /// A connection is established with `peer`, whose address is `remote`.
    pub fn on_connection(
        &mut self,
        peer: &PeerId,
        conn: u64,
        remote: &Multiaddr,
        clock: Clock,
    ) -> (out: Vec<Action>)
        requires
            old(self).wf(),
        ensures
            final(self).wf(),
            final(self)@ == after_connection(old(self)@, peer@, conn, remote@),
            effects(out@) == connection_effects(old(self)@, peer@, conn, remote@, clock),
            !old(self)@.announced_once ==> announces_clearly(old(self)@, clock),
    {
        let ghost m: NodeModel = self@;
        let mut out: Vec<Action> = Vec::new();
        assert(effects(out@) =~= Seq::<Effect>::empty());
        if !self.announced_once {
            self.announced_once = true;
            assert(announce_effects(self@, clock) == announce_effects(m, clock));
            self.announce(clock, &mut out);
        }
        let ghost said: Seq<Effect> = effects(out@);
        assert(said =~= first_connection_effects(m, clock));
        let ghost met: NodeModel = NodeModel { announced_once: true, ..m };
        assert(self@ =~= met);
        proof {
            connection_keeps_invariant(m, peer@, conn, remote@);
        }
        if goes_through_relay(remote) {
            if self.direct.contains(peer) {
                push_action(&mut out, Action::CloseConnection(conn));
            } else {
                self.relayed.push(peer.dup(), conn);
                assert(self@ =~= after_connection(m, peer@, conn, remote@));
            }
        } else {
            let _ = self.direct.insert(peer.dup());
            self.direct_conns.push(peer.dup(), conn);
            let closed: Vec<u64> = self.relayed.take_peer(peer);
            assert(self@ =~= after_connection(m, peer@, conn, remote@));
            let ghost all: Seq<Effect> = Seq::new(
                closed@.len(),
                |i: int| Effect::CloseConnection(closed@[i]),
            );
            let mut i: usize = 0;
            assert(said =~= said + all.take(0));
            while i < closed.len()
                invariant
                    i <= closed@.len(),
                    all == Seq::new(closed@.len(), |i: int| Effect::CloseConnection(closed@[i])),
                    effects(out@) == said + all.take(i as int),
                decreases closed@.len() - i,
            {
                push_action(&mut out, Action::CloseConnection(closed[i]));
                assert(effects(out@) =~= said + all.take(i + 1));
                i += 1;
            }
            assert(all.take(i as int) =~= all);
        }
        out
    }

    /// A connection with `peer` is closed.
    pub fn on_connection_closed(&mut self, peer: &PeerId, conn: u64)
        requires
            old(self).wf(),
        ensures
            final(self).wf(),
            final(self)@ == after_close(old(self)@, peer@, conn),
    {
        let ghost m: NodeModel = self@;
        self.direct_conns.remove(peer, conn);
        if !self.direct_conns.has(peer) {
            let _ = self.direct.remove(peer);
        }
        proof {
            assert(self@ =~= after_close(m, peer@, conn));
            close_keeps_invariant(m, peer@, conn);
        }
    }
}

proof fn lemma_all_parse(texts: Seq<Seq<char>>, addrs: Seq<Seq<Proto>>)
    requires
        texts.len() == addrs.len(),
        forall|i: int|
            0 <= i < texts.len() ==> parsed_multiaddr(#[trigger] texts[i]) == Some(addrs[i]),
    ensures
        parsed_addrs(texts) == addrs,
    decreases texts.len(),
{
    if texts.len() > 0 {
        lemma_all_parse(texts.drop_last(), addrs.drop_last());
        assert(texts.last() == texts[texts.len() - 1]);
        assert(addrs.drop_last().push(addrs.last()) =~= addrs);
    } else {
        assert(parsed_addrs(texts) =~= addrs);
    }
}

proof fn lemma_dials_are_free(m: NodeModel, dials: Map<DialKey, u64>)
    requires
        node_invariant(m),
    ensures
        node_invariant(NodeModel { dials, ..m }),
{
}

pub(crate) proof fn lemma_without_peer(list: Seq<PeerConn>, peer: Seq<u8>)
    ensures
        forall|i: int|
            0 <= i < without_peer(list, peer).len() ==> (#[trigger] without_peer(list, peer)[i]).0
                != peer && list.contains(without_peer(list, peer)[i]),
    decreases list.len(),
{
    if list.len() > 0 {
        let init: Seq<PeerConn> = list.drop_last();
        lemma_without_peer(init, peer);
        let kept: Seq<PeerConn> = without_peer(list, peer);
        assert forall|i: int| 0 <= i < kept.len() implies (#[trigger] kept[i]).0 != peer
            && list.contains(kept[i]) by {
            if i < without_peer(init, peer).len() {
                assert(kept[i] == without_peer(init, peer)[i]);
                let j: int = choose|j: int| 0 <= j < init.len() && init[j] == kept[i];
                assert(list[j] == kept[i]);
            } else {
                assert(kept[i] == list.last());
                assert(list[list.len() - 1] == kept[i]);
            }
        }
    }
}

pub(crate) proof fn lemma_without_conn(list: Seq<PeerConn>, peer: Seq<u8>, conn: u64)
    ensures
        forall|i: int|
            0 <= i < without_conn(list, peer, conn).len() ==> list.contains(
                #[trigger] without_conn(list, peer, conn)[i],
            ),
        forall|other: Seq<u8>|
            other != peer ==> #[trigger] conns_of(without_conn(list, peer, conn), other)
                == conns_of(list, other),
    decreases list.len(),
{
    if list.len() > 0 {
        let init: Seq<PeerConn> = list.drop_last();
        lemma_without_conn(init, peer, conn);
        let kept: Seq<PeerConn> = without_conn(list, peer, conn);
        let less: Seq<PeerConn> = without_conn(init, peer, conn);
        assert forall|i: int| 0 <= i < kept.len() implies list.contains(#[trigger] kept[i]) by {
            if i < less.len() {
                assert(kept[i] == less[i]);
                let j: int = choose|j: int| 0 <= j < init.len() && init[j] == kept[i];
                assert(list[j] == kept[i]);
            } else {
                assert(list[list.len() - 1] == kept[i]);
            }
        }
        assert forall|other: Seq<u8>| other != peer implies #[trigger] conns_of(kept, other)
            == conns_of(list, other) by {
            assert(conns_of(less, other) == conns_of(init, other));
            if list.last() != (peer, conn) {
                assert(kept.drop_last() =~= less);
            }
        }
    }
}

pub(crate) proof fn lemma_remove_value(list: Seq<Seq<u8>>, peer: Seq<u8>)
    requires
        list.no_duplicates(),
    ensures
        list.remove_value(peer).no_duplicates(),
        forall|p: Seq<u8>| #[trigger]
            list.remove_value(peer).contains(p) == (p != peer && list.contains(p)),
{
    let kept: Seq<Seq<u8>> = list.remove_value(peer);
    list.index_of_first_ensures(peer);
    assert forall|p: Seq<u8>| #[trigger] kept.contains(p) == (p != peer && list.contains(p)) by {
        if list.contains(peer) {
            let at: int = list.index_of_first(peer)->0;
            assert(kept == list.remove(at));
            if kept.contains(p) {
                let i: int = choose|i: int| 0 <= i < kept.len() && kept[i] == p;
                let j: int = if i < at {
                    i
                } else {
                    i + 1
                };
                assert(list[j] == p);
                assert(list[j] != list[at]);
            }
            if list.contains(p) && p != peer {
                let j: int = choose|j: int| 0 <= j < list.len() && list[j] == p;
                let i: int = if j < at {
                    j
                } else {
                    j - 1
                };
                assert(kept[i] == p);
            }
        }
    }
}

/// A new connection leaves the node in order.
pub proof fn connection_keeps_invariant(m: NodeModel, peer: Seq<u8>, conn: u64, remote: Seq<Proto>)
    requires
        node_invariant(m),
    ensures
        node_invariant(after_connection(m, peer, conn, remote)),
{
    let then: NodeModel = after_connection(m, peer, conn, remote);
    assert forall|p: Seq<u8>| #[trigger] then.direct.contains(p) == (conns_of(
        then.direct_conns,
        p,
    ).len() > 0) by {
        assert(m.direct.contains(p) == (conns_of(m.direct_conns, p).len() > 0));
        if !is_circuit(remote) {
            assert(then.direct_conns.drop_last() =~= m.direct_conns);
            if then.direct.contains(p) && p != peer {
                let i: int = choose|i: int| 0 <= i < then.direct.len() && then.direct[i] == p;
                assert(m.direct[i] == p);
            }
            if m.direct.contains(p) {
                let i: int = choose|i: int| 0 <= i < m.direct.len() && m.direct[i] == p;
                assert(then.direct[i] == p);
            }
            if !m.direct.contains(peer) {
                assert(then.direct[m.direct.len() as int] == peer);
            }
        }
    }
    lemma_without_peer(m.relayed, peer);
    assert forall|i: int| 0 <= i < then.relayed.len() implies !then.direct.contains(
        (#[trigger] then.relayed[i]).0,
    ) by {
        let entry: PeerConn = then.relayed[i];
        if !is_circuit(remote) {
            assert(entry == without_peer(m.relayed, peer)[i]);
            let j: int = choose|j: int| 0 <= j < m.relayed.len() && m.relayed[j] == entry;
            assert(!m.direct.contains(m.relayed[j].0));
            if then.direct.contains(entry.0) {
                let d: int = choose|d: int|
                    0 <= d < then.direct.len() && then.direct[d] == entry.0;
                if d < m.direct.len() {
                    assert(m.direct[d] == entry.0);
                }
            }
        } else if i < m.relayed.len() {
            assert(entry == m.relayed[i]);
        }
    }
}

/// A closed connection leaves the node in order.
pub proof fn close_keeps_invariant(m: NodeModel, peer: Seq<u8>, conn: u64)
    requires
        node_invariant(m),
    ensures
        node_invariant(after_close(m, peer, conn)),
{
    let then: NodeModel = after_close(m, peer, conn);
    lemma_without_conn(m.direct_conns, peer, conn);
    lemma_remove_value(m.direct, peer);
    lemma_fewer_conns(m.direct_conns, peer, conn);
    assert forall|p: Seq<u8>| #[trigger] then.direct.contains(p) == (conns_of(
        then.direct_conns,
        p,
    ).len() > 0) by {
        assert(m.direct.contains(p) == (conns_of(m.direct_conns, p).len() > 0));
        if then.direct != m.direct {
            assert(m.direct.remove_value(peer).contains(p) == (p != peer && m.direct.contains(p)));
        }
    }
    assert forall|i: int| 0 <= i < then.relayed.len() implies !then.direct.contains(
        (#[trigger] then.relayed[i]).0,
    ) by {
        let entry: PeerConn = m.relayed[i];
        assert(!m.direct.contains(entry.0));
        if then.direct != m.direct {
            assert(m.direct.remove_value(peer).contains(entry.0) == (entry.0 != peer
                && m.direct.contains(entry.0)));
        }
    }
}

proof fn lemma_fewer_conns(list: Seq<PeerConn>, peer: Seq<u8>, conn: u64)
    ensures
        conns_of(without_conn(list, peer, conn), peer).len() <= conns_of(list, peer).len(),
    decreases list.len(),
{
    if list.len() > 0 {
        let init: Seq<PeerConn> = list.drop_last();
        lemma_fewer_conns(init, peer, conn);
        if list.last() != (peer, conn) {
            let less: Seq<PeerConn> = without_conn(init, peer, conn);
            assert(less.push(list.last()).drop_last() =~= less);
        }
    }
}

/// What an action does is what it says, of each kind.
pub proof fn actions_do_what_they_say(
    list: Seq<Action>,
    i: int,
    data: Bytes,
    bytes: Vec<u8>,
    peer: PeerId,
    addr: Multiaddr,
    msg: AnnounceMsg,
    conn: u64,
    ip: Ipv4Addr,
    port: u16,
)
    ensures
        effects(list).len() == list.len(),
        0 <= i < list.len() ==> effects(list)[i] == list[i]@,
        Action::Publish(data)@ == Effect::Publish(bytes_contents(data)),
        Action::SendDirect(peer, bytes)@ == Effect::SendDirect(peer.bytes@, bytes@),
        Action::Deliver(data)@ == Effect::Deliver(bytes_contents(data)),
        Action::Acknowledge@ == Effect::Acknowledge,
        Action::AddAddress(peer, addr)@ == Effect::AddAddress(peer.bytes@, addr@),
        Action::Dial(addr)@ == Effect::Dial(addr@),
        Action::AddExternalAddress(addr)@ == Effect::AddExternalAddress(addr@),
        Action::Announce(msg)@ == Effect::Announce(msg@),
        msg@.peer == msg.peer@ && msg@.ts == msg.ts && msg@.addrs.len() == msg.addrs@.len(),
        0 <= i < msg.addrs@.len() ==> msg@.addrs[i] == msg.addrs@[i]@,
        Action::BootstrapDht@ == Effect::BootstrapDht,
        Action::CloseConnection(conn)@ == Effect::CloseConnection(conn),
        Action::MapPort(ip, port)@ == Effect::MapPort(ip, port),
        Action::Stop@ == Effect::Stop,
        peer@ == peer.bytes@,
        addr@.len() == addr.parts@.len(),
        0 <= i < addr.parts@.len() ==> addr@[i] == addr.parts@[i]@,
{
}

/// Lists stand for what they hold, in order; and a message is the node's own exactly where its source is
/// the node.
pub proof fn lists_stand_for_what_they_hold(
    addrs: Seq<Multiaddr>,
    found: Seq<(PeerId, Multiaddr)>,
    texts: Seq<String>,
    source: Option<PeerId>,
    local: Seq<u8>,
    i: int,
)
    ensures
        addr_views(addrs).len() == addrs.len(),
        0 <= i < addrs.len() ==> addr_views(addrs)[i] == addrs[i]@,
        found_views(found).len() == found.len(),
        0 <= i < found.len() ==> found_views(found)[i] == (found[i].0@, found[i].1@),
        text_views(texts).len() == texts.len(),
        0 <= i < texts.len() ==> text_views(texts)[i] == texts[i]@,
        source is None ==> !is_from(source, local),
        source matches Some(peer) ==> (is_from(source, local) <==> peer.bytes@ == local),
{
}

} // verus!
