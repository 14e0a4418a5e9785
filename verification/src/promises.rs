//! What each event comes to for those outside the node: whom it sends to, dials, tells and closes.

use vstd::prelude::*;

#[allow(unused_imports)]
use crate::addr::{
    canonical_of, endpoint_is_in_front_of_quic, endpoint_of, in_network, is_circuit, is_first_quic,
    is_last_ip4, is_last_udp, is_public_quic, parsed_multiaddr, public_addresses_by_component,
    udp_quic, udp_quic_chars, unrouted_networks, Ipv4Addr, Proto,
};
#[allow(unused_imports)]
use crate::batch::{batch_message, framed_packets, packets_in};
#[allow(unused_imports)]
use crate::dial::{
    conns_of, connections_are_listed_exactly, elapsed, in_cooldown, without_conn, without_expired,
    without_peer, DialKey, PeerConn,
};
#[allow(unused_imports)]
use crate::guarantees::{dials_address, reachable_addresses_are_tried};
#[allow(unused_imports)]
use crate::history::{after_event, event_effects, Event};
#[allow(unused_imports)]
use crate::node::{
    after_close, after_connection, after_identify, after_packet, announce_effects, announced_step,
    announced_steps, connection_effects, deliveries, dial_target, endpoint_chars, flush_effects,
    flushed, identify_effects, listen_step, listen_steps, listening_effects, neighbour_effects,
    packet_effects, parsed_addrs, with_own_address, Announcement, Clock, Effect, NodeModel,
};
#[allow(unused_imports)]
use crate::peer::peer_id_chars;

verus! {

/// While some peer is reached directly, what waits goes to these peers and to nobody else: each of them
/// gets one message with the whole batch, and nothing is published on the mesh.
pub proof fn direct_peers_are_served_directly(m: NodeModel, peer: Seq<u8>, i: int)
    requires
        m.direct.no_duplicates(),
        m.direct.len() > 0,
        m.batch.len() > 0,
    ensures
        flush_effects(m).len() == m.direct.len(),
        0 <= i < flush_effects(m).len() ==> {
            &&& flush_effects(m)[i] is SendDirect
            &&& flush_effects(m)[i]->SendDirect_0 == m.direct[i]
            &&& flush_effects(m)[i]->SendDirect_1 == batch_message(m.batch)
        },
        m.direct.contains(peer) ==> exists|k: int|
            {
                &&& 0 <= k < flush_effects(m).len()
                &&& #[trigger] flush_effects(m)[k] == Effect::SendDirect(peer, batch_message(m.batch))
                &&& forall|j: int|
                    0 <= j < flush_effects(m).len() && j != k
                        ==> (#[trigger] flush_effects(m)[j])->SendDirect_0 != peer
            },
{
    let sent: Seq<Effect> = flush_effects(m);
    if m.direct.contains(peer) {
        let k: int = choose|k: int| 0 <= k < m.direct.len() && m.direct[k] == peer;
        assert(sent[k] == Effect::SendDirect(peer, batch_message(m.batch)));
        assert forall|j: int| 0 <= j < sent.len() && j != k implies (
        #[trigger] sent[j])->SendDirect_0 != peer by {
            assert(m.direct[j] != m.direct[k]);
        }
    }
}

/// Where no peer is reached directly, what waits is published on the mesh, once; and where nothing
/// waits, nothing is sent.
pub proof fn the_mesh_serves_where_no_peer_is_direct(m: NodeModel)
    ensures
        m.batch.len() == 0 ==> flush_effects(m) == Seq::<Effect>::empty(),
        m.batch.len() > 0 && m.direct.len() == 0 ==> flush_effects(m) == seq![
            Effect::Publish(batch_message(m.batch)),
        ],
        flushed(m) == (NodeModel { batch: Seq::empty(), ..m }),
{
}

/// What becomes of a packet from the virtual interface. One longer than half the limit is published by
/// itself, behind what waits. Any other waits: behind the others where there is room for it under both
/// limits, else alone, once the others are sent. Nothing else about the node changes.
pub proof fn packets_wait_or_leave(m: NodeModel, pkt: Seq<u8>)
    ensures
        ({
            let then: NodeModel = after_packet(m, pkt);
            let did: Seq<Effect> = packet_effects(m, pkt);
            let room: bool = m.batch.len() < m.max_pkts && framed_packets(m.batch).len() + 2
                + pkt.len() < m.max_bytes;
            &&& then == (NodeModel { batch: then.batch, ..m })
            &&& pkt.len() > m.max_bytes / 2 ==> did == flush_effects(m) + seq![Effect::Publish(pkt)]
                && then.batch == Seq::<Seq<u8>>::empty()
            &&& pkt.len() <= m.max_bytes / 2 && room && m.batch.len() < 0xffff ==> did == Seq::<
                Effect,
            >::empty() && then.batch == m.batch + seq![pkt]
            &&& pkt.len() <= m.max_bytes / 2 && !room ==> did == flush_effects(m) && then.batch
                == seq![pkt]
        }),
{
    let did: Seq<Effect> = packet_effects(m, pkt);
    assert(flush_effects(m).push(Effect::Publish(pkt)) =~= flush_effects(m) + seq![
        Effect::Publish(pkt),
    ]);
    assert(m.batch.push(pkt) =~= m.batch + seq![pkt]);
}

/// What arrives is handed to the virtual interface, packet by packet and in order; a message over a
/// direct connection is acknowledged, once and last; the node's own messages are passed over.
pub proof fn what_arrives_is_delivered(m: NodeModel, data: Seq<u8>, source: Option<Seq<u8>>, i: int)
    ensures
        ({
            let pkts: Seq<Seq<u8>> = packets_in(data);
            let told: Seq<Effect> = event_effects(m, Event::Message { source, data });
            let asked: Seq<Effect> = event_effects(m, Event::Request(data));
            &&& source == Some(m.local) ==> told == Seq::<Effect>::empty()
            &&& source != Some(m.local) ==> told == deliveries(pkts)
            &&& deliveries(pkts).len() == pkts.len()
            &&& 0 <= i < pkts.len() ==> deliveries(pkts)[i] == Effect::Deliver(pkts[i])
            &&& asked.len() == pkts.len() + 1
            &&& 0 <= i < pkts.len() ==> asked[i] == Effect::Deliver(pkts[i])
            &&& asked[pkts.len() as int] == Effect::Acknowledge
        }),
{
}

/// Whether thirty seconds have passed since the last announcement, or there was none.
pub open spec fn may_announce(m: NodeModel, now: u64) -> bool {
    m.last_announce is None || now >= m.last_announce->0 + 30_000_000_000
}

/// A node that has an address to announce and a text for its identifier announces itself whenever
/// thirty seconds have passed since the last time, however long ago that was: once, with its identifier,
/// the time, and all of its addresses in order. Else it does not.
pub proof fn announcements_are_made_when_due(m: NodeModel, clock: Clock, i: int)
    ensures
        ({
            let did: Seq<Effect> = announce_effects(m, clock);
            if may_announce(m, clock.now) && m.my_addrs.len() > 0 && peer_id_chars(m.local) is Some {
                &&& did.len() == 1
                &&& did[0] matches Effect::Announce(a) && {
                    &&& a.peer == peer_id_chars(m.local)->0
                    &&& a.ts == clock.unix_secs
                    &&& a.addrs.len() == m.my_addrs.len()
                    &&& 0 <= i < m.my_addrs.len() ==> a.addrs[i] == endpoint_chars(m.my_addrs[i])
                }
            } else {
                did == Seq::<Effect>::empty()
            }
        }),
{
}

/// An endpoint is announced by its text.
pub proof fn endpoints_are_announced_by_their_text(ip: Ipv4Addr, port: u16)
    ensures
        endpoint_chars(seq![Proto::Ip4(ip), Proto::Udp(port), Proto::QuicV1]) == udp_quic_chars(
            ip,
            port,
        ),
{
    let addr: Seq<Proto> = seq![Proto::Ip4(ip), Proto::Udp(port), Proto::QuicV1];
    let front: Seq<Proto> = addr.take(2);
    assert(is_first_quic(addr, 2));
    assert(is_last_ip4(front, 0, ip));
    assert(is_last_udp(front, 1, port));
    endpoint_is_in_front_of_quic(addr, 2, ip, port);
}

/// The events at which a node announces itself where that is due: an identification, a change of its
/// reachability, a new listen address or a confirmed address, which then are among those announced, and
/// its first connection.
pub proof fn these_events_announce(
    m: NodeModel,
    peer: Seq<u8>,
    addrs: Seq<Seq<Proto>>,
    observed: Seq<Proto>,
    conn: u64,
    clock: Clock,
    a: Effect,
)
    ensures
        announce_effects(m, clock).contains(a) ==> {
            &&& event_effects(m, Event::Identified { peer, addrs, observed, clock }).contains(a)
            &&& !m.announced_once ==> event_effects(
                m,
                Event::Connected { peer, conn, remote: observed, clock },
            ).contains(a)
        },
        event_effects(m, Event::Reachability(clock)) == announce_effects(m, clock),
        announce_effects(with_own_address(m, observed), clock).contains(a) ==> event_effects(
            m,
            Event::Listening(observed, clock),
        ).contains(a),
        event_effects(m, Event::External(observed, clock)) == announce_effects(
            with_own_address(m, observed),
            clock,
        ),
{
    let said: Seq<Effect> = announce_effects(m, clock);
    if said.contains(a) {
        let k: int = choose|k: int| 0 <= k < said.len() && said[k] == a;
        let all: Seq<Effect> = identify_effects(m, peer, addrs, observed, clock);
        let dialled: Seq<Effect> = listen_steps(
            without_expired(m.dials, peer, clock.now),
            peer,
            addrs,
            m.direct.contains(peer),
            clock.now,
        ).0;
        assert(all[dialled.len() + 1 + k] == a);
        let met: Seq<Effect> = connection_effects(m, peer, conn, observed, clock);
        if !m.announced_once {
            assert(met[k] == a);
        }
    }
    let own: Seq<Effect> = announce_effects(with_own_address(m, observed), clock);
    if own.contains(a) {
        let k: int = choose|k: int| 0 <= k < own.len() && own[k] == a;
        assert(listening_effects(m, observed, clock)[1 + k] == a);
    }
}

/// Whether an address of a peer rests: it was dialled less than thirty seconds ago.
pub open spec fn rests(m: NodeModel, peer: Seq<u8>, addr: Seq<Proto>, now: u64) -> bool {
    m.dials.contains_key((peer, addr)) && now < m.dials[(peer, addr)] + 30_000_000_000
}

/// Every address with a relay circuit anywhere in it, that a peer without a direct connection listens
/// on, is dialled as it is, unless it rests.
pub proof fn relay_addresses_are_dialled(
    m: NodeModel,
    peer: Seq<u8>,
    addrs: Seq<Seq<Proto>>,
    observed: Seq<Proto>,
    clock: Clock,
    i: int,
    c: int,
)
    requires
        !m.direct.contains(peer),
        0 <= i < addrs.len(),
        0 <= c < addrs[i].len(),
        addrs[i][c] == Proto::P2pCircuit,
        !rests(m, peer, addrs[i], clock.now),
    ensures
        identify_effects(m, peer, addrs, observed, clock).contains(Effect::Dial(addrs[i])),
{
    assert(is_circuit(addrs[i]));
    reachable_addresses_are_tried(m, peer, addrs, observed, clock, i);
}

/// Whether no component of an address is a relay circuit.
pub open spec fn needs_no_relay(addr: Seq<Proto>) -> bool {
    forall|c: int| 0 <= c < addr.len() ==> #[trigger] addr[c] != Proto::P2pCircuit
}

/// Whether an IPv4 address is in none of the private, reserved and multicast networks.
pub open spec fn is_routed(ip: Ipv4Addr) -> bool {
    forall|n: int|
        0 <= n < unrouted_networks().len() ==> !in_network(
            ip,
            (#[trigger] unrouted_networks()[n]).0,
            unrouted_networks()[n].1,
        )
}

/// Every other address that a peer without a direct connection listens on, whose endpoint in front of
/// QUIC is public, is dialled at that endpoint, unless it rests.
pub proof fn public_addresses_are_dialled(
    m: NodeModel,
    peer: Seq<u8>,
    addrs: Seq<Seq<Proto>>,
    observed: Seq<Proto>,
    clock: Clock,
    i: int,
    q: int,
    ip: Ipv4Addr,
    at: int,
    port: u16,
    udp: int,
)
    requires
        !m.direct.contains(peer),
        0 <= i < addrs.len(),
        needs_no_relay(addrs[i]),
        is_first_quic(addrs[i], q),
        is_last_ip4(addrs[i].take(q), at, ip),
        is_last_udp(addrs[i].take(q), udp, port),
        is_routed(ip),
        !rests(m, peer, seq![Proto::Ip4(ip), Proto::Udp(port), Proto::QuicV1], clock.now),
    ensures
        identify_effects(m, peer, addrs, observed, clock).contains(
            Effect::Dial(seq![Proto::Ip4(ip), Proto::Udp(port), Proto::QuicV1]),
        ),
{
    let addr: Seq<Proto> = addrs[i];
    let target: Seq<Proto> = seq![Proto::Ip4(ip), Proto::Udp(port), Proto::QuicV1];
    endpoint_is_in_front_of_quic(addr, q, ip, port);
    public_addresses_by_component(addr);
    assert(is_public_quic(target)) by {
        public_addresses_by_component(target);
        assert(is_last_ip4(target, 0, ip));
        assert(target[1] is Udp);
        assert(target[2] == Proto::QuicV1);
    }
    assert(dial_target(addr) == Some(target));
    reachable_addresses_are_tried(m, peer, addrs, observed, clock, i);
}

/// Whether dialling `d` is what the listen address `addr` of a peer asks for.
pub open spec fn is_asked_for(addr: Seq<Proto>, d: Seq<Proto>) -> bool {
    ||| !needs_no_relay(addr) && d == addr
    ||| {
        &&& needs_no_relay(addr)
        &&& is_public_quic(d)
        &&& canonical_of(addr) == Some(d) || (canonical_of(addr) is None && d == addr)
    }
}

/// Whether an effect of the listen addresses of a peer is one of those there can be: an address that it
/// listens on is told to the hash table, or what one of them asks for is dialled.
spec fn is_listen_effect(e: Effect, peer: Seq<u8>, addrs: Seq<Seq<Proto>>) -> bool {
    ||| exists|k: int|
        0 <= k < addrs.len() && e == Effect::AddAddress(peer, #[trigger] addrs[k])
    ||| e is Dial && exists|k: int|
        0 <= k < addrs.len() && is_asked_for(#[trigger] addrs[k], e->Dial_0)
}

proof fn lemma_listen_effects(
    dials: Map<DialKey, u64>,
    peer: Seq<u8>,
    addrs: Seq<Seq<Proto>>,
    is_direct: bool,
    now: u64,
    i: int,
)
    requires
        0 <= i < listen_steps(dials, peer, addrs, is_direct, now).0.len(),
    ensures
        is_listen_effect(listen_steps(dials, peer, addrs, is_direct, now).0[i], peer, addrs),
    decreases addrs.len(),
{
    let init: Seq<Seq<Proto>> = addrs.drop_last();
    let last: int = addrs.len() - 1;
    let (done, known) = listen_steps(dials, peer, init, is_direct, now);
    let (more, then) = listen_step(known, peer, addrs.last(), is_direct, now);
    let e: Effect = listen_steps(dials, peer, addrs, is_direct, now).0[i];
    if i < done.len() {
        lemma_listen_effects(dials, peer, init, is_direct, now, i);
        if exists|k: int| 0 <= k < init.len() && e == Effect::AddAddress(peer, #[trigger] init[k]) {
            let k: int = choose|k: int|
                0 <= k < init.len() && e == Effect::AddAddress(peer, #[trigger] init[k]);
            assert(addrs[k] == init[k]);
        } else {
            let k: int = choose|k: int|
                0 <= k < init.len() && is_asked_for(#[trigger] init[k], e->Dial_0);
            assert(addrs[k] == init[k]);
        }
    } else {
        public_addresses_by_component(addrs[last]);
        if i == done.len() {
            assert(e == Effect::AddAddress(peer, addrs[last]));
        } else {
            assert(is_asked_for(addrs[last], e->Dial_0));
        }
    }
}

/// All that an identification can lead to: addresses of that peer for the hash table, dials that its
/// addresses ask for, the observed address as one of the node's own, which is always offered, the due
/// announcement, and the bootstrap of the hash table, which is started exactly while it was not.
pub proof fn identification_leads_to_nothing_else(
    m: NodeModel,
    peer: Seq<u8>,
    addrs: Seq<Seq<Proto>>,
    observed: Seq<Proto>,
    clock: Clock,
    i: int,
)
    ensures
        ({
            let did: Seq<Effect> = identify_effects(m, peer, addrs, observed, clock);
            &&& did.contains(Effect::AddExternalAddress(observed))
            &&& did.contains(Effect::BootstrapDht) <==> !m.kad_bootstrapped
            &&& 0 <= i < did.len() ==> {
                ||| exists|k: int|
                    0 <= k < addrs.len() && did[i] == Effect::AddAddress(peer, #[trigger] addrs[k])
                ||| did[i] is Dial && exists|k: int|
                    0 <= k < addrs.len() && is_asked_for(#[trigger] addrs[k], did[i]->Dial_0)
                ||| did[i] == Effect::AddExternalAddress(observed)
                ||| announce_effects(m, clock).contains(did[i])
                ||| did[i] == Effect::BootstrapDht && !m.kad_bootstrapped && i == did.len() - 1
            }
        }),
{
    let fresh: Map<DialKey, u64> = without_expired(m.dials, peer, clock.now);
    let is_direct: bool = m.direct.contains(peer);
    let dialled: Seq<Effect> = listen_steps(fresh, peer, addrs, is_direct, clock.now).0;
    let said: Seq<Effect> = announce_effects(m, clock);
    let did: Seq<Effect> = identify_effects(m, peer, addrs, observed, clock);
    let n: int = dialled.len() as int;
    assert(did[n] == Effect::AddExternalAddress(observed));
    assert forall|j: int| 0 <= j < n implies is_listen_effect(#[trigger] did[j], peer, addrs) by {
        lemma_listen_effects(fresh, peer, addrs, is_direct, clock.now, j);
        assert(did[j] == dialled[j]);
    }
    assert forall|j: int| n < j < n + 1 + said.len() implies said.contains(#[trigger] did[j]) by {
        assert(did[j] == said[j - n - 1]);
    }
    if !m.kad_bootstrapped {
        assert(did[did.len() - 1] == Effect::BootstrapDht);
    } else if did.contains(Effect::BootstrapDht) {
        let j: int = choose|j: int| 0 <= j < did.len() && did[j] == Effect::BootstrapDht;
        if j < n {
            assert(is_listen_effect(did[j], peer, addrs));
        } else if j > n {
            assert(said.contains(did[j]));
        }
    }
    if 0 <= i < n {
        assert(is_listen_effect(did[i], peer, addrs));
    } else if n < i < n + 1 + said.len() {
        assert(said.contains(did[i]));
    }
}

/// What a node remembers of its dials after an identification or an announcement: a dial that the event
/// led to, at the time of the event, and every other record as it was, but for those of an identified
/// peer that have rested long enough.
pub proof fn dials_are_remembered(
    m: NodeModel,
    peer: Seq<u8>,
    addrs: Seq<Seq<Proto>>,
    observed: Seq<Proto>,
    clock: Clock,
    key: DialKey,
)
    ensures
        ({
            let did: Seq<Effect> = identify_effects(m, peer, addrs, observed, clock);
            let then: Map<DialKey, u64> = after_identify(m, peer, addrs, clock.now).dials;
            let told: Seq<Effect> = announced_steps(m.dials, peer, addrs, clock.now).0;
            let after: Map<DialKey, u64> = announced_steps(m.dials, peer, addrs, clock.now).1;
            let kept: bool = m.dials.contains_key(key) && (key.0 != peer || clock.now
                < m.dials[key] + 30_000_000_000);
            &&& after_identify(m, peer, addrs, clock.now) == (NodeModel { dials: then, ..m })
            &&& key.0 == peer && did.contains(Effect::Dial(key.1)) ==> then.contains_key(key)
                && then[key] == clock.now
            &&& !(key.0 == peer && did.contains(Effect::Dial(key.1))) ==> then.contains_key(key)
                == kept && (kept ==> then[key] == m.dials[key])
            &&& key.0 == peer && told.contains(Effect::Dial(key.1)) ==> after.contains_key(key)
                && after[key] == clock.now
            &&& !(key.0 == peer && told.contains(Effect::Dial(key.1))) ==> after.contains_key(key)
                == m.dials.contains_key(key) && (m.dials.contains_key(key) ==> after[key]
                == m.dials[key])
        }),
{
    let fresh: Map<DialKey, u64> = without_expired(m.dials, peer, clock.now);
    let is_direct: bool = m.direct.contains(peer);
    lemma_remembered(fresh, peer, addrs, is_direct, clock.now, key);
    lemma_remembered(m.dials, peer, addrs, is_direct, clock.now, key);
    let dialled: Seq<Effect> = listen_steps(fresh, peer, addrs, is_direct, clock.now).0;
    let did: Seq<Effect> = identify_effects(m, peer, addrs, observed, clock);
    let e: Effect = Effect::Dial(key.1);
    assert(did.contains(e) <==> dialled.contains(e)) by {
        if dialled.contains(e) {
            let j: int = choose|j: int| 0 <= j < dialled.len() && dialled[j] == e;
            assert(did[j] == e);
        }
        if did.contains(e) {
            let j: int = choose|j: int| 0 <= j < did.len() && did[j] == e;
            let n: int = dialled.len() as int;
            let said: Seq<Effect> = announce_effects(m, clock);
            if j < n {
                assert(dialled[j] == e);
            } else if n < j < n + 1 + said.len() {
                assert(did[j] == said[j - n - 1]);
            }
        }
    }
}

proof fn lemma_remembered(
    dials: Map<DialKey, u64>,
    peer: Seq<u8>,
    addrs: Seq<Seq<Proto>>,
    is_direct: bool,
    now: u64,
    key: DialKey,
)
    ensures
        ({
            let (did, then) = listen_steps(dials, peer, addrs, is_direct, now);
            let (told, after) = announced_steps(dials, peer, addrs, now);
            let e: Effect = Effect::Dial(key.1);
            &&& key.0 == peer && did.contains(e) ==> then.contains_key(key) && then[key] == now
            &&& !(key.0 == peer && did.contains(e)) ==> then.contains_key(key)
                == dials.contains_key(key) && (dials.contains_key(key) ==> then[key] == dials[key])
            &&& key.0 == peer && told.contains(e) ==> after.contains_key(key) && after[key] == now
            &&& !(key.0 == peer && told.contains(e)) ==> after.contains_key(key)
                == dials.contains_key(key) && (dials.contains_key(key) ==> after[key]
                == dials[key])
        }),
    decreases addrs.len(),
{
    let e: Effect = Effect::Dial(key.1);
    if addrs.len() > 0 {
        let init: Seq<Seq<Proto>> = addrs.drop_last();
        lemma_remembered(dials, peer, init, is_direct, now, key);
        let (done, known) = listen_steps(dials, peer, init, is_direct, now);
        let (more, then) = listen_step(known, peer, addrs.last(), is_direct, now);
        crate::guarantees::lemma_contains_concat(done, more, e);
        assert(more.len() == 2 && more[1] == e ==> more.contains(e));
        assert(more.contains(e) ==> more.len() == 2 && more[1] == e);
        let (told, seen) = announced_steps(dials, peer, init, now);
        let (others, after) = announced_step(seen, peer, addrs.last(), now);
        crate::guarantees::lemma_contains_concat(told, others, e);
        assert(others.len() == 2 && others[1] == e ==> others.contains(e));
        assert(others.contains(e) ==> others.len() == 2 && others[1] == e);
    }
}

/// An announced address that needs no relay, has UDP and QUIC and a public IPv4 address, and does not
/// rest, is told to the hash table and dialled, as it is; and no other address is.
pub proof fn announced_public_addresses_are_dialled(
    m: NodeModel,
    peer: Seq<u8>,
    addrs: Seq<Seq<Proto>>,
    now: u64,
    i: int,
    d: Effect,
)
    ensures
        ({
            let did: Seq<Effect> = announced_steps(m.dials, peer, addrs, now).0;
            &&& (0 <= i < addrs.len() && is_public_quic(addrs[i]) && !rests(
                m,
                peer,
                addrs[i],
                now,
            )) ==> did.contains(Effect::Dial(addrs[i])) && did.contains(
                Effect::AddAddress(peer, addrs[i]),
            )
            &&& did.contains(d) ==> exists|k: int|
                0 <= k < addrs.len() && is_public_quic(#[trigger] addrs[k]) && !rests(
                    m,
                    peer,
                    addrs[k],
                    now,
                ) && (d == Effect::Dial(addrs[k]) || d == Effect::AddAddress(peer, addrs[k]))
        }),
{
    lemma_announced(m.dials, peer, addrs, now, i, d);
}

proof fn lemma_announced(
    dials: Map<DialKey, u64>,
    peer: Seq<u8>,
    addrs: Seq<Seq<Proto>>,
    now: u64,
    i: int,
    d: Effect,
)
    ensures
        ({
            let did: Seq<Effect> = announced_steps(dials, peer, addrs, now).0;
            &&& (0 <= i < addrs.len() && is_public_quic(addrs[i]) && !in_cooldown(
                dials,
                peer,
                addrs[i],
                now,
            )) ==> did.contains(Effect::Dial(addrs[i])) && did.contains(
                Effect::AddAddress(peer, addrs[i]),
            )
            &&& did.contains(d) ==> exists|k: int|
                0 <= k < addrs.len() && is_public_quic(#[trigger] addrs[k]) && !in_cooldown(
                    dials,
                    peer,
                    addrs[k],
                    now,
                ) && (d == Effect::Dial(addrs[k]) || d == Effect::AddAddress(peer, addrs[k]))
        }),
    decreases addrs.len(),
{
    if addrs.len() > 0 {
        let init: Seq<Seq<Proto>> = addrs.drop_last();
        let last: Seq<Proto> = addrs.last();
        let end: int = addrs.len() - 1;
        let (done, known) = announced_steps(dials, peer, init, now);
        let (more, then) = announced_step(known, peer, last, now);
        lemma_announced(dials, peer, init, now, i, d);
        lemma_remembered(dials, peer, init, false, now, (peer, last));
        crate::guarantees::lemma_contains_concat(done, more, d);
        if 0 <= i < addrs.len() {
            crate::guarantees::lemma_contains_concat(done, more, Effect::Dial(addrs[i]));
            crate::guarantees::lemma_contains_concat(
                done,
                more,
                Effect::AddAddress(peer, addrs[i]),
            );
        }
        if more.len() == 2 {
            assert(more[0] == Effect::AddAddress(peer, last) && more.contains(more[0]));
            assert(more[1] == Effect::Dial(last) && more.contains(more[1]));
        }
        if i == end && is_public_quic(last) && !in_cooldown(dials, peer, last, now) {
            if done.contains(Effect::Dial(last)) {
                lemma_announced_pairs(dials, peer, init, now, last);
            }
        }
        if done.contains(d) {
            let k: int = choose|k: int|
                0 <= k < init.len() && is_public_quic(#[trigger] init[k]) && !in_cooldown(
                    dials,
                    peer,
                    init[k],
                    now,
                ) && (d == Effect::Dial(init[k]) || d == Effect::AddAddress(peer, init[k]));
            assert(addrs[k] == init[k]);
        } else if more.contains(d) {
            assert(addrs[end] == last);
            if in_cooldown(dials, peer, last, now) {
                crate::guarantees::lemma_rest_is_kept(dials, peer, init, false, now, (peer, last));
            }
        }
    }
}

proof fn lemma_announced_pairs(
    dials: Map<DialKey, u64>,
    peer: Seq<u8>,
    addrs: Seq<Seq<Proto>>,
    now: u64,
    addr: Seq<Proto>,
)
    requires
        announced_steps(dials, peer, addrs, now).0.contains(Effect::Dial(addr)),
    ensures
        announced_steps(dials, peer, addrs, now).0.contains(Effect::AddAddress(peer, addr)),
    decreases addrs.len(),
{
    if addrs.len() > 0 {
        let init: Seq<Seq<Proto>> = addrs.drop_last();
        let (done, known) = announced_steps(dials, peer, init, now);
        let (more, then) = announced_step(known, peer, addrs.last(), now);
        crate::guarantees::lemma_contains_concat(done, more, Effect::Dial(addr));
        crate::guarantees::lemma_contains_concat(done, more, Effect::AddAddress(peer, addr));
        if done.contains(Effect::Dial(addr)) {
            lemma_announced_pairs(dials, peer, init, now, addr);
        } else {
            assert(more[0] == Effect::AddAddress(peer, addr));
        }
    }
}

/// Every neighbour that is found is told to the hash table and dialled, in order: at its endpoint, or
/// at its address where that has none.
pub proof fn neighbours_are_dialled(found: Seq<(Seq<u8>, Seq<Proto>)>, i: int)
    ensures
        neighbour_effects(found).len() == 2 * found.len(),
        0 <= i < found.len() ==> {
            &&& neighbour_effects(found)[2 * i] == Effect::AddAddress(found[i].0, found[i].1)
            &&& neighbour_effects(found)[2 * i + 1] == Effect::Dial(
                if canonical_of(found[i].1) is Some {
                    canonical_of(found[i].1)->0
                } else {
                    found[i].1
                },
            )
        },
    decreases found.len(),
{
    if found.len() > 0 {
        neighbours_are_dialled(found.drop_last(), i);
    }
}

/// A node remembers, of an address that it may be reached under, the endpoint where that is public, once
/// and behind those it knows; it forgets none, and remembers nothing else.
pub proof fn own_endpoints_are_remembered(m: NodeModel, addr: Seq<Proto>, c: Seq<Proto>)
    ensures
        ({
            let then: NodeModel = with_own_address(m, addr);
            &&& then == (NodeModel { my_addrs: then.my_addrs, ..m })
            &&& canonical_of(addr) == Some(c) && is_public_quic(c) && !m.my_addrs.contains(c)
                ==> then.my_addrs == m.my_addrs + seq![c]
            &&& canonical_of(addr) == Some(c) && (!is_public_quic(c) || m.my_addrs.contains(c))
                ==> then.my_addrs == m.my_addrs
            &&& canonical_of(addr) is None ==> then.my_addrs == m.my_addrs
        }),
{
    assert(m.my_addrs.push(c) =~= m.my_addrs + seq![c]);
}

/// A node that listens on a new address offers that address, announces itself where that is due, and
/// asks the gateway for its port exactly where the address has an IPv4 UDP endpoint; it does nothing
/// else.
pub proof fn listening_leads_to_nothing_else(
    m: NodeModel,
    addr: Seq<Proto>,
    clock: Clock,
    ip: Ipv4Addr,
    port: u16,
    i: int,
)
    ensures
        ({
            let did: Seq<Effect> = listening_effects(m, addr, clock);
            let said: Seq<Effect> = announce_effects(with_own_address(m, addr), clock);
            &&& did.len() > 0 && did[0] == Effect::AddExternalAddress(addr)
            &&& did.contains(Effect::MapPort(ip, port)) <==> endpoint_of(addr) == Some((ip, port))
            &&& 0 < i < did.len() ==> said.contains(did[i]) || (did[i] is MapPort && i == did.len()
                - 1)
        }),
{
    let did: Seq<Effect> = listening_effects(m, addr, clock);
    let said: Seq<Effect> = announce_effects(with_own_address(m, addr), clock);
    let e: Effect = Effect::MapPort(ip, port);
    assert forall|j: int| 1 <= j < 1 + said.len() implies said.contains(#[trigger] did[j]) by {
        assert(did[j] == said[j - 1]);
    }
    if endpoint_of(addr) == Some((ip, port)) {
        assert(did[did.len() - 1] == e);
    }
    if did.contains(e) {
        let j: int = choose|j: int| 0 <= j < did.len() && did[j] == e;
        if 1 <= j < 1 + said.len() {
            assert(said[j - 1] == e);
        }
    }
    if 1 <= i < 1 + said.len() {
        assert(said.contains(did[i]));
    }
}

/// What a new connection makes a node close: where it is direct, exactly the connections of that peer
/// that are on record as going through a relay; where it goes through a relay, itself, exactly where the
/// peer is reached directly. Besides, only the first connection leads to anything, an announcement.
pub proof fn connections_close_what_they_replace(
    m: NodeModel,
    peer: Seq<u8>,
    conn: u64,
    remote: Seq<Proto>,
    clock: Clock,
    c: u64,
    i: int,
)
    ensures
        ({
            let did: Seq<Effect> = connection_effects(m, peer, conn, remote, clock);
            &&& did.contains(Effect::CloseConnection(c)) <==> if needs_no_relay(remote) {
                m.relayed.contains((peer, c))
            } else {
                m.direct.contains(peer) && c == conn
            }
            &&& 0 <= i < did.len() && !(did[i] is CloseConnection) ==> !m.announced_once
                && announce_effects(m, clock).contains(did[i])
        }),
{
    let did: Seq<Effect> = connection_effects(m, peer, conn, remote, clock);
    let said: Seq<Effect> = crate::node::first_connection_effects(m, clock);
    let n: int = said.len() as int;
    let e: Effect = Effect::CloseConnection(c);
    let gone: Seq<u64> = conns_of(m.relayed, peer);
    public_addresses_by_component(remote);
    connections_are_listed_exactly(m.relayed, peer, c, (peer, c));
    assert(needs_no_relay(remote) <==> !is_circuit(remote));
    assert forall|j: int| 0 <= j < n implies announce_effects(m, clock).contains(
        #[trigger] did[j],
    ) && !m.announced_once && did[j] is Announce by {
        assert(did[j] == said[j]);
        assert(announce_effects(m, clock)[j] == did[j]);
    }
    if needs_no_relay(remote) {
        assert forall|j: int| n <= j < did.len() implies #[trigger] did[j]
            == Effect::CloseConnection(gone[j - n]) by {}
        if m.relayed.contains((peer, c)) {
            let k: int = choose|k: int| 0 <= k < gone.len() && gone[k] == c;
            assert(did[n + k] == e);
        }
        if did.contains(e) {
            let j: int = choose|j: int| 0 <= j < did.len() && did[j] == e;
            if j < n {
                assert(did[j] is Announce);
            }
            assert(gone[j - n] == c);
        }
    } else {
        if m.direct.contains(peer) {
            assert(did[n] == Effect::CloseConnection(conn));
        }
        if did.contains(e) {
            let j: int = choose|j: int| 0 <= j < did.len() && did[j] == e;
            if j < n {
                assert(did[j] is Announce);
            }
        }
    }
}

/// What a node knows of its connections after a new one: a direct one makes its peer one that is reached
/// directly, as long as it is open, and takes the place of those of the peer through a relay; one
/// through a relay is recorded exactly where the peer is not reached directly.
pub proof fn connections_are_recorded(
    m: NodeModel,
    peer: Seq<u8>,
    conn: u64,
    remote: Seq<Proto>,
    other: Seq<u8>,
    entry: PeerConn,
)
    ensures
        ({
            let then: NodeModel = after_connection(m, peer, conn, remote);
            &&& then == (NodeModel {
                direct: then.direct,
                direct_conns: then.direct_conns,
                relayed: then.relayed,
                announced_once: true,
                ..m
            })
            &&& needs_no_relay(remote) ==> {
                &&& then.direct.contains(other) <==> m.direct.contains(other) || other == peer
                &&& then.direct_conns == m.direct_conns + seq![(peer, conn)]
                &&& then.relayed.contains(entry) <==> m.relayed.contains(entry) && entry.0 != peer
                &&& m.direct.contains(peer) ==> then.direct == m.direct
                &&& !m.direct.contains(peer) ==> then.direct == m.direct + seq![peer]
            }
            &&& !needs_no_relay(remote) ==> {
                &&& then.direct == m.direct
                &&& then.direct_conns == m.direct_conns
                &&& m.direct.contains(peer) ==> then.relayed == m.relayed
                &&& !m.direct.contains(peer) ==> then.relayed == m.relayed + seq![(peer, conn)]
            }
        }),
{
    public_addresses_by_component(remote);
    connections_are_listed_exactly(m.relayed, peer, conn, entry);
    assert(needs_no_relay(remote) <==> !is_circuit(remote));
    assert(m.direct_conns.push((peer, conn)) =~= m.direct_conns + seq![(peer, conn)]);
    assert(m.relayed.push((peer, conn)) =~= m.relayed + seq![(peer, conn)]);
    assert(m.direct.push(peer) =~= m.direct + seq![peer]);
    let then: NodeModel = after_connection(m, peer, conn, remote);
    if needs_no_relay(remote) && !m.direct.contains(peer) {
        assert(then.direct[m.direct.len() as int] == peer);
        if m.direct.contains(other) {
            let k: int = choose|k: int| 0 <= k < m.direct.len() && m.direct[k] == other;
            assert(then.direct[k] == other);
        }
        if then.direct.contains(other) && other != peer {
            let k: int = choose|k: int| 0 <= k < then.direct.len() && then.direct[k] == other;
            assert(m.direct[k] == other);
        }
    }
}

/// A peer is reached directly after one of its connections is closed exactly where it was and another
/// direct connection of it is open; no other peer is touched, and neither is any other connection.
pub proof fn closing_ends_what_it_ends(
    m: NodeModel,
    peer: Seq<u8>,
    conn: u64,
    other: Seq<u8>,
    entry: PeerConn,
)
    requires
        m.direct.no_duplicates(),
    ensures
        ({
            let then: NodeModel = after_close(m, peer, conn);
            &&& then == (NodeModel { direct: then.direct, direct_conns: then.direct_conns, ..m })
            &&& then.direct_conns.contains(entry) <==> m.direct_conns.contains(entry) && entry != (
                peer,
                conn,
            )
            &&& other != peer ==> (then.direct.contains(other) <==> m.direct.contains(other))
            &&& then.direct.contains(peer) <==> m.direct.contains(peer) && exists|c: u64|
                c != conn && #[trigger] m.direct_conns.contains((peer, c))
        }),
{
    let then: NodeModel = after_close(m, peer, conn);
    let left: Seq<PeerConn> = without_conn(m.direct_conns, peer, conn);
    connections_are_listed_exactly(m.direct_conns, peer, conn, entry);
    crate::node::lemma_remove_value(m.direct, peer);
    if conns_of(left, peer).len() > 0 {
        let c: u64 = conns_of(left, peer)[0];
        assert(conns_of(left, peer).contains(c));
        connections_are_listed_exactly(left, peer, c, (peer, c));
        connections_are_listed_exactly(m.direct_conns, peer, conn, (peer, c));
    }
    if exists|c: u64| c != conn && #[trigger] m.direct_conns.contains((peer, c)) {
        let c: u64 = choose|c: u64| c != conn && #[trigger] m.direct_conns.contains((peer, c));
        connections_are_listed_exactly(m.direct_conns, peer, conn, (peer, c));
        connections_are_listed_exactly(left, peer, c, (peer, c));
        assert(conns_of(left, peer).contains(c));
    }
}

/// Every event changes its own part of what a node knows and leaves the rest as it is.
pub proof fn events_change_only_their_part(m: NodeModel, e: Event)
    ensures
        ({
            let then: NodeModel = after_event(m, e);
            &&& then.local == m.local && then.max_bytes == m.max_bytes && then.max_pkts
                == m.max_pkts
            &&& e is Tick || e is TunClosed || e is Packet || then.batch == m.batch
            &&& e is Tick || e is TunClosed ==> then.batch == Seq::<Seq<u8>>::empty()
            &&& e is Connected || e is Disconnected || (then.direct == m.direct && then.direct_conns
                == m.direct_conns && then.relayed == m.relayed)
            &&& e is Announced || e is Identified || then.dials == m.dials
            &&& e is Listening || e is External || then.my_addrs == m.my_addrs
            &&& e is Connected || then.announced_once == m.announced_once
            &&& then.last_announce == (if e is AnnouncePublished {
                Some(e->AnnouncePublished_0)
            } else {
                m.last_announce
            })
            &&& then.kad_bootstrapped == (m.kad_bootstrapped || e is BootstrapStarted)
        }),
{
}

/// The addresses that are read from texts are those that parse, in the order of the texts.
pub proof fn texts_that_parse_are_kept(texts: Seq<Seq<char>>, last: Seq<char>)
    ensures
        parsed_addrs(Seq::<Seq<char>>::empty()) == Seq::<Seq<Proto>>::empty(),
        parsed_addrs(texts.push(last)) == if parsed_multiaddr(last) is Some {
            parsed_addrs(texts).push(parsed_multiaddr(last)->0)
        } else {
            parsed_addrs(texts)
        },
{
    assert(texts.push(last).drop_last() =~= texts);
}

/// The addresses of a peer are taken one after the other: each is told to the hash table, and what it
/// asks for, where it is dialled, is dialled right after. Then the observed address is offered, then the
/// node announces itself where that is due, and last the hash table is started.
pub proof fn addresses_are_taken_in_order(
    m: NodeModel,
    dials: Map<DialKey, u64>,
    peer: Seq<u8>,
    addrs: Seq<Seq<Proto>>,
    addr: Seq<Proto>,
    observed: Seq<Proto>,
    is_direct: bool,
    clock: Clock,
)
    ensures
        ({
            let now: u64 = clock.now;
            let before: Seq<Effect> = listen_steps(dials, peer, addrs, is_direct, now).0;
            let after: Seq<Effect> = listen_steps(dials, peer, addrs.push(addr), is_direct, now).0;
            let told: Seq<Effect> = announced_steps(dials, peer, addrs, now).0;
            let said: Seq<Effect> = announced_steps(dials, peer, addrs.push(addr), now).0;
            let known: Effect = Effect::AddAddress(peer, addr);
            &&& listen_steps(dials, peer, Seq::empty(), is_direct, now).0 == Seq::<Effect>::empty()
            &&& announced_steps(dials, peer, Seq::empty(), now).0 == Seq::<Effect>::empty()
            &&& after == before + seq![known] || exists|d: Seq<Proto>| #[trigger]
                is_asked_for(addr, d) && after == before + seq![known, Effect::Dial(d)]
            &&& said == told || said == told + seq![known, Effect::Dial(addr)]
            &&& identify_effects(m, peer, addrs, observed, clock) == listen_steps(
                without_expired(m.dials, peer, now),
                peer,
                addrs,
                m.direct.contains(peer),
                now,
            ).0 + seq![Effect::AddExternalAddress(observed)] + announce_effects(m, clock) + (
            if m.kad_bootstrapped {
                Seq::empty()
            } else {
                seq![Effect::BootstrapDht]
            })
        }),
{
    let now: u64 = clock.now;
    assert(addrs.push(addr).drop_last() =~= addrs);
    let (before, known) = listen_steps(dials, peer, addrs, is_direct, now);
    let (more, then) = listen_step(known, peer, addr, is_direct, now);
    let first: Effect = Effect::AddAddress(peer, addr);
    public_addresses_by_component(addr);
    if more.len() == 2 {
        let d: Seq<Proto> = dial_target(addr)->0;
        assert(is_asked_for(addr, d));
        assert(more =~= seq![first, Effect::Dial(d)]);
    } else {
        assert(more =~= seq![first]);
    }
    let (told, seen) = announced_steps(dials, peer, addrs, now);
    let (others, last) = announced_step(seen, peer, addr, now);
    if others.len() == 0 {
        assert(told + others =~= told);
    } else {
        assert(others =~= seq![first, Effect::Dial(addr)]);
    }
    let all: Seq<Effect> = identify_effects(m, peer, addrs, observed, clock);
    let dialled: Seq<Effect> = listen_steps(
        without_expired(m.dials, peer, now),
        peer,
        addrs,
        m.direct.contains(peer),
        now,
    ).0;
    let most: Seq<Effect> = dialled + seq![Effect::AddExternalAddress(observed)] + announce_effects(
        m,
        clock,
    );
    assert(most + Seq::<Effect>::empty() =~= most);
    assert(most.push(Effect::BootstrapDht) =~= most + seq![Effect::BootstrapDht]);
}

/// The connections that a direct one replaces are closed oldest first, behind the announcement.
pub proof fn replaced_connections_are_closed_in_order(
    m: NodeModel,
    peer: Seq<u8>,
    conn: u64,
    remote: Seq<Proto>,
    clock: Clock,
    i: int,
)
    requires
        needs_no_relay(remote),
        0 <= i < conns_of(m.relayed, peer).len(),
    ensures
        ({
            let did: Seq<Effect> = connection_effects(m, peer, conn, remote, clock);
            let n: int = did.len() - conns_of(m.relayed, peer).len();
            &&& n >= 0
            &&& did[n + i] == Effect::CloseConnection(conns_of(m.relayed, peer)[i])
            &&& n == if m.announced_once {
                0
            } else {
                announce_effects(m, clock).len()
            }
        }),
{
    public_addresses_by_component(remote);
    assert(!is_circuit(remote));
}

/// When no more packets come, what waits is sent, and then the node stops; a tick sends what waits.
pub proof fn the_end_sends_what_waits(m: NodeModel)
    ensures
        event_effects(m, Event::TunClosed) == flush_effects(m) + seq![Effect::Stop],
        event_effects(m, Event::Tick) == flush_effects(m),
{
    assert(flush_effects(m).push(Effect::Stop) =~= flush_effects(m) + seq![Effect::Stop]);
}

} // verus!
