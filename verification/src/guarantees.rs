//! What a node guarantees over one event and over several.

use vstd::prelude::*;

#[allow(unused_imports)]
use crate::addr::{canonical_of, endpoint_of, is_circuit, is_public_quic, Proto};
#[allow(unused_imports)]
use crate::batch::{batch_message, framed_packets, packets_in};
#[allow(unused_imports)]
use crate::dial::{
    conns_of, elapsed, in_cooldown, without_conn, without_expired, without_peer, DialKey, PeerConn,
    DIAL_COOLDOWN,
};
#[allow(unused_imports)]
use crate::node::{
    after_close, after_connection, after_identify, after_packet, announce_effects, announced_step,
    announced_steps, close_keeps_invariant, connection_effects, dial_target, endpoint_chars,
    flush_effects, flushed, identify_effects, is_full_for, is_large, is_understood, listen_step,
    listen_steps, listening_effects, node_invariant, packet_effects, parsed_addrs, Announcement,
    Clock, Effect, NodeModel, ANNOUNCE_COOLDOWN,
};

verus! {

/// The packets that `peer` gets from a list of effects: those published on the mesh and those sent
/// to it directly, in order.
pub open spec fn received(list: Seq<Effect>, peer: Seq<u8>) -> Seq<Seq<u8>>
    decreases list.len(),
{
    if list.len() == 0 {
        Seq::empty()
    } else {
        let before: Seq<Seq<u8>> = received(list.drop_last(), peer);
        match list.last() {
            Effect::Publish(data) => before + packets_in(data),
            Effect::SendDirect(to, data) => if to == peer {
                before + packets_in(data)
            } else {
                before
            },
            _ => before,
        }
    }
}

proof fn lemma_received_direct(
    direct: Seq<Seq<u8>>,
    data: Seq<u8>,
    peer: Seq<u8>,
    list: Seq<Effect>,
    n: int,
)
    requires
        direct.no_duplicates(),
        list == Seq::new(direct.len(), |i: int| Effect::SendDirect(direct[i], data)),
        0 <= n <= direct.len(),
    ensures
        received(list.take(n), peer) == if direct.take(n).contains(peer) {
            packets_in(data)
        } else {
            Seq::empty()
        },
    decreases n,
{
    if n == 0 {
        assert(list.take(0) =~= Seq::<Effect>::empty());
        assert(!direct.take(0).contains(peer));
    } else {
        lemma_received_direct(direct, data, peer, list, n - 1);
        assert(list.take(n).drop_last() =~= list.take(n - 1));
        assert(list.take(n).last() == Effect::SendDirect(direct[n - 1], data));
        let shorter: Seq<Seq<u8>> = direct.take(n - 1);
        let longer: Seq<Seq<u8>> = direct.take(n);
        if direct[n - 1] == peer {
            assert(longer[n - 1] == peer);
            if shorter.contains(peer) {
                let j: int = choose|j: int| 0 <= j < shorter.len() && shorter[j] == peer;
                assert(direct[j] == direct[n - 1]);
            }
            assert(Seq::<Seq<u8>>::empty() + packets_in(data) =~= packets_in(data));
        } else {
            if longer.contains(peer) {
                let j: int = choose|j: int| 0 <= j < longer.len() && longer[j] == peer;
                assert(shorter[j] == peer);
            }
            if shorter.contains(peer) {
                let j: int = choose|j: int| 0 <= j < shorter.len() && shorter[j] == peer;
                assert(longer[j] == peer);
            }
        }
    }
}

/// Sending the batch brings every waiting packet, once and in order, to each peer with a direct
/// connection, or to everyone on the mesh where no peer has one.
pub proof fn flush_reaches_everyone(m: NodeModel, peer: Seq<u8>)
    requires
        node_invariant(m),
        m.direct.len() == 0 || m.direct.contains(peer),
        forall|i: int| 0 <= i < m.batch.len() ==> (#[trigger] m.batch[i]).len() < 0x1_0000,
    ensures
        received(flush_effects(m), peer) == m.batch,
        flushed(m).batch.len() == 0,
{
    let list: Seq<Effect> = flush_effects(m);
    if m.batch.len() == 0 {
        assert(received(list, peer) =~= m.batch);
    } else {
        crate::batch::batch_round_trip(m.batch);
        let data: Seq<u8> = batch_message(m.batch);
        if m.direct.len() == 0 {
            reveal_with_fuel(received, 2);
            assert(list.drop_last() =~= Seq::<Effect>::empty());
            assert(received(list, peer) =~= m.batch);
        } else {
            lemma_received_direct(m.direct, data, peer, list, m.direct.len() as int);
            assert(list.take(m.direct.len() as int) =~= list);
            assert(m.direct.take(m.direct.len() as int) =~= m.direct);
        }
    }
}

/// No packet is lost, doubled or reordered on its way out: what a peer has received after a packet
/// comes in, followed by what still waits, is what waited before, followed by the packet. It holds
/// where the limit on packets does not exceed what the count of a batch can say, for packets whose
/// length the batch can say, and for a large packet that is not itself in the form of a batch.
pub proof fn no_packet_is_lost(m: NodeModel, pkt: Seq<u8>, peer: Seq<u8>)
    requires
        node_invariant(m),
        m.max_pkts <= u16::MAX,
        m.direct.len() == 0 || m.direct.contains(peer),
        forall|i: int| 0 <= i < m.batch.len() ==> (#[trigger] m.batch[i]).len() < 0x1_0000,
        is_large(m, pkt) ==> packets_in(pkt) == seq![pkt],
    ensures
        received(packet_effects(m, pkt), peer) + after_packet(m, pkt).batch == m.batch.push(pkt),
{
    flush_reaches_everyone(m, peer);
    let sent: Seq<Effect> = packet_effects(m, pkt);
    let got: Seq<Seq<u8>> = received(sent, peer);
    if is_large(m, pkt) {
        assert(sent.drop_last() =~= flush_effects(m));
        assert(got =~= m.batch + seq![pkt]);
        assert(got + after_packet(m, pkt).batch =~= m.batch.push(pkt));
    } else if is_full_for(m, pkt) {
        assert(got + seq![pkt] =~= m.batch.push(pkt));
    } else {
        assert(got =~= Seq::<Seq<u8>>::empty());
        assert(got + m.batch.push(pkt) =~= m.batch.push(pkt));
    }
}

proof fn lemma_received_concat(a: Seq<Effect>, b: Seq<Effect>, peer: Seq<u8>)
    ensures
        received(a + b, peer) == received(a, peer) + received(b, peer),
    decreases b.len(),
{
    if b.len() == 0 {
        assert(a + b =~= a);
        assert(received(a, peer) + received(b, peer) =~= received(a, peer));
    } else {
        lemma_received_concat(a, b.drop_last(), peer);
        assert((a + b).drop_last() =~= a + b.drop_last());
        assert((a + b).last() == b.last());
        match b.last() {
            Effect::Publish(data) => {
                assert(received(a + b, peer) =~= received(a, peer) + received(b, peer));
            },
            Effect::SendDirect(to, data) => {
                assert(received(a + b, peer) =~= received(a, peer) + received(b, peer));
            },
            _ => {},
        }
    }
}

/// A packet from the virtual interface leaves the node in order.
pub proof fn packet_keeps_invariant(m: NodeModel, pkt: Seq<u8>)
    requires
        node_invariant(m),
    ensures
        node_invariant(after_packet(m, pkt)),
{
    let then: NodeModel = after_packet(m, pkt);
    assert(framed_packets(Seq::<Seq<u8>>::empty()).len() == 0);
    if !is_large(m, pkt) {
        let waits: Seq<Seq<u8>> = if is_full_for(m, pkt) {
            Seq::empty()
        } else {
            m.batch
        };
        assert(waits.push(pkt).drop_last() =~= waits);
        assert(framed_packets(waits.push(pkt)).len() == framed_packets(waits).len() + 2
            + pkt.len());
        assert(waits.push(pkt).len() == 1 ==> framed_packets(waits).len() == 0);
        assert(Seq::<Seq<u8>>::empty().push(pkt) =~= seq![pkt]);
    }
    assert forall|i: int| 0 <= i < then.relayed.len() implies !then.direct.contains(
        (#[trigger] then.relayed[i]).0,
    ) by {
        assert(!m.direct.contains(m.relayed[i].0));
    }
}

/// What a stream of packets from the virtual interface makes a node do, and the node after it.
pub open spec fn stream(m: NodeModel, pkts: Seq<Seq<u8>>) -> (Seq<Effect>, NodeModel)
    decreases pkts.len(),
{
    if pkts.len() == 0 {
        (Seq::empty(), m)
    } else {
        let (done, now) = stream(m, pkts.drop_last());
        (done + packet_effects(now, pkts.last()), after_packet(now, pkts.last()))
    }
}

/// Whether a packet can be told from others on its way: the batch can say its length, or it is large,
/// goes alone and is not itself in the form of a batch.
pub open spec fn can_travel(m: NodeModel, pkt: Seq<u8>) -> bool {
    if is_large(m, pkt) {
        packets_in(pkt) == seq![pkt]
    } else {
        pkt.len() < 0x1_0000
    }
}

proof fn lemma_stream(m: NodeModel, pkts: Seq<Seq<u8>>, peer: Seq<u8>)
    requires
        node_invariant(m),
        m.max_pkts <= u16::MAX,
        m.direct.len() == 0 || m.direct.contains(peer),
        forall|i: int| 0 <= i < m.batch.len() ==> (#[trigger] m.batch[i]).len() < 0x1_0000,
        forall|i: int| 0 <= i < pkts.len() ==> can_travel(m, #[trigger] pkts[i]),
    ensures
        ({
            let (done, now) = stream(m, pkts);
            &&& node_invariant(now)
            &&& now.max_pkts == m.max_pkts
            &&& now.max_bytes == m.max_bytes
            &&& now.direct == m.direct
            &&& forall|i: int| 0 <= i < now.batch.len() ==> (#[trigger] now.batch[i]).len() < 0x1_0000
            &&& received(done, peer) + now.batch == m.batch + pkts
        }),
    decreases pkts.len(),
{
    if pkts.len() == 0 {
        assert(received(Seq::<Effect>::empty(), peer) + m.batch =~= m.batch + pkts);
    } else {
        let init: Seq<Seq<u8>> = pkts.drop_last();
        let pkt: Seq<u8> = pkts.last();
        assert forall|i: int| 0 <= i < init.len() implies can_travel(m, #[trigger] init[i]) by {
            assert(init[i] == pkts[i]);
        }
        lemma_stream(m, init, peer);
        let (done, now) = stream(m, init);
        assert(pkt == pkts[pkts.len() - 1]);
        no_packet_is_lost(now, pkt, peer);
        packet_keeps_invariant(now, pkt);
        lemma_received_concat(done, packet_effects(now, pkt), peer);
        let got: Seq<Seq<u8>> = received(done, peer);
        let more: Seq<Seq<u8>> = received(packet_effects(now, pkt), peer);
        let then: NodeModel = after_packet(now, pkt);
        assert((got + more) + then.batch =~= got + (more + then.batch));
        assert(got + now.batch.push(pkt) =~= (got + now.batch).push(pkt));
        assert((m.batch + init).push(pkt) =~= m.batch + pkts);
    }
}

/// A stream of packets arrives whole and in order: once what waits is sent, a peer that is served has
/// received what waited before, followed by every packet of the stream, each once. It holds under the
/// conditions under which no single packet is lost.
pub proof fn streams_arrive_in_order(m: NodeModel, pkts: Seq<Seq<u8>>, peer: Seq<u8>)
    requires
        node_invariant(m),
        m.max_pkts <= u16::MAX,
        m.direct.len() == 0 || m.direct.contains(peer),
        forall|i: int| 0 <= i < m.batch.len() ==> (#[trigger] m.batch[i]).len() < 0x1_0000,
        forall|i: int| 0 <= i < pkts.len() ==> can_travel(m, #[trigger] pkts[i]),
    ensures
        received(stream(m, pkts).0 + flush_effects(stream(m, pkts).1), peer) == m.batch + pkts,
{
    lemma_stream(m, pkts, peer);
    let (done, now) = stream(m, pkts);
    flush_reaches_everyone(now, peer);
    lemma_received_concat(done, flush_effects(now), peer);
}

proof fn lemma_no_conn_left(list: Seq<PeerConn>, peer: Seq<u8>, other: Seq<u8>)
    ensures
        conns_of(without_peer(list, peer), peer) == Seq::<u64>::empty(),
        other != peer ==> conns_of(without_peer(list, peer), other) == conns_of(list, other),
    decreases list.len(),
{
    if list.len() > 0 {
        lemma_no_conn_left(list.drop_last(), peer, other);
        let kept: Seq<PeerConn> = without_peer(list.drop_last(), peer);
        if list.last().0 != peer {
            assert(kept.push(list.last()).drop_last() =~= kept);
        }
    }
}

/// A direct connection takes precedence: it closes every connection of the peer through a relay,
/// leaves none on record, and does not touch those of other peers.
pub proof fn direct_connection_replaces_relay(
    m: NodeModel,
    peer: Seq<u8>,
    conn: u64,
    remote: Seq<Proto>,
    clock: Clock,
    other: Seq<u8>,
    i: int,
)
    requires
        node_invariant(m),
        !is_circuit(remote),
    ensures
        ({
            let next: NodeModel = after_connection(m, peer, conn, remote);
            &&& next.direct.contains(peer)
            &&& conns_of(next.relayed, peer) == Seq::<u64>::empty()
            &&& other != peer ==> conns_of(next.relayed, other) == conns_of(m.relayed, other)
            &&& 0 <= i < conns_of(m.relayed, peer).len() ==> connection_effects(
                m,
                peer,
                conn,
                remote,
                clock,
            ).contains(Effect::CloseConnection(conns_of(m.relayed, peer)[i]))
        }),
{
    lemma_no_conn_left(m.relayed, peer, other);
    let next: NodeModel = after_connection(m, peer, conn, remote);
    if !m.direct.contains(peer) {
        assert(next.direct[m.direct.len() as int] == peer);
    }
    let conns: Seq<u64> = conns_of(m.relayed, peer);
    if 0 <= i < conns.len() {
        let said: Seq<Effect> = crate::node::first_connection_effects(m, clock);
        let all: Seq<Effect> = connection_effects(m, peer, conn, remote, clock);
        assert(all[said.len() + i] == Effect::CloseConnection(conns[i]));
    }
}

/// A peer with a direct connection gets no connection through a relay: it is closed as it comes.
pub proof fn relay_is_refused_beside_direct(
    m: NodeModel,
    peer: Seq<u8>,
    conn: u64,
    remote: Seq<Proto>,
    clock: Clock,
)
    requires
        is_circuit(remote),
        m.direct.contains(peer),
    ensures
        connection_effects(m, peer, conn, remote, clock).last() == Effect::CloseConnection(conn),
        after_connection(m, peer, conn, remote).relayed == m.relayed,
        after_connection(m, peer, conn, remote).direct == m.direct,
{
}

/// A peer counts as reached directly exactly while a direct connection of it is open.
pub proof fn direct_means_connected(m: NodeModel, peer: Seq<u8>)
    requires
        node_invariant(m),
    ensures
        m.direct.contains(peer) <==> conns_of(m.direct_conns, peer).len() > 0,
{
}

proof fn lemma_all_closed(list: Seq<PeerConn>, peer: Seq<u8>, conn: u64)
    requires
        forall|i: int|
            0 <= i < conns_of(list, peer).len() ==> #[trigger] conns_of(list, peer)[i] == conn,
    ensures
        conns_of(without_conn(list, peer, conn), peer) == Seq::<u64>::empty(),
    decreases list.len(),
{
    if list.len() > 0 {
        let init: Seq<PeerConn> = list.drop_last();
        let before: Seq<u64> = conns_of(init, peer);
        let all: Seq<u64> = conns_of(list, peer);
        assert forall|i: int| 0 <= i < before.len() implies #[trigger] before[i] == conn by {
            assert(all[i] == before[i]);
        }
        lemma_all_closed(init, peer, conn);
        if list.last().0 == peer {
            assert(all[before.len() as int] == list.last().1);
        } else {
            let less: Seq<PeerConn> = without_conn(init, peer, conn);
            assert(less.push(list.last()).drop_last() =~= less);
        }
    }
}

/// The relay is the fallback: once the only direct connection of a peer is closed, the peer no longer
/// counts as reached directly, and no other peer is touched. A connection of it through a relay is
/// then kept on record and not closed; an identification dials each of its reachable addresses that
/// does not rest; and where no peer is left that is reached directly, what waits is published on the
/// mesh.
pub proof fn relay_is_the_fallback(
    m: NodeModel,
    peer: Seq<u8>,
    conn: u64,
    other: Seq<u8>,
    relayed: u64,
    remote: Seq<Proto>,
    addrs: Seq<Seq<Proto>>,
    observed: Seq<Proto>,
    clock: Clock,
    i: int,
)
    requires
        node_invariant(m),
        forall|i: int|
            0 <= i < conns_of(m.direct_conns, peer).len() ==> #[trigger] conns_of(
                m.direct_conns,
                peer,
            )[i] == conn,
        is_circuit(remote),
    ensures
        ({
            let then: NodeModel = after_close(m, peer, conn);
            &&& !then.direct.contains(peer)
            &&& other != peer ==> then.direct.contains(other) == m.direct.contains(other)
            &&& after_connection(then, peer, relayed, remote).relayed == then.relayed.push(
                (peer, relayed),
            )
            &&& !after_connection(then, peer, relayed, remote).direct.contains(peer)
            &&& forall|c: u64| !#[trigger] connection_effects(
                then,
                peer,
                relayed,
                remote,
                clock,
            ).contains(Effect::CloseConnection(c))
            &&& (0 <= i < addrs.len() && dial_target(addrs[i]) is Some && !in_cooldown(
                m.dials,
                peer,
                dial_target(addrs[i])->0,
                clock.now,
            )) ==> dials_address(
                identify_effects(then, peer, addrs, observed, clock),
                dial_target(addrs[i])->0,
            )
            &&& then.direct.len() == 0 && m.batch.len() > 0 ==> flush_effects(then) == seq![
                Effect::Publish(batch_message(m.batch)),
            ]
        }),
{
    let then: NodeModel = after_close(m, peer, conn);
    close_keeps_invariant(m, peer, conn);
    lemma_all_closed(m.direct_conns, peer, conn);
    crate::node::lemma_without_conn(m.direct_conns, peer, conn);
    assert(then.direct.contains(peer) == (conns_of(then.direct_conns, peer).len() > 0));
    assert(then.direct.contains(other) == (conns_of(then.direct_conns, other).len() > 0));
    assert(m.direct.contains(other) == (conns_of(m.direct_conns, other).len() > 0));
    let said: Seq<Effect> = connection_effects(then, peer, relayed, remote, clock);
    assert forall|c: u64| !#[trigger] said.contains(Effect::CloseConnection(c)) by {
        if said.contains(Effect::CloseConnection(c)) {
            let j: int = choose|j: int|
                0 <= j < said.len() && said[j] == Effect::CloseConnection(c);
            assert(j == 0);
        }
    }
    if 0 <= i < addrs.len() && dial_target(addrs[i]) is Some && !in_cooldown(
        m.dials,
        peer,
        dial_target(addrs[i])->0,
        clock.now,
    ) {
        reachable_addresses_are_tried(then, peer, addrs, observed, clock, i);
    }
}

/// While another direct connection of the peer is open, closing one changes nothing for it.
pub proof fn another_direct_connection_suffices(m: NodeModel, peer: Seq<u8>, conn: u64)
    requires
        node_invariant(m),
        conns_of(without_conn(m.direct_conns, peer, conn), peer).len() > 0,
    ensures
        after_close(m, peer, conn).direct == m.direct,
        m.direct.contains(peer),
{
    close_keeps_invariant(m, peer, conn);
    let then: NodeModel = after_close(m, peer, conn);
    assert(then.direct.contains(peer) == (conns_of(then.direct_conns, peer).len() > 0));
}

/// Whether a list of effects dials `addr`.
pub open spec fn dials_address(list: Seq<Effect>, addr: Seq<Proto>) -> bool {
    list.contains(Effect::Dial(addr))
}

pub(crate) proof fn lemma_contains_concat(a: Seq<Effect>, b: Seq<Effect>, e: Effect)
    ensures
        (a + b).contains(e) <==> a.contains(e) || b.contains(e),
{
    let c: Seq<Effect> = a + b;
    if c.contains(e) {
        let j: int = choose|j: int| 0 <= j < c.len() && c[j] == e;
        if j < a.len() {
            assert(a[j] == e);
        } else {
            assert(b[j - a.len()] == e);
        }
    }
    if a.contains(e) {
        let j: int = choose|j: int| 0 <= j < a.len() && a[j] == e;
        assert(c[j] == e);
    }
    if b.contains(e) {
        let j: int = choose|j: int| 0 <= j < b.len() && b[j] == e;
        assert(c[a.len() + j] == e);
    }
}

proof fn lemma_listen_dials(
    dials: Map<DialKey, u64>,
    peer: Seq<u8>,
    addrs: Seq<Seq<Proto>>,
    is_direct: bool,
    now: u64,
    addr: Seq<Proto>,
)
    ensures
        ({
            let (did, then) = listen_steps(dials, peer, addrs, is_direct, now);
            &&& dials_address(did, addr) ==> {
                &&& !is_direct
                &&& !in_cooldown(dials, peer, addr, now)
                &&& is_circuit(addr) || is_public_quic(addr)
                &&& then.contains_key((peer, addr))
                &&& then[(peer, addr)] == now
            }
            &&& in_cooldown(dials, peer, addr, now) ==> in_cooldown(then, peer, addr, now)
        }),
    decreases addrs.len(),
{
    if addrs.len() > 0 {
        lemma_listen_dials(dials, peer, addrs.drop_last(), is_direct, now, addr);
        let (done, known) = listen_steps(dials, peer, addrs.drop_last(), is_direct, now);
        let (more, then) = listen_step(known, peer, addrs.last(), is_direct, now);
        lemma_contains_concat(done, more, Effect::Dial(addr));
        if more.contains(Effect::Dial(addr)) {
            let j: int = choose|j: int| 0 <= j < more.len() && more[j] == Effect::Dial(addr);
            assert(j == 1);
        }
    }
}

/// A peer that identifies itself is dialled only where no direct connection exists, only at public
/// addresses or through a relay, and never at an address of its own that was dialled within the
/// cooldown. An address that is dialled rests for the cooldown from then on.
pub proof fn identified_peers_are_dialled_with_restraint(
    m: NodeModel,
    peer: Seq<u8>,
    addrs: Seq<Seq<Proto>>,
    observed: Seq<Proto>,
    clock: Clock,
    addr: Seq<Proto>,
    later: u64,
)
    requires
        dials_address(identify_effects(m, peer, addrs, observed, clock), addr),
        elapsed(later, clock.now) < DIAL_COOLDOWN,
    ensures
        !m.direct.contains(peer),
        is_circuit(addr) || is_public_quic(addr),
        !in_cooldown(m.dials, peer, addr, clock.now),
        in_cooldown(after_identify(m, peer, addrs, clock.now).dials, peer, addr, later),
{
    let fresh: Map<DialKey, u64> = without_expired(m.dials, peer, clock.now);
    let (did, then) = listen_steps(fresh, peer, addrs, m.direct.contains(peer), clock.now);
    let e: Effect = Effect::Dial(addr);
    let outside: Seq<Effect> = seq![Effect::AddExternalAddress(observed)];
    let said: Seq<Effect> = did + outside + announce_effects(m, clock);
    let all: Seq<Effect> = identify_effects(m, peer, addrs, observed, clock);
    if !m.kad_bootstrapped {
        let last: Seq<Effect> = seq![Effect::BootstrapDht];
        assert(all =~= said + last);
        lemma_contains_concat(said, last, e);
    }
    assert(said.contains(e));
    lemma_contains_concat(did + outside, announce_effects(m, clock), e);
    lemma_contains_concat(did, outside, e);
    lemma_listen_dials(
        fresh,
        peer,
        addrs,
        m.direct.contains(peer),
        clock.now,
        addr,
    );
}

proof fn lemma_target_dialled(
    dials: Map<DialKey, u64>,
    peer: Seq<u8>,
    addrs: Seq<Seq<Proto>>,
    now: u64,
    i: int,
    target: Seq<Proto>,
)
    requires
        0 <= i < addrs.len(),
        dial_target(addrs[i]) == Some(target),
        !in_cooldown(dials, peer, target, now),
    ensures
        dials_address(listen_steps(dials, peer, addrs, false, now).0, target),
    decreases addrs.len(),
{
    let init: Seq<Seq<Proto>> = addrs.drop_last();
    let (done, known) = listen_steps(dials, peer, init, false, now);
    let (more, then) = listen_step(known, peer, addrs.last(), false, now);
    lemma_contains_concat(done, more, Effect::Dial(target));
    if i < init.len() {
        lemma_target_dialled(dials, peer, init, now, i, target);
    } else if !dials_address(done, target) {
        lemma_untouched(dials, peer, init, now, target);
        assert(more[1] == Effect::Dial(target));
    }
}

/// A peer without a direct connection is tried wherever it says it can be reached: each public
/// address that it listens on is dialled, and each address through a relay, unless it rests.
pub proof fn reachable_addresses_are_tried(
    m: NodeModel,
    peer: Seq<u8>,
    addrs: Seq<Seq<Proto>>,
    observed: Seq<Proto>,
    clock: Clock,
    i: int,
)
    requires
        !m.direct.contains(peer),
        0 <= i < addrs.len(),
        dial_target(addrs[i]) is Some,
        !in_cooldown(m.dials, peer, dial_target(addrs[i])->0, clock.now),
    ensures
        dials_address(identify_effects(m, peer, addrs, observed, clock), dial_target(addrs[i])->0),
        is_circuit(addrs[i]) ==> dial_target(addrs[i])->0 == addrs[i],
{
    let target: Seq<Proto> = dial_target(addrs[i])->0;
    let fresh: Map<DialKey, u64> = without_expired(m.dials, peer, clock.now);
    lemma_target_dialled(fresh, peer, addrs, clock.now, i, target);
    let dialled: Seq<Effect> = listen_steps(fresh, peer, addrs, false, clock.now).0;
    let all: Seq<Effect> = identify_effects(m, peer, addrs, observed, clock);
    let j: int = choose|j: int| 0 <= j < dialled.len() && dialled[j] == Effect::Dial(target);
    assert(all[j] == dialled[j]);
}

proof fn lemma_untouched(
    dials: Map<DialKey, u64>,
    peer: Seq<u8>,
    addrs: Seq<Seq<Proto>>,
    now: u64,
    addr: Seq<Proto>,
)
    requires
        !dials_address(listen_steps(dials, peer, addrs, false, now).0, addr),
        !in_cooldown(dials, peer, addr, now),
    ensures
        !in_cooldown(listen_steps(dials, peer, addrs, false, now).1, peer, addr, now),
    decreases addrs.len(),
{
    if addrs.len() > 0 {
        let (done, known) = listen_steps(dials, peer, addrs.drop_last(), false, now);
        let (more, then) = listen_step(known, peer, addrs.last(), false, now);
        lemma_contains_concat(done, more, Effect::Dial(addr));
        lemma_untouched(dials, peer, addrs.drop_last(), now, addr);
        if dial_target(addrs.last()) == Some(addr) {
            assert(more[1] == Effect::Dial(addr));
        }
    }
}

/// An announced address is dialled only where it is public and does not rest, and rests for the
/// cooldown from then on.
pub proof fn announced_addresses_are_dialled_with_restraint(
    dials: Map<DialKey, u64>,
    peer: Seq<u8>,
    addrs: Seq<Seq<Proto>>,
    now: u64,
    addr: Seq<Proto>,
    later: u64,
)
    requires
        dials_address(announced_steps(dials, peer, addrs, now).0, addr),
        elapsed(later, now) < DIAL_COOLDOWN,
    ensures
        is_public_quic(addr),
        !in_cooldown(dials, peer, addr, now),
        in_cooldown(announced_steps(dials, peer, addrs, now).1, peer, addr, later),
{
    lemma_announced_dials(dials, peer, addrs, now, addr);
}

proof fn lemma_announced_dials(
    dials: Map<DialKey, u64>,
    peer: Seq<u8>,
    addrs: Seq<Seq<Proto>>,
    now: u64,
    addr: Seq<Proto>,
)
    ensures
        ({
            let (did, then) = announced_steps(dials, peer, addrs, now);
            &&& dials_address(did, addr) ==> {
                &&& is_public_quic(addr)
                &&& !in_cooldown(dials, peer, addr, now)
                &&& then.contains_key((peer, addr))
                &&& then[(peer, addr)] == now
            }
            &&& in_cooldown(dials, peer, addr, now) ==> in_cooldown(then, peer, addr, now)
            &&& !dials_address(did, addr) && !in_cooldown(dials, peer, addr, now) ==> !in_cooldown(
                then,
                peer,
                addr,
                now,
            )
        }),
    decreases addrs.len(),
{
    if addrs.len() > 0 {
        lemma_announced_dials(dials, peer, addrs.drop_last(), now, addr);
        let (done, known) = announced_steps(dials, peer, addrs.drop_last(), now);
        let (more, then) = announced_step(known, peer, addrs.last(), now);
        lemma_contains_concat(done, more, Effect::Dial(addr));
        if more.contains(Effect::Dial(addr)) {
            let j: int = choose|j: int| 0 <= j < more.len() && more[j] == Effect::Dial(addr);
            assert(j == 1);
        }
        if addrs.last() == addr && more.len() == 2 {
            assert(more[1] == Effect::Dial(addr));
        }
    }
}

proof fn lemma_announced_all_dialled(
    dials: Map<DialKey, u64>,
    peer: Seq<u8>,
    addrs: Seq<Seq<Proto>>,
    now: u64,
    i: int,
)
    requires
        0 <= i < addrs.len(),
        is_public_quic(addrs[i]),
        !in_cooldown(dials, peer, addrs[i], now),
    ensures
        dials_address(announced_steps(dials, peer, addrs, now).0, addrs[i]),
    decreases addrs.len(),
{
    let addr: Seq<Proto> = addrs[i];
    let init: Seq<Seq<Proto>> = addrs.drop_last();
    let (done, known) = announced_steps(dials, peer, init, now);
    let (more, then) = announced_step(known, peer, addrs.last(), now);
    lemma_contains_concat(done, more, Effect::Dial(addr));
    if i < init.len() {
        lemma_announced_all_dialled(dials, peer, init, now, i);
    } else if !dials_address(done, addr) {
        lemma_announced_dials(dials, peer, init, now, addr);
        assert(more[1] == Effect::Dial(addr));
    }
}

/// An announcement does its work: whoever understands it dials every address that the announcing
/// node can be reached under and that does not rest.
pub proof fn announced_node_is_dialled(
    sender: NodeModel,
    a: Announcement,
    receiver: NodeModel,
    now: u64,
    i: int,
)
    requires
        node_invariant(sender),
        is_understood(a, sender),
        0 <= i < sender.my_addrs.len(),
        !in_cooldown(receiver.dials, sender.local, sender.my_addrs[i], now),
    ensures
        dials_address(
            announced_steps(receiver.dials, sender.local, parsed_addrs(a.addrs), now).0,
            sender.my_addrs[i],
        ),
{
    assert(crate::node::is_announceable(sender.my_addrs[i]));
    lemma_announced_all_dialled(receiver.dials, sender.local, sender.my_addrs, now, i);
}

/// Only public endpoints are announced, and none is left out.
pub proof fn announcements_name_public_endpoints(m: NodeModel, clock: Clock, a: Announcement, i: int)
    requires
        node_invariant(m),
        announce_effects(m, clock).contains(Effect::Announce(a)),
        0 <= i < a.addrs.len(),
    ensures
        a.addrs.len() == m.my_addrs.len(),
        a.addrs[i] == endpoint_chars(m.my_addrs[i]),
        is_public_quic(m.my_addrs[i]),
        canonical_of(m.my_addrs[i]) == Some(m.my_addrs[i]),
{
    assert(announce_effects(m, clock)[0] == Effect::Announce(a));
    assert(crate::node::is_announceable(m.my_addrs[i]));
}

/// Announcements keep their distance: once one is published, none follows within the cooldown.
pub proof fn announcements_keep_their_distance(m: NodeModel, then: u64, clock: Clock)
    requires
        m.last_announce == Some(then),
        elapsed(clock.now, then) < ANNOUNCE_COOLDOWN,
    ensures
        announce_effects(m, clock).len() == 0,
{
}

proof fn lemma_addresses_are_told(
    dials: Map<DialKey, u64>,
    peer: Seq<u8>,
    addrs: Seq<Seq<Proto>>,
    is_direct: bool,
    now: u64,
    i: int,
)
    requires
        0 <= i < addrs.len(),
    ensures
        listen_steps(dials, peer, addrs, is_direct, now).0.contains(
            Effect::AddAddress(peer, addrs[i]),
        ),
    decreases addrs.len(),
{
    let init: Seq<Seq<Proto>> = addrs.drop_last();
    let (done, known) = listen_steps(dials, peer, init, is_direct, now);
    let (more, then) = listen_step(known, peer, addrs.last(), is_direct, now);
    lemma_contains_concat(done, more, Effect::AddAddress(peer, addrs[i]));
    if i < init.len() {
        lemma_addresses_are_told(dials, peer, init, is_direct, now, i);
    } else {
        assert(more[0] == Effect::AddAddress(peer, addrs[i]));
    }
}

/// Every address of a peer that identifies itself reaches the hash table, dialled or not.
pub proof fn identified_addresses_are_shared(
    m: NodeModel,
    peer: Seq<u8>,
    addrs: Seq<Seq<Proto>>,
    observed: Seq<Proto>,
    clock: Clock,
    i: int,
)
    requires
        0 <= i < addrs.len(),
    ensures
        identify_effects(m, peer, addrs, observed, clock).contains(
            Effect::AddAddress(peer, addrs[i]),
        ),
{
    let fresh: Map<DialKey, u64> = without_expired(m.dials, peer, clock.now);
    let told: Seq<Effect> = listen_steps(
        fresh,
        peer,
        addrs,
        m.direct.contains(peer),
        clock.now,
    ).0;
    let all: Seq<Effect> = identify_effects(m, peer, addrs, observed, clock);
    lemma_addresses_are_told(fresh, peer, addrs, m.direct.contains(peer), clock.now, i);
    let j: int = choose|j: int|
        0 <= j < told.len() && told[j] == Effect::AddAddress(peer, addrs[i]);
    assert(all[j] == told[j]);
}

/// A node that listens on an IPv4 UDP address asks the gateway for its port.
pub proof fn listening_asks_for_the_port(m: NodeModel, addr: Seq<Proto>, clock: Clock)
    requires
        endpoint_of(addr) is Some,
    ensures
        listening_effects(m, addr, clock).last() == Effect::MapPort(
            (endpoint_of(addr)->0).0,
            (endpoint_of(addr)->0).1,
        ),
{
}

pub(crate) proof fn lemma_rest_is_kept(
    dials: Map<DialKey, u64>,
    peer: Seq<u8>,
    addrs: Seq<Seq<Proto>>,
    is_direct: bool,
    now: u64,
    key: DialKey,
)
    requires
        in_cooldown(dials, key.0, key.1, now),
    ensures
        ({
            let listened: Map<DialKey, u64> = listen_steps(dials, peer, addrs, is_direct, now).1;
            let announced: Map<DialKey, u64> = announced_steps(dials, peer, addrs, now).1;
            &&& listened.contains_key(key) && listened[key] == dials[key]
            &&& announced.contains_key(key) && announced[key] == dials[key]
        }),
    decreases addrs.len(),
{
    if addrs.len() > 0 {
        lemma_rest_is_kept(dials, peer, addrs.drop_last(), is_direct, now, key);
    }
}

/// An address that rests stays at rest: no announcement and no identification of any peer, up to the
/// time `later`, cuts the cooldown short or forgets it.
pub proof fn rest_outlasts_events(
    m: NodeModel,
    peer: Seq<u8>,
    addrs: Seq<Seq<Proto>>,
    now: u64,
    dialled: Seq<u8>,
    addr: Seq<Proto>,
    later: u64,
)
    requires
        now <= later,
        in_cooldown(m.dials, dialled, addr, later),
    ensures
        in_cooldown(after_identify(m, peer, addrs, now).dials, dialled, addr, later),
        in_cooldown(announced_steps(m.dials, peer, addrs, now).1, dialled, addr, later),
{
    let key: DialKey = (dialled, addr);
    let fresh: Map<DialKey, u64> = without_expired(m.dials, peer, now);
    assert(fresh.contains_key(key) && fresh[key] == m.dials[key]);
    lemma_rest_is_kept(fresh, peer, addrs, m.direct.contains(peer), now, key);
    lemma_rest_is_kept(m.dials, peer, addrs, m.direct.contains(peer), now, key);
}

} // verus!
