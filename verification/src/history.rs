//! Runs of a node: one event after the other, and what holds over all of them.

use vstd::prelude::*;

#[allow(unused_imports)]
use crate::addr::{is_circuit, Proto};
#[allow(unused_imports)]
use crate::batch::packets_in;
#[allow(unused_imports)]
use crate::dial::{
    conns_of, elapsed, in_cooldown, without_expired, without_peer, DialKey, PeerConn, DIAL_COOLDOWN,
};
#[allow(unused_imports)]
use crate::guarantees::packet_keeps_invariant;
#[allow(unused_imports)]
use crate::node::{
    after_close, after_connection, after_identify, after_packet, announce_effects, announced_step,
    announced_steps, close_keeps_invariant, connection_effects, connection_keeps_invariant,
    deliveries, flush_effects, flushed, identify_effects, is_announceable, listen_step, listen_steps,
    listening_effects, neighbour_effects, node_invariant, packet_effects, with_own_address, Clock,
    Effect, NodeModel,
};

verus! {

/// What can happen to a node.
pub enum Event {
    /// The batch interval has passed.
    Tick,
    /// A packet comes from the virtual interface.
    Packet(Seq<u8>),
    /// No more packets come from the virtual interface.
    TunClosed,
    /// A message comes on the data topic.
    Message { source: Option<Seq<u8>>, data: Seq<u8> },
    /// A peer sends a message over its direct connection.
    Request(Seq<u8>),
    /// A peer announces its addresses.
    Announced { peer: Seq<u8>, addrs: Seq<Seq<Proto>>, now: u64 },
    /// A peer identifies itself.
    Identified {
        peer: Seq<u8>,
        addrs: Seq<Seq<Proto>>,
        observed: Seq<Proto>,
        clock: Clock,
    },
    /// Neighbours are found on the local network.
    Neighbours(Seq<(Seq<u8>, Seq<Proto>)>),
    /// What is known of the node's reachability has changed.
    Reachability(Clock),
    /// The node listens on a new address.
    Listening(Seq<Proto>, Clock),
    /// An address of the node is confirmed from outside.
    External(Seq<Proto>, Clock),
    /// A connection is established.
    Connected { peer: Seq<u8>, conn: u64, remote: Seq<Proto>, clock: Clock },
    /// A connection is closed.
    Disconnected { peer: Seq<u8>, conn: u64 },
    /// An announcement was published.
    AnnouncePublished(u64),
    /// The bootstrap of the hash table has started.
    BootstrapStarted,
}

/// What an event makes the node do.
pub open spec fn event_effects(m: NodeModel, e: Event) -> Seq<Effect> {
    match e {
        Event::Tick => flush_effects(m),
        Event::Packet(pkt) => packet_effects(m, pkt),
        Event::TunClosed => flush_effects(m).push(Effect::Stop),
        Event::Message { source, data } => if source == Some(m.local) {
            Seq::empty()
        } else {
            deliveries(packets_in(data))
        },
        Event::Request(data) => deliveries(packets_in(data)).push(Effect::Acknowledge),
        Event::Announced { peer, addrs, now } => if peer == m.local {
            Seq::empty()
        } else {
            announced_steps(m.dials, peer, addrs, now).0
        },
        Event::Identified { peer, addrs, observed, clock } => identify_effects(
            m,
            peer,
            addrs,
            observed,
            clock,
        ),
        Event::Neighbours(found) => neighbour_effects(found),
        Event::Reachability(clock) => announce_effects(m, clock),
        Event::Listening(addr, clock) => listening_effects(m, addr, clock),
        Event::External(addr, clock) => announce_effects(with_own_address(m, addr), clock),
        Event::Connected { peer, conn, remote, clock } => connection_effects(
            m,
            peer,
            conn,
            remote,
            clock,
        ),
        Event::Disconnected { peer, conn } => Seq::empty(),
        Event::AnnouncePublished(now) => Seq::empty(),
        Event::BootstrapStarted => Seq::empty(),
    }
}

/// The node after an event.
pub open spec fn after_event(m: NodeModel, e: Event) -> NodeModel {
    match e {
        Event::Tick => flushed(m),
        Event::Packet(pkt) => after_packet(m, pkt),
        Event::TunClosed => flushed(m),
        Event::Announced { peer, addrs, now } => if peer == m.local {
            m
        } else {
            NodeModel { dials: announced_steps(m.dials, peer, addrs, now).1, ..m }
        },
        Event::Identified { peer, addrs, observed, clock } => after_identify(
            m,
            peer,
            addrs,
            clock.now,
        ),
        Event::Listening(addr, clock) => with_own_address(m, addr),
        Event::External(addr, clock) => with_own_address(m, addr),
        Event::Connected { peer, conn, remote, clock } => after_connection(m, peer, conn, remote),
        Event::Disconnected { peer, conn } => after_close(m, peer, conn),
        Event::AnnouncePublished(now) => NodeModel { last_announce: Some(now), ..m },
        Event::BootstrapStarted => NodeModel { kad_bootstrapped: true, ..m },
        _ => m,
    }
}

/// The node after a run of events.
pub open spec fn after_run(m: NodeModel, run: Seq<Event>) -> NodeModel
    decreases run.len(),
{
    if run.len() == 0 {
        m
    } else {
        after_event(after_run(m, run.drop_last()), run.last())
    }
}

proof fn lemma_own_address(m: NodeModel, addr: Seq<Proto>)
    requires
        node_invariant(m),
    ensures
        node_invariant(with_own_address(m, addr)),
{
    if crate::addr::canonical_of(addr) is Some {
        crate::addr::canonical_form_is_stable(addr);
    }
    let then: NodeModel = with_own_address(m, addr);
    assert forall|i: int| 0 <= i < then.my_addrs.len() implies is_announceable(
        #[trigger] then.my_addrs[i],
    ) by {
        if i < m.my_addrs.len() {
            assert(is_announceable(m.my_addrs[i]));
        }
    }
    assert(then.my_addrs.no_duplicates());
    assert forall|p: Seq<u8>| #[trigger] then.direct.contains(p) == (conns_of(
        then.direct_conns,
        p,
    ).len() > 0) by {
        assert(m.direct.contains(p) == (conns_of(m.direct_conns, p).len() > 0));
    }
}

/// Every event leaves a node in order.
pub proof fn event_keeps_invariant(m: NodeModel, e: Event)
    requires
        node_invariant(m),
    ensures
        node_invariant(after_event(m, e)),
{
    match e {
        Event::Packet(pkt) => {
            packet_keeps_invariant(m, pkt);
        },
        Event::Listening(addr, clock) => {
            lemma_own_address(m, addr);
        },
        Event::External(addr, clock) => {
            lemma_own_address(m, addr);
        },
        Event::Connected { peer, conn, remote, clock } => {
            connection_keeps_invariant(m, peer, conn, remote);
        },
        Event::Disconnected { peer, conn } => {
            close_keeps_invariant(m, peer, conn);
        },
        _ => {},
    }
}

/// A node stays in order whatever happens to it, in whatever order.
pub proof fn run_keeps_invariant(m: NodeModel, run: Seq<Event>)
    requires
        node_invariant(m),
    ensures
        node_invariant(after_run(m, run)),
    decreases run.len(),
{
    if run.len() > 0 {
        run_keeps_invariant(m, run.drop_last());
        event_keeps_invariant(after_run(m, run.drop_last()), run.last());
    }
}

/// Which peer an event makes known addresses of, and when: an identification or an announcement.
pub open spec fn contact(e: Event) -> Option<(Seq<u8>, u64)> {
    match e {
        Event::Announced { peer, addrs, now } => Some((peer, now)),
        Event::Identified { peer, addrs, observed, clock } => Some((peer, clock.now)),
        _ => None,
    }
}

/// Whether the contacts of a run come in the order of their times.
pub open spec fn in_time_order(run: Seq<Event>) -> bool {
    forall|i: int, j: int|
        0 <= i < j < run.len() && contact(#[trigger] run[i]) is Some && contact(
            #[trigger] run[j],
        ) is Some ==> (contact(run[i])->0).1 <= (contact(run[j])->0).1
}

/// How often a list of effects dials `addr`.
pub open spec fn dial_count(list: Seq<Effect>, addr: Seq<Proto>) -> nat
    decreases list.len(),
{
    if list.len() == 0 {
        0
    } else if list.last() == Effect::Dial(addr) {
        dial_count(list.drop_last(), addr) + 1
    } else {
        dial_count(list.drop_last(), addr)
    }
}

/// Whether an event is a contact with `peer` in the cooldown that starts at `from`.
pub open spec fn in_window(e: Event, peer: Seq<u8>, from: u64) -> bool {
    contact(e) matches Some((p, now)) && p == peer && from <= now && now - from < DIAL_COOLDOWN
}

/// How often contacts with `peer`, in the cooldown that starts at `from`, make the node dial `addr`.
pub open spec fn dials_in_window(
    m: NodeModel,
    run: Seq<Event>,
    peer: Seq<u8>,
    addr: Seq<Proto>,
    from: u64,
) -> nat
    decreases run.len(),
{
    if run.len() == 0 {
        0
    } else {
        let before: nat = dials_in_window(m, run.drop_last(), peer, addr, from);
        if in_window(run.last(), peer, from) {
            before + dial_count(event_effects(after_run(m, run.drop_last()), run.last()), addr)
        } else {
            before
        }
    }
}

proof fn lemma_count_concat(a: Seq<Effect>, b: Seq<Effect>, addr: Seq<Proto>)
    ensures
        dial_count(a + b, addr) == dial_count(a, addr) + dial_count(b, addr),
    decreases b.len(),
{
    if b.len() == 0 {
        assert(a + b =~= a);
    } else {
        lemma_count_concat(a, b.drop_last(), addr);
        assert((a + b).drop_last() =~= a + b.drop_last());
        assert((a + b).last() == b.last());
    }
}

/// Of the steps over a list of addresses: at most one dials `addr`, none where it rests, and it rests
/// afterwards; a record that rests is kept.
spec fn dials_once(
    dials: Map<DialKey, u64>,
    then: Map<DialKey, u64>,
    peer: Seq<u8>,
    addr: Seq<Proto>,
    now: u64,
    count: nat,
) -> bool {
    &&& count <= 1
    &&& count == 1 ==> then.contains_key((peer, addr)) && then[(peer, addr)] == now
    &&& in_cooldown(dials, peer, addr, now) ==> count == 0 && then.contains_key((peer, addr))
        && then[(peer, addr)] == dials[(peer, addr)]
}

proof fn lemma_listen_once(
    dials: Map<DialKey, u64>,
    peer: Seq<u8>,
    addrs: Seq<Seq<Proto>>,
    is_direct: bool,
    now: u64,
    addr: Seq<Proto>,
)
    ensures
        ({
            let (did, then) = listen_steps(dials, peer, addrs, is_direct, now);
            dials_once(dials, then, peer, addr, now, dial_count(did, addr))
        }),
    decreases addrs.len(),
{
    if addrs.len() > 0 {
        lemma_listen_once(dials, peer, addrs.drop_last(), is_direct, now, addr);
        let (done, known) = listen_steps(dials, peer, addrs.drop_last(), is_direct, now);
        let (more, then) = listen_step(known, peer, addrs.last(), is_direct, now);
        lemma_count_concat(done, more, addr);
        reveal_with_fuel(dial_count, 3);
        assert(more.len() == 2 ==> more.drop_last() =~= seq![more[0]]);
    }
}

proof fn lemma_announced_once(
    dials: Map<DialKey, u64>,
    peer: Seq<u8>,
    addrs: Seq<Seq<Proto>>,
    now: u64,
    addr: Seq<Proto>,
)
    ensures
        ({
            let (did, then) = announced_steps(dials, peer, addrs, now);
            dials_once(dials, then, peer, addr, now, dial_count(did, addr))
        }),
    decreases addrs.len(),
{
    if addrs.len() > 0 {
        lemma_announced_once(dials, peer, addrs.drop_last(), now, addr);
        let (done, known) = announced_steps(dials, peer, addrs.drop_last(), now);
        let (more, then) = announced_step(known, peer, addrs.last(), now);
        lemma_count_concat(done, more, addr);
        reveal_with_fuel(dial_count, 3);
        assert(more.len() == 2 ==> more.drop_last() =~= seq![more[0]]);
    }
}

/// What a contact with `peer` does to the record of `addr`.
proof fn lemma_contact_once(m: NodeModel, e: Event, peer: Seq<u8>, addr: Seq<Proto>)
    requires
        contact(e) is Some,
        (contact(e)->0).0 == peer,
    ensures
        dials_once(
            m.dials,
            after_event(m, e).dials,
            peer,
            addr,
            (contact(e)->0).1,
            dial_count(event_effects(m, e), addr),
        ),
{
    match e {
        Event::Announced { peer: p, addrs, now } => {
            lemma_announced_once(m.dials, peer, addrs, now, addr);
        },
        Event::Identified { peer: p, addrs, observed, clock } => {
            let fresh: Map<DialKey, u64> = without_expired(m.dials, peer, clock.now);
            let did: Seq<Effect> = listen_steps(
                fresh,
                peer,
                addrs,
                m.direct.contains(peer),
                clock.now,
            ).0;
            lemma_listen_once(fresh, peer, addrs, m.direct.contains(peer), clock.now, addr);
            let outside: Seq<Effect> = seq![Effect::AddExternalAddress(observed)];
            let said: Seq<Effect> = announce_effects(m, clock);
            reveal_with_fuel(dial_count, 3);
            assert(outside.drop_last() =~= Seq::<Effect>::empty());
            assert(said.len() == 1 ==> said.drop_last() =~= Seq::<Effect>::empty());
            lemma_count_concat(did, outside, addr);
            lemma_count_concat(did + outside, said, addr);
            let most: Seq<Effect> = did + outside + said;
            assert(most.push(Effect::BootstrapDht).drop_last() =~= most);
        },
        _ => {},
    }
}

/// No event touches the record of an address that rests.
proof fn lemma_record_kept(m: NodeModel, e: Event, key: DialKey, from: u64)
    requires
        m.dials.contains_key(key),
        from <= m.dials[key],
        contact(e) matches Some((p, now)) ==> now < from + DIAL_COOLDOWN,
    ensures
        after_event(m, e).dials.contains_key(key),
        after_event(m, e).dials[key] == m.dials[key],
{
    match e {
        Event::Announced { peer, addrs, now } => {
            crate::guarantees::lemma_rest_is_kept(m.dials, peer, addrs, false, now, key);
        },
        Event::Identified { peer, addrs, observed, clock } => {
            let fresh: Map<DialKey, u64> = without_expired(m.dials, peer, clock.now);
            assert(fresh.contains_key(key) && fresh[key] == m.dials[key]);
            crate::guarantees::lemma_rest_is_kept(
                fresh,
                peer,
                addrs,
                m.direct.contains(peer),
                clock.now,
                key,
            );
        },
        _ => {},
    }
}

proof fn lemma_window(m: NodeModel, run: Seq<Event>, peer: Seq<u8>, addr: Seq<Proto>, from: u64)
    requires
        forall|i: int|
            0 <= i < run.len() && contact(#[trigger] run[i]) is Some ==> (contact(run[i])->0).1
                < from + DIAL_COOLDOWN,
    ensures
        dials_in_window(m, run, peer, addr, from) <= 1,
        dials_in_window(m, run, peer, addr, from) == 1 ==> after_run(m, run).dials.contains_key(
            (peer, addr),
        ) && from <= after_run(m, run).dials[(peer, addr)],
    decreases run.len(),
{
    if run.len() > 0 {
        let init: Seq<Event> = run.drop_last();
        let e: Event = run.last();
        assert forall|i: int| 0 <= i < init.len() && contact(#[trigger] init[i]) is Some implies (
        contact(init[i])->0).1 < from + DIAL_COOLDOWN by {
            assert(init[i] == run[i]);
        }
        lemma_window(m, init, peer, addr, from);
        let now: NodeModel = after_run(m, init);
        assert(e == run[run.len() - 1]);
        if dials_in_window(m, init, peer, addr, from) == 1 {
            lemma_record_kept(now, e, (peer, addr), from);
        }
        if in_window(e, peer, from) {
            lemma_contact_once(now, e, peer, addr);
        }
    }
}

/// The cooldown holds over every run of events: in any stretch of time shorter than the cooldown,
/// identifications and announcements of a peer make the node dial one and the same address of it at
/// most once. Neighbours on the local network have no cooldown.
pub proof fn one_dial_per_cooldown(
    m: NodeModel,
    run: Seq<Event>,
    peer: Seq<u8>,
    addr: Seq<Proto>,
    from: u64,
)
    requires
        in_time_order(run),
    ensures
        dials_in_window(m, run, peer, addr, from) <= 1,
    decreases run.len(),
{
    if run.len() > 0 {
        let init: Seq<Event> = run.drop_last();
        let e: Event = run.last();
        assert(e == run[run.len() - 1]);
        assert(in_time_order(init)) by {
            assert forall|i: int, j: int|
                0 <= i < j < init.len() && contact(#[trigger] init[i]) is Some && contact(
                    #[trigger] init[j],
                ) is Some implies (contact(init[i])->0).1 <= (contact(init[j])->0).1 by {
                assert(init[i] == run[i] && init[j] == run[j]);
            }
        }
        if in_window(e, peer, from) {
            lemma_window(m, run, peer, addr, from);
        } else {
            one_dial_per_cooldown(m, init, peer, addr, from);
        }
    }
}

/// Whether a list of effects closes no connection.
pub open spec fn closes_nothing(list: Seq<Effect>) -> bool {
    forall|i: int| 0 <= i < list.len() ==> !(#[trigger] list[i] is CloseConnection)
}

proof fn lemma_steps_close_nothing(
    dials: Map<DialKey, u64>,
    peer: Seq<u8>,
    addrs: Seq<Seq<Proto>>,
    is_direct: bool,
    now: u64,
)
    ensures
        closes_nothing(listen_steps(dials, peer, addrs, is_direct, now).0),
        closes_nothing(announced_steps(dials, peer, addrs, now).0),
    decreases addrs.len(),
{
    if addrs.len() > 0 {
        lemma_steps_close_nothing(dials, peer, addrs.drop_last(), is_direct, now);
    }
}

proof fn lemma_neighbours_close_nothing(found: Seq<(Seq<u8>, Seq<Proto>)>)
    ensures
        closes_nothing(neighbour_effects(found)),
    decreases found.len(),
{
    if found.len() > 0 {
        lemma_neighbours_close_nothing(found.drop_last());
    }
}

/// Only a new connection makes a node close connections.
pub proof fn only_connections_close_connections(m: NodeModel, e: Event)
    requires
        !(e is Connected),
    ensures
        closes_nothing(event_effects(m, e)),
{
    match e {
        Event::Announced { peer, addrs, now } => {
            lemma_steps_close_nothing(m.dials, peer, addrs, false, now);
        },
        Event::Identified { peer, addrs, observed, clock } => {
            lemma_steps_close_nothing(
                without_expired(m.dials, peer, clock.now),
                peer,
                addrs,
                m.direct.contains(peer),
                clock.now,
            );
        },
        Event::Neighbours(found) => {
            lemma_neighbours_close_nothing(found);
        },
        _ => {},
    }
}

proof fn lemma_listed(list: Seq<PeerConn>, peer: Seq<u8>, i: int)
    requires
        0 <= i < conns_of(list, peer).len(),
    ensures
        list.contains((peer, conns_of(list, peer)[i])),
    decreases list.len(),
{
    let init: Seq<PeerConn> = list.drop_last();
    let entry: PeerConn = (peer, conns_of(list, peer)[i]);
    if i < conns_of(init, peer).len() {
        lemma_listed(init, peer, i);
        let j: int = choose|j: int| 0 <= j < init.len() && init[j] == entry;
        assert(list[j] == entry);
    } else {
        assert(list[list.len() - 1] == entry);
    }
}

proof fn lemma_others_stay(list: Seq<PeerConn>, peer: Seq<u8>, entry: PeerConn)
    requires
        list.contains(entry),
        entry.0 != peer,
    ensures
        without_peer(list, peer).contains(entry),
    decreases list.len(),
{
    let init: Seq<PeerConn> = list.drop_last();
    let some: Seq<PeerConn> = without_peer(list, peer);
    if list.last() == entry {
        assert(some[some.len() - 1] == entry);
    } else {
        let j: int = choose|j: int| 0 <= j < list.len() && list[j] == entry;
        assert(init[j] == entry);
        lemma_others_stay(init, peer, entry);
        let less: Seq<PeerConn> = without_peer(init, peer);
        let i: int = choose|i: int| 0 <= i < less.len() && less[i] == entry;
        assert(some[i] == entry);
    }
}

/// Whether `conn` is the number of a connection of `peer` and of no other in a list.
pub open spec fn is_number_of(list: Seq<PeerConn>, peer: Seq<u8>, conn: u64) -> bool {
    list.contains((peer, conn)) && forall|i: int|
        0 <= i < list.len() && (#[trigger] list[i]).1 == conn ==> list[i].0 == peer
}

/// Whether an event leaves the connection `conn` of `peer` through a relay alone: the peer does not
/// connect directly, and the number is not given again.
pub open spec fn leaves_alone(e: Event, peer: Seq<u8>, conn: u64) -> bool {
    match e {
        Event::Connected { peer: p, conn: c, remote, clock } => c != conn && (p == peer
            ==> is_circuit(remote)),
        _ => true,
    }
}

proof fn lemma_relayed_event(m: NodeModel, e: Event, peer: Seq<u8>, conn: u64)
    requires
        node_invariant(m),
        is_number_of(m.relayed, peer, conn),
        leaves_alone(e, peer, conn),
    ensures
        is_number_of(after_event(m, e).relayed, peer, conn),
        !event_effects(m, e).contains(Effect::CloseConnection(conn)),
{
    let then: Seq<PeerConn> = after_event(m, e).relayed;
    let did: Seq<Effect> = event_effects(m, e);
    let entry: PeerConn = (peer, conn);
    match e {
        Event::Connected { peer: p, conn: c, remote, clock } => {
            if p != peer {
                lemma_others_stay(m.relayed, p, entry);
            }
            crate::node::lemma_without_peer(m.relayed, p);
            let at: int = choose|i: int| 0 <= i < m.relayed.len() && m.relayed[i] == entry;
            assert(is_circuit(remote) ==> then[at] == entry);
            if did.contains(Effect::CloseConnection(conn)) {
                let j: int = choose|j: int|
                    0 <= j < did.len() && did[j] == Effect::CloseConnection(conn);
                let said: Seq<Effect> = crate::node::first_connection_effects(m, clock);
                assert(j >= said.len());
                if !is_circuit(remote) {
                    lemma_listed(m.relayed, p, j - said.len());
                    let i: int = choose|i: int|
                        0 <= i < m.relayed.len() && m.relayed[i] == (p, conn);
                    assert(m.relayed[i].1 == conn);
                }
            }
        },
        _ => {
            only_connections_close_connections(m, e);
        },
    }
    assert forall|i: int| 0 <= i < then.len() && (#[trigger] then[i]).1 == conn implies then[i].0
        == peer by {
        match e {
            Event::Connected { peer: p, conn: c, remote, clock } => {
                if !is_circuit(remote) {
                    assert(then[i] == without_peer(m.relayed, p)[i]);
                    let j: int = choose|j: int|
                        0 <= j < m.relayed.len() && m.relayed[j] == then[i];
                    assert(m.relayed[j].1 == conn);
                } else if i < m.relayed.len() {
                    assert(then[i] == m.relayed[i]);
                }
            },
            _ => {},
        }
    }
}

/// A connection through a relay that is on record is kept until its peer connects directly: over any
/// run of other events it stays on record, the peer does not count as reached directly, and the node
/// does not close it.
pub proof fn relayed_connection_is_kept(
    m: NodeModel,
    run: Seq<Event>,
    peer: Seq<u8>,
    conn: u64,
    i: int,
)
    requires
        node_invariant(m),
        is_number_of(m.relayed, peer, conn),
        forall|j: int| 0 <= j < run.len() ==> leaves_alone(#[trigger] run[j], peer, conn),
    ensures
        is_number_of(after_run(m, run).relayed, peer, conn),
        !after_run(m, run).direct.contains(peer),
        0 <= i < run.len() ==> !event_effects(after_run(m, run.take(i)), run[i]).contains(
            Effect::CloseConnection(conn),
        ),
    decreases run.len(),
{
    run_keeps_invariant(m, run);
    if run.len() > 0 {
        let init: Seq<Event> = run.drop_last();
        assert forall|j: int| 0 <= j < init.len() implies leaves_alone(
            #[trigger] init[j],
            peer,
            conn,
        ) by {
            assert(init[j] == run[j]);
        }
        relayed_connection_is_kept(m, init, peer, conn, i);
        run_keeps_invariant(m, init);
        assert(run.last() == run[run.len() - 1]);
        lemma_relayed_event(after_run(m, init), run.last(), peer, conn);
        if 0 <= i < run.len() - 1 {
            assert(run.take(i) =~= init.take(i));
        } else {
            assert(run.take(run.len() - 1) =~= init);
        }
    }
    let now: NodeModel = after_run(m, run);
    let at: int = choose|j: int| 0 <= j < now.relayed.len() && now.relayed[j] == (peer, conn);
    assert(!now.direct.contains(now.relayed[at].0));
}

} // verus!
