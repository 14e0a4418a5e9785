//! When an address may be dialled again, and which connections go through a relay.

use vstd::prelude::*;

use crate::addr::Multiaddr;
#[allow(unused_imports)]
use crate::addr::Proto;
use crate::collections::Ident;
use crate::peer::PeerId;

verus! {

/// How long an address of a peer is left alone after it was dialled, in nanoseconds.
pub const DIAL_COOLDOWN: u64 = 30_000_000_000;

/// The time from `then` to `now`, zero where `then` is later.
pub open spec fn elapsed(now: u64, then: u64) -> int {
    if now > then {
        now - then
    } else {
        0
    }
}

/// Who was dialled where: a peer and one of its addresses.
pub type DialKey = (Seq<u8>, Seq<Proto>);

/// Whether an address of a peer was dialled less than the cooldown ago.
pub open spec fn in_cooldown(
    dials: Map<DialKey, u64>,
    peer: Seq<u8>,
    addr: Seq<Proto>,
    now: u64,
) -> bool {
    dials.contains_key((peer, addr)) && elapsed(now, dials[(peer, addr)]) < DIAL_COOLDOWN
}

/// The records that remain once those of `peer` outside the cooldown are forgotten.
pub open spec fn without_expired(dials: Map<DialKey, u64>, peer: Seq<u8>, now: u64) -> Map<
    DialKey,
    u64,
> {
    Map::new(
        |k: DialKey| dials.contains_key(k) && (k.0 == peer ==> elapsed(now, dials[k])
            < DIAL_COOLDOWN),
        |k: DialKey| dials[k],
    )
}

/// The time from `then` to `now`, zero where `then` is later.
pub fn time_since(now: u64, then: u64) -> (d: u64)
    ensures
        d == elapsed(now, then),
{
    if now > then {
        now - then
    } else {
        0
    }
}

struct DialEntry {
    peer: PeerId,
    addr: Multiaddr,
    at: u64,
}

impl DialEntry {
    spec fn key(&self) -> DialKey {
        (self.peer@, self.addr@)
    }
}

/// When each address of each peer was last dialled.
pub struct DialTable {
    entries: Vec<DialEntry>,
}

impl View for DialTable {
    type V = Map<DialKey, u64>;

    closed spec fn view(&self) -> Map<DialKey, u64> {
        Map::new(
            |k: DialKey|
                exists|i: int| 0 <= i < self.entries@.len() && #[trigger] self.entries@[i].key() == k,
            |k: DialKey|
                self.entries@[choose|i: int|
                    0 <= i < self.entries@.len() && #[trigger] self.entries@[i].key() == k].at,
        )
    }
}

impl DialTable {
    /// No address of a peer is recorded twice.
    pub closed spec fn wf(&self) -> bool {
        forall|i: int, j: int|
            0 <= i < j < self.entries@.len() ==> (#[trigger] self.entries@[i]).key() != (
            #[trigger] self.entries@[j]).key()
    }

    proof fn lemma_entry(&self, i: int)
        requires
            self.wf(),
            0 <= i < self.entries@.len(),
        ensures
            self@.contains_key(self.entries@[i].key()),
            self@[self.entries@[i].key()] == self.entries@[i].at,
    {
        let k: DialKey = self.entries@[i].key();
        let c: int = choose|c: int|
            0 <= c < self.entries@.len() && #[trigger] self.entries@[c].key() == k;
        assert(c == i);
    }

    /// Nothing dialled yet.
    pub fn new() -> (t: DialTable)
        ensures
            t.wf(),
            t@ == Map::<DialKey, u64>::empty(),
    {
        let t: DialTable = DialTable { entries: Vec::new() };
        assert(t@ =~= Map::<DialKey, u64>::empty());
        t
    }

    fn position(&self, peer: &PeerId, addr: &Multiaddr) -> (at: Option<usize>)
        ensures
            match at {
                Some(i) => i < self.entries@.len() && self.entries@[i as int].key() == (
                    peer@,
                    addr@,
                ),
                None => !self@.contains_key((peer@, addr@)),
            },
    {
        let mut i: usize = 0;
        while i < self.entries.len()
            invariant
                i <= self.entries@.len(),
                forall|j: int|
                    0 <= j < i ==> (#[trigger] self.entries@[j]).key() != (peer@, addr@),
            decreases self.entries@.len() - i,
        {
            if self.entries[i].peer.same(peer) && self.entries[i].addr.same(addr) {
                return Some(i);
            }
            i += 1;
        }
        None
    }

    /// Whether `addr` of `peer` may be dialled now; if so, the dial is recorded.
    pub fn try_dial(&mut self, peer: &PeerId, addr: &Multiaddr, now: u64) -> (go: bool)
        requires
            old(self).wf(),
        ensures
            final(self).wf(),
            go == !in_cooldown(old(self)@, peer@, addr@, now),
            final(self)@ == if go {
                old(self)@.insert((peer@, addr@), now)
            } else {
                old(self)@
            },
    {
        let ghost key: DialKey = (peer@, addr@);
        match self.position(peer, addr) {
            Some(i) => {
                proof {
                    self.lemma_entry(i as int);
                }
                if time_since(now, self.entries[i].at) < DIAL_COOLDOWN {
                    return false;
                }
                let fresh: DialEntry = DialEntry { peer: peer.dup(), addr: addr.dup(), at: now };
                self.entries.set(i, fresh);
                proof {
                    assert forall|j: int| 0 <= j < self.entries@.len() implies (
                    #[trigger] self.entries@[j]).key() == old(self).entries@[j].key() by {}
                    assert(self.wf());
                    self.lemma_same_but(old(self), i as int, key, now);
                }
                true
            },
            None => {
                let fresh: DialEntry = DialEntry { peer: peer.dup(), addr: addr.dup(), at: now };
                self.entries.push(fresh);
                proof {
                    let was: Seq<DialEntry> = old(self).entries@;
                    assert forall|j: int| 0 <= j < was.len() implies (
                    #[trigger] self.entries@[j]).key() != key by {
                        assert(self.entries@[j] == was[j]);
                        old(self).lemma_entry(j);
                    }
                    assert(self.wf());
                    self.lemma_pushed(old(self), key, now);
                }
                true
            },
        }
    }

    proof fn lemma_same_but(&self, was: &DialTable, i: int, key: DialKey, now: u64)
        requires
            self.wf(),
            was.wf(),
            0 <= i < was.entries@.len(),
            self.entries@.len() == was.entries@.len(),
            self.entries@[i].key() == key,
            was.entries@[i].key() == key,
            self.entries@[i].at == now,
            forall|j: int|
                0 <= j < was.entries@.len() && j != i ==> #[trigger] self.entries@[j]
                    == was.entries@[j],
        ensures
            self@ == was@.insert(key, now),
    {
        assert forall|k: DialKey| #[trigger]
            self@.contains_key(k) <==> was@.insert(key, now).contains_key(k) by {
            if self@.contains_key(k) {
                let j: int = choose|j: int|
                    0 <= j < self.entries@.len() && #[trigger] self.entries@[j].key() == k;
                if j != i {
                    was.lemma_entry(j);
                    assert(was.entries@[j] == self.entries@[j]);
                }
            }
            if was@.contains_key(k) {
                let j: int = choose|j: int|
                    0 <= j < was.entries@.len() && #[trigger] was.entries@[j].key() == k;
                self.lemma_entry(j);
            }
            self.lemma_entry(i);
        }
        assert forall|k: DialKey| #[trigger] self@.contains_key(k) implies self@[k] == was@.insert(
            key,
            now,
        )[k] by {
            let j: int = choose|j: int|
                0 <= j < self.entries@.len() && #[trigger] self.entries@[j].key() == k;
            self.lemma_entry(j);
            was.lemma_entry(j);
        }
        assert(self@ =~= was@.insert(key, now));
    }

    proof fn lemma_pushed(&self, was: &DialTable, key: DialKey, now: u64)
        requires
            self.wf(),
            was.wf(),
            self.entries@.len() == was.entries@.len() + 1,
            self.entries@.last().key() == key,
            self.entries@.last().at == now,
            forall|j: int|
                0 <= j < was.entries@.len() ==> #[trigger] self.entries@[j] == was.entries@[j],
        ensures
            self@ == was@.insert(key, now),
    {
        let n: int = was.entries@.len() as int;
        assert forall|k: DialKey| #[trigger]
            self@.contains_key(k) <==> was@.insert(key, now).contains_key(k) by {
            if self@.contains_key(k) {
                let j: int = choose|j: int|
                    0 <= j < self.entries@.len() && #[trigger] self.entries@[j].key() == k;
                if j < n {
                    was.lemma_entry(j);
                    assert(was.entries@[j] == self.entries@[j]);
                }
            }
            if was@.contains_key(k) {
                let j: int = choose|j: int|
                    0 <= j < was.entries@.len() && #[trigger] was.entries@[j].key() == k;
                assert(self.entries@[j] == was.entries@[j]);
                self.lemma_entry(j);
            }
            self.lemma_entry(n);
        }
        assert forall|k: DialKey| #[trigger] self@.contains_key(k) implies self@[k] == was@.insert(
            key,
            now,
        )[k] by {
            let j: int = choose|j: int|
                0 <= j < self.entries@.len() && #[trigger] self.entries@[j].key() == k;
            self.lemma_entry(j);
            if j < n {
                assert(self.entries@[j] == was.entries@[j]);
                was.lemma_entry(j);
                assert(self.entries@[j].key() != self.entries@[n].key());
            }
        }
        assert(self@ =~= was@.insert(key, now));
    }

    /// Forgets the records of `peer` that are outside the cooldown.
    pub fn expire(&mut self, peer: &PeerId, now: u64)
        requires
            old(self).wf(),
        ensures
            final(self).wf(),
            final(self)@ == without_expired(old(self)@, peer@, now),
    {
        let mut i: usize = 0;
        let ghost first: Map<DialKey, u64> = self@;
        while i < self.entries.len()
            invariant
                self.wf(),
                i <= self.entries@.len(),
                forall|j: int|
                    0 <= j < i ==> ((#[trigger] self.entries@[j]).peer@ == peer@ ==> elapsed(
                        now,
                        self.entries@[j].at,
                    ) < DIAL_COOLDOWN),
                first == old(self)@,
                without_expired(self@, peer@, now) == without_expired(first, peer@, now),
            decreases self.entries@.len() - i,
        {
            if self.entries[i].peer.same(peer) && time_since(now, self.entries[i].at)
                >= DIAL_COOLDOWN {
                let ghost before: DialTable = *self;
                let _ = self.entries.remove(i);
                proof {
                    self.lemma_removed(&before, i as int);
                    assert(without_expired(self@, peer@, now) =~= without_expired(
                        before@,
                        peer@,
                        now,
                    )) by {
                        before.lemma_entry(i as int);
                    }
                }
            } else {
                i += 1;
            }
        }
        proof {
            assert forall|k: DialKey| #[trigger] self@.contains_key(k) && k.0
                == peer@ implies elapsed(now, self@[k]) < DIAL_COOLDOWN by {
                let j: int = choose|j: int|
                    0 <= j < self.entries@.len() && #[trigger] self.entries@[j].key() == k;
                self.lemma_entry(j);
            }
            assert(self@ =~= without_expired(self@, peer@, now));
        }
    }

    proof fn lemma_removed(&self, was: &DialTable, i: int)
        requires
            was.wf(),
            0 <= i < was.entries@.len(),
            self.entries@ == was.entries@.remove(i),
        ensures
            self.wf(),
            self@ == was@.remove(was.entries@[i].key()),
    {
        let key: DialKey = was.entries@[i].key();
        assert forall|a: int, b: int| 0 <= a < b < self.entries@.len() implies (
        #[trigger] self.entries@[a]).key() != (#[trigger] self.entries@[b]).key() by {
            let a0: int = if a < i {
                a
            } else {
                a + 1
            };
            let b0: int = if b < i {
                b
            } else {
                b + 1
            };
            assert(self.entries@[a] == was.entries@[a0]);
            assert(self.entries@[b] == was.entries@[b0]);
        }
        assert forall|k: DialKey| #[trigger]
            self@.contains_key(k) <==> was@.remove(key).contains_key(k) by {
            if self@.contains_key(k) {
                let j: int = choose|j: int|
                    0 <= j < self.entries@.len() && #[trigger] self.entries@[j].key() == k;
                let j0: int = if j < i {
                    j
                } else {
                    j + 1
                };
                assert(self.entries@[j] == was.entries@[j0]);
                was.lemma_entry(j0);
                assert(was.entries@[j0].key() != was.entries@[i].key());
            }
            if was@.remove(key).contains_key(k) {
                let j0: int = choose|j: int|
                    0 <= j < was.entries@.len() && #[trigger] was.entries@[j].key() == k;
                let j: int = if j0 < i {
                    j0
                } else {
                    j0 - 1
                };
                assert(self.entries@[j] == was.entries@[j0]);
                self.lemma_entry(j);
            }
        }
        assert forall|k: DialKey| #[trigger] self@.contains_key(k) implies self@[k] == was@.remove(
            key,
        )[k] by {
            let j: int = choose|j: int|
                0 <= j < self.entries@.len() && #[trigger] self.entries@[j].key() == k;
            let j0: int = if j < i {
                j
            } else {
                j + 1
            };
            assert(self.entries@[j] == was.entries@[j0]);
            self.lemma_entry(j);
            was.lemma_entry(j0);
        }
        assert(self@ =~= was@.remove(key));
    }
}

/// A connection: the peer at its other end and the connection's number.
pub type PeerConn = (Seq<u8>, u64);

/// The connections of `peer`, oldest first.
pub open spec fn conns_of(list: Seq<PeerConn>, peer: Seq<u8>) -> Seq<u64>
    decreases list.len(),
{
    if list.len() == 0 {
        Seq::empty()
    } else if list.last().0 == peer {
        conns_of(list.drop_last(), peer).push(list.last().1)
    } else {
        conns_of(list.drop_last(), peer)
    }
}

/// The connections of all peers but `peer`, oldest first.
pub open spec fn without_peer(list: Seq<PeerConn>, peer: Seq<u8>) -> Seq<PeerConn>
    decreases list.len(),
{
    if list.len() == 0 {
        Seq::empty()
    } else if list.last().0 == peer {
        without_peer(list.drop_last(), peer)
    } else {
        without_peer(list.drop_last(), peer).push(list.last())
    }
}

/// The list without the connection `conn` of `peer`.
pub open spec fn without_conn(list: Seq<PeerConn>, peer: Seq<u8>, conn: u64) -> Seq<PeerConn>
    decreases list.len(),
{
    if list.len() == 0 {
        Seq::empty()
    } else if list.last() == (peer, conn) {
        without_conn(list.drop_last(), peer, conn)
    } else {
        without_conn(list.drop_last(), peer, conn).push(list.last())
    }
}

/// The connections of one kind, direct or through a relay.
pub struct ConnTable {
    conns: Vec<(PeerId, u64)>,
}

impl View for ConnTable {
    type V = Seq<PeerConn>;

    closed spec fn view(&self) -> Seq<PeerConn> {
        Seq::new(self.conns@.len(), |i: int| (self.conns@[i].0@, self.conns@[i].1))
    }
}

impl ConnTable {
    /// No connection.
    pub fn new() -> (t: ConnTable)
        ensures
            t@ == Seq::<PeerConn>::empty(),
    {
        let t: ConnTable = ConnTable { conns: Vec::new() };
        assert(t@ =~= Seq::<PeerConn>::empty());
        t
    }

    /// Records a connection of `peer`.
    pub fn push(&mut self, peer: PeerId, conn: u64)
        ensures
            final(self)@ == old(self)@.push((peer@, conn)),
    {
        let ghost v: PeerConn = (peer@, conn);
        self.conns.push((peer, conn));
        assert(self@ =~= old(self)@.push(v));
    }

    /// Removes the connections of `peer` and hands them out.
    pub fn take_peer(&mut self, peer: &PeerId) -> (taken: Vec<u64>)
        ensures
            taken@ == conns_of(old(self)@, peer@),
            final(self)@ == without_peer(old(self)@, peer@),
    {
        let ghost all: Seq<PeerConn> = self@;
        let mut taken: Vec<u64> = Vec::new();
        let mut kept: ConnTable = ConnTable::new();
        let mut i: usize = 0;
        assert(all.take(0) =~= Seq::<PeerConn>::empty());
        while i < self.conns.len()
            invariant
                all == self@,
                all.len() == self.conns@.len(),
                i <= all.len(),
                *self == *old(self),
                taken@ == conns_of(all.take(i as int), peer@),
                kept@ == without_peer(all.take(i as int), peer@),
            decreases self.conns@.len() - i,
        {
            proof {
                let longer: Seq<PeerConn> = all.take(i + 1);
                assert(longer.drop_last() =~= all.take(i as int));
                assert(longer.last() == all[i as int]);
                assert(all[i as int] == (self.conns@[i as int].0@, self.conns@[i as int].1));
            }
            let conn: u64 = self.conns[i].1;
            if self.conns[i].0.same(peer) {
                taken.push(conn);
            } else {
                kept.push(self.conns[i].0.dup(), conn);
            }
            i += 1;
        }
        assert(all.take(i as int) =~= all);
        self.conns = kept.conns;
        assert(self@ =~= kept@);
        taken
    }

    /// Removes the connection `conn` of `peer`.
    pub fn remove(&mut self, peer: &PeerId, conn: u64)
        ensures
            final(self)@ == without_conn(old(self)@, peer@, conn),
    {
        let ghost all: Seq<PeerConn> = self@;
        let mut kept: ConnTable = ConnTable::new();
        let mut i: usize = 0;
        assert(all.take(0) =~= Seq::<PeerConn>::empty());
        while i < self.conns.len()
            invariant
                all == self@,
                all.len() == self.conns@.len(),
                i <= all.len(),
                *self == *old(self),
                kept@ == without_conn(all.take(i as int), peer@, conn),
            decreases self.conns@.len() - i,
        {
            proof {
                let longer: Seq<PeerConn> = all.take(i + 1);
                assert(longer.drop_last() =~= all.take(i as int));
                assert(longer.last() == all[i as int]);
                assert(all[i as int] == (self.conns@[i as int].0@, self.conns@[i as int].1));
            }
            if self.conns[i].1 != conn || !self.conns[i].0.same(peer) {
                kept.push(self.conns[i].0.dup(), self.conns[i].1);
            }
            i += 1;
        }
        assert(all.take(i as int) =~= all);
        self.conns = kept.conns;
        assert(self@ =~= kept@);
    }

    /// Whether `peer` has a connection.
    pub fn has(&self, peer: &PeerId) -> (r: bool)
        ensures
            r == (conns_of(self@, peer@).len() > 0),
    {
        let ghost all: Seq<PeerConn> = self@;
        let mut found: bool = false;
        let mut i: usize = 0;
        assert(all.take(0) =~= Seq::<PeerConn>::empty());
        while i < self.conns.len()
            invariant
                all == self@,
                all.len() == self.conns@.len(),
                i <= all.len(),
                found == (conns_of(all.take(i as int), peer@).len() > 0),
            decreases self.conns@.len() - i,
        {
            proof {
                let longer: Seq<PeerConn> = all.take(i + 1);
                assert(longer.drop_last() =~= all.take(i as int));
                assert(longer.last() == all[i as int]);
                assert(all[i as int] == (self.conns@[i as int].0@, self.conns@[i as int].1));
            }
            if self.conns[i].0.same(peer) {
                found = true;
            }
            i += 1;
        }
        assert(all.take(i as int) =~= all);
        found
    }
}

/// An address rests for the thirty seconds that follow its last dial, and no longer; one that was never
/// dialled does not rest.
pub proof fn rest_lasts_thirty_seconds(
    dials: Map<DialKey, u64>,
    peer: Seq<u8>,
    addr: Seq<Proto>,
    then: u64,
    now: u64,
)
    ensures
        in_cooldown(dials.insert((peer, addr), then), peer, addr, now) <==> now < then
            + 30_000_000_000,
        !dials.contains_key((peer, addr)) ==> !in_cooldown(dials, peer, addr, now),
        dials.contains_key((peer, addr)) && dials[(peer, addr)] == then ==> (in_cooldown(
            dials,
            peer,
            addr,
            now,
        ) <==> now < then + 30_000_000_000),
        now >= then ==> elapsed(now, then) == now - then,
        now <= then ==> elapsed(now, then) == 0,
{
}

/// Forgetting what has rested long enough keeps the records of other peers, and of the peer exactly
/// those that still rest, each as it was.
pub proof fn only_rested_records_are_forgotten(
    dials: Map<DialKey, u64>,
    peer: Seq<u8>,
    now: u64,
    key: DialKey,
)
    ensures
        ({
            let left: Map<DialKey, u64> = without_expired(dials, peer, now);
            &&& left.contains_key(key) <==> dials.contains_key(key) && (key.0 != peer || now
                < dials[key] + 30_000_000_000)
            &&& left.contains_key(key) ==> left[key] == dials[key]
        }),
{
}

/// What the lists of connections come to as one more connection is recorded.
pub proof fn connections_are_listed_in_order(
    list: Seq<PeerConn>,
    peer: Seq<u8>,
    conn: u64,
    last: PeerConn,
)
    ensures
        conns_of(Seq::<PeerConn>::empty(), peer) == Seq::<u64>::empty(),
        without_peer(Seq::<PeerConn>::empty(), peer) == Seq::<PeerConn>::empty(),
        without_conn(Seq::<PeerConn>::empty(), peer, conn) == Seq::<PeerConn>::empty(),
        conns_of(list.push(last), peer) == if last.0 == peer {
            conns_of(list, peer).push(last.1)
        } else {
            conns_of(list, peer)
        },
        without_peer(list.push(last), peer) == if last.0 == peer {
            without_peer(list, peer)
        } else {
            without_peer(list, peer).push(last)
        },
        without_conn(list.push(last), peer, conn) == if last.0 == peer && last.1 == conn {
            without_conn(list, peer, conn)
        } else {
            without_conn(list, peer, conn).push(last)
        },
{
    assert(list.push(last).drop_last() =~= list);
}

/// Which connections a list has: of a peer those recorded with it, without a peer all others, without
/// a connection all but that one.
pub proof fn connections_are_listed_exactly(
    list: Seq<PeerConn>,
    peer: Seq<u8>,
    conn: u64,
    entry: PeerConn,
)
    ensures
        conns_of(list, peer).contains(conn) <==> list.contains((peer, conn)),
        without_peer(list, peer).contains(entry) <==> list.contains(entry) && entry.0 != peer,
        without_conn(list, peer, conn).contains(entry) <==> list.contains(entry) && entry != (
            peer,
            conn,
        ),
    decreases list.len(),
{
    if list.len() > 0 {
        let init: Seq<PeerConn> = list.drop_last();
        let last: PeerConn = list.last();
        connections_are_listed_exactly(init, peer, conn, entry);
        assert(init.push(last) =~= list);
        lemma_push_contains(init, last, entry);
        lemma_push_contains(init, last, (peer, conn));
        lemma_push_contains(without_peer(init, peer), last, entry);
        lemma_push_contains(without_conn(init, peer, conn), last, entry);
        lemma_push_contains(conns_of(init, peer), last.1, conn);
    }
}

proof fn lemma_push_contains<A>(list: Seq<A>, last: A, a: A)
    ensures
        list.push(last).contains(a) <==> list.contains(a) || a == last,
{
    let longer: Seq<A> = list.push(last);
    if longer.contains(a) {
        let i: int = choose|i: int| 0 <= i < longer.len() && longer[i] == a;
        if i < list.len() {
            assert(list[i] == a);
        }
    }
    if list.contains(a) {
        let i: int = choose|i: int| 0 <= i < list.len() && list[i] == a;
        assert(longer[i] == a);
    }
    if a == last {
        assert(longer[list.len() as int] == a);
    }
}

} // verus!
