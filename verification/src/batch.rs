//! The batch format: many packets in one message.
//!
//! A batch is `C`, `O`, the version byte 1, the packet count as two bytes in network order, and then
//! for each packet its length as two bytes in network order and its bytes.

use vstd::prelude::*;

use bytes::{Bytes, BytesMut};

use crate::buffer::{
    buf_capacity, buf_freeze, buf_len, buf_put_slice, buf_put_u16, buf_put_u8, buf_reserve, buf_set,
    buf_split, buf_with_capacity, bytes_as_slice, bytes_copy_from_slice, bytes_from_vec, bytes_new,
};
#[allow(unused_imports)]
use crate::buffer::{buf_contents, bytes_contents};
use crate::wire::read_be16;
#[allow(unused_imports)]
use crate::wire::{be16, be16_bytes};

verus! {

/// The length of the batch header.
pub const HDR_LEN: usize = 5;

/// The header of a batch of `count` packets.
pub open spec fn batch_header(count: int) -> Seq<u8> {
    seq![0x43u8, 0x4fu8, 1u8] + be16_bytes(count)
}

/// One packet with its length in front. The length field has sixteen bits.
pub open spec fn framed_packet(pkt: Seq<u8>) -> Seq<u8> {
    be16_bytes(pkt.len() as int % 0x1_0000) + pkt
}

/// Packets with their lengths, one after the other.
pub open spec fn framed_packets(pkts: Seq<Seq<u8>>) -> Seq<u8>
    decreases pkts.len(),
{
    if pkts.len() == 0 {
        Seq::empty()
    } else {
        framed_packets(pkts.drop_last()) + framed_packet(pkts.last())
    }
}

/// The message that carries `pkts`.
pub open spec fn batch_message(pkts: Seq<Seq<u8>>) -> Seq<u8> {
    batch_header(pkts.len() as int) + framed_packets(pkts)
}

/// Whether a message starts as a batch does.
pub open spec fn is_batch(data: Seq<u8>) -> bool {
    data.len() >= 5 && data[0] == 0x43 && data[1] == 0x4f && data[2] == 1
}

/// The first `count` packets from position `at` on, up to the first that is cut short.
pub open spec fn packets_from(data: Seq<u8>, at: int, count: nat) -> Seq<Seq<u8>>
    decreases count,
{
    if count == 0 || at + 2 > data.len() {
        Seq::empty()
    } else {
        let end: int = at + 2 + be16(data[at], data[at + 1]);
        if end > data.len() {
            Seq::empty()
        } else {
            seq![data.subrange(at + 2, end)] + packets_from(data, end, (count - 1) as nat)
        }
    }
}

/// The packets that a message carries: those of a batch, or the message itself where it is none.
pub open spec fn packets_in(data: Seq<u8>) -> Seq<Seq<u8>> {
    if is_batch(data) {
        packets_from(data, 5, be16(data[3], data[4]) as nat)
    } else {
        seq![data]
    }
}

/// The contents of a list of buffers.
pub open spec fn contents_of(list: Seq<Bytes>) -> Seq<Seq<u8>> {
    list.map_values(|b: Bytes| bytes_contents(b))
}

/// A batch under construction.
pub struct BatchBuilder {
    buf: BytesMut,
    pkt_count: u16,
    packets: Ghost<Seq<Seq<u8>>>,
}

impl View for BatchBuilder {
    type V = Seq<Seq<u8>>;

    /// The packets added so far.
    closed spec fn view(&self) -> Seq<Seq<u8>> {
        self.packets@
    }
}

impl BatchBuilder {
    /// The buffer holds a header with an open count and the packets added so far.
    pub closed spec fn wf(&self) -> bool {
        &&& self.pkt_count == self@.len()
        &&& buf_contents(self.buf) == batch_header(0) + framed_packets(self@)
    }

    /// Writes a header whose count is still open.
    fn open_header(buf: &mut BytesMut)
        requires
            buf_contents(*old(buf)) == Seq::<u8>::empty(),
        ensures
            buf_contents(*final(buf)) == batch_header(0) + framed_packets(Seq::empty()),
    {
        buf_put_slice(buf, [0x43u8, 0x4fu8].as_slice());
        buf_put_u8(buf, 1);
        buf_put_u8(buf, 0);
        buf_put_u8(buf, 0);
        assert(buf_contents(*buf) =~= batch_header(0) + framed_packets(Seq::empty()));
    }

    /// An empty batch with room for `cap` bytes.
    pub fn with_capacity(cap: usize) -> (b: BatchBuilder)
        requires
            cap <= isize::MAX,
        ensures
            b.wf(),
            b@ == Seq::<Seq<u8>>::empty(),
    {
        let mut buf: BytesMut = buf_with_capacity(
            if cap > HDR_LEN {
                cap
            } else {
                HDR_LEN
            },
        );
        BatchBuilder::open_header(&mut buf);
        BatchBuilder { buf, pkt_count: 0, packets: Ghost(Seq::empty()) }
    }

    /// Whether no packet was added.
    pub fn is_empty(&self) -> (r: bool)
        requires
            self.wf(),
        ensures
            r == (self@.len() == 0),
    {
        self.pkt_count == 0
    }

    /// How many packets were added.
    pub fn count(&self) -> (n: u16)
        requires
            self.wf(),
        ensures
            n == self@.len(),
    {
        self.pkt_count
    }

    /// How many bytes follow the header.
    pub fn payload_size(&self) -> (n: usize)
        requires
            self.wf(),
        ensures
            n == framed_packets(self@).len(),
    {
        buf_len(&self.buf) - HDR_LEN
    }

    /// Adds a packet; `false` where the batch already holds as many as its count can say.
    pub fn add(&mut self, pkt: &Bytes) -> (added: bool)
        requires
            old(self).wf(),
            HDR_LEN + framed_packets(old(self)@).len() + 2 + bytes_contents(*pkt).len()
                <= isize::MAX,
        ensures
            final(self).wf(),
            added == (old(self)@.len() < u16::MAX),
            final(self)@ == if added {
                old(self)@.push(bytes_contents(*pkt))
            } else {
                old(self)@
            },
    {
        if self.pkt_count == u16::MAX {
            return false;
        }
        let bytes: &[u8] = bytes_as_slice(pkt);
        let needed: usize = 2 + bytes.len();
        if buf_capacity(&self.buf) - buf_len(&self.buf) < needed {
            buf_reserve(&mut self.buf, needed);
        }
        let len: u16 = (bytes.len() % 0x1_0000) as u16;
        buf_put_u16(&mut self.buf, len);
        buf_put_slice(&mut self.buf, bytes);
        self.pkt_count = self.pkt_count + 1;
        proof {
            let was: Seq<Seq<u8>> = self.packets@;
            let now: Seq<Seq<u8>> = was.push(bytes@);
            assert(now.drop_last() =~= was);
            self.packets@ = now;
            assert(buf_contents(self.buf) =~= batch_header(0) + framed_packets(now));
        }
        true
    }

    /// The message that carries the packets added so far, and an empty batch again. Without packets
    /// the message is empty.
    pub fn take(&mut self) -> (data: Bytes)
        requires
            old(self).wf(),
        ensures
            final(self).wf(),
            final(self)@ == Seq::<Seq<u8>>::empty(),
            bytes_contents(data) == if old(self)@.len() == 0 {
                Seq::<u8>::empty()
            } else {
                batch_message(old(self)@)
            },
    {
        if self.pkt_count == 0 {
            assert(self@ =~= Seq::<Seq<u8>>::empty());
            return bytes_new();
        }
        let ghost pkts: Seq<Seq<u8>> = self@;
        buf_set(&mut self.buf, 3, (self.pkt_count / 256) as u8);
        buf_set(&mut self.buf, 4, (self.pkt_count % 256) as u8);
        assert(buf_contents(self.buf) =~= batch_message(pkts));
        let out: Bytes = buf_freeze(buf_split(&mut self.buf));
        BatchBuilder::open_header(&mut self.buf);
        self.pkt_count = 0;
        proof {
            self.packets@ = Seq::empty();
        }
        out
    }
}

/// Takes a message apart into its packets.
pub fn unpack(data: Vec<u8>) -> (pkts: Vec<Bytes>)
    ensures
        contents_of(pkts@) == packets_in(data@),
{
    let mut pkts: Vec<Bytes> = Vec::new();
    if data.len() >= 5 && data[0] == 0x43 && data[1] == 0x4f && data[2] == 1 {
        let count: usize = read_be16(data[3], data[4]) as usize;
        let mut idx: usize = 5;
        let mut left: usize = count;
        let mut cut: bool = false;
        assert(contents_of(pkts@) + packets_from(data@, 5, count as nat) =~= packets_in(data@));
        while left > 0 && !cut
            invariant
                5 <= idx <= data@.len(),
                cut ==> contents_of(pkts@) == packets_in(data@),
                !cut ==> contents_of(pkts@) + packets_from(data@, idx as int, left as nat)
                    == packets_in(data@),
            decreases left + (if cut {
                0int
            } else {
                1
            }),
        {
            let ghost before: Seq<Seq<u8>> = contents_of(pkts@);
            if data.len() - idx < 2 {
                cut = true;
                assert(contents_of(pkts@) =~= packets_in(data@));
            } else {
                let len: usize = read_be16(data[idx], data[idx + 1]) as usize;
                if data.len() - idx - 2 < len {
                    cut = true;
                    assert(contents_of(pkts@) =~= packets_in(data@));
                } else {
                    let pkt: Bytes = bytes_copy_from_slice(
                        vstd::slice::slice_subrange(data.as_slice(), idx + 2, idx + 2 + len),
                    );
                    let ghost body: Seq<u8> = bytes_contents(pkt);
                    let ghost rest: Seq<Seq<u8>> = packets_from(
                        data@,
                        idx + 2 + len,
                        (left - 1) as nat,
                    );
                    pkts.push(pkt);
                    idx = idx + 2 + len;
                    left = left - 1;
                    assert(contents_of(pkts@) =~= before.push(body));
                    assert(before.push(body) + rest =~= before + (seq![body] + rest));
                }
            }
        }
        assert(contents_of(pkts@) =~= packets_in(data@));
    } else {
        let ghost whole: Seq<u8> = data@;
        pkts.push(bytes_from_vec(data));
        assert(contents_of(pkts@) =~= seq![whole]);
    }
    pkts
}

proof fn lemma_framed_front(pkts: Seq<Seq<u8>>)
    requires
        pkts.len() > 0,
    ensures
        framed_packets(pkts) == framed_packet(pkts[0]) + framed_packets(pkts.skip(1)),
    decreases pkts.len(),
{
    if pkts.len() == 1 {
        reveal_with_fuel(framed_packets, 2);
        assert(pkts.skip(1) =~= Seq::<Seq<u8>>::empty());
        assert(pkts.drop_last() =~= Seq::<Seq<u8>>::empty());
        assert(framed_packets(pkts) =~= framed_packet(pkts[0]) + framed_packets(pkts.skip(1)));
    } else {
        let init: Seq<Seq<u8>> = pkts.drop_last();
        lemma_framed_front(init);
        assert(init.skip(1) =~= pkts.skip(1).drop_last());
        assert(pkts.skip(1).last() == pkts.last());
        assert(framed_packets(pkts) =~= framed_packet(pkts[0]) + framed_packets(pkts.skip(1)));
    }
}

proof fn lemma_unframe(front: Seq<u8>, pkts: Seq<Seq<u8>>)
    requires
        forall|i: int| 0 <= i < pkts.len() ==> (#[trigger] pkts[i]).len() < 0x1_0000,
    ensures
        packets_from(front + framed_packets(pkts), front.len() as int, pkts.len()) == pkts,
    decreases pkts.len(),
{
    let data: Seq<u8> = front + framed_packets(pkts);
    let at: int = front.len() as int;
    if pkts.len() > 0 {
        lemma_framed_front(pkts);
        let first: Seq<u8> = pkts[0];
        let rest: Seq<Seq<u8>> = pkts.skip(1);
        let next: Seq<u8> = front + framed_packet(first);
        assert(data =~= next + framed_packets(rest));
        crate::wire::be16_round_trip(first.len() as int);
        assert(data[at] == be16_bytes(first.len() as int)[0]);
        assert(data[at + 1] == be16_bytes(first.len() as int)[1]);
        let end: int = at + 2 + first.len();
        assert(data.subrange(at + 2, end) =~= first);
        assert forall|i: int| 0 <= i < rest.len() implies (#[trigger] rest[i]).len() < 0x1_0000 by {
            assert(rest[i] == pkts[i + 1]);
        }
        lemma_unframe(next, rest);
        assert(packets_from(data, at, pkts.len()) =~= seq![first] + rest);
        assert(seq![first] + rest =~= pkts);
    } else {
        assert(packets_from(data, at, 0) =~= pkts);
    }
}

/// What one node batches, another unpacks: the packets of a batch come out as they went in, in
/// order, for as many packets as the count can say and packets as long as the length field can say.
pub proof fn batch_round_trip(pkts: Seq<Seq<u8>>)
    requires
        pkts.len() < 0x1_0000,
        forall|i: int| 0 <= i < pkts.len() ==> (#[trigger] pkts[i]).len() < 0x1_0000,
    ensures
        is_batch(batch_message(pkts)),
        packets_in(batch_message(pkts)) == pkts,
{
    let head: Seq<u8> = batch_header(pkts.len() as int);
    crate::wire::be16_round_trip(pkts.len() as int);
    assert(head.len() == 5);
    let data: Seq<u8> = batch_message(pkts);
    assert(data[3] == be16_bytes(pkts.len() as int)[0]);
    assert(data[4] == be16_bytes(pkts.len() as int)[1]);
    lemma_unframe(head, pkts);
}

/// A packet that is sent by itself is not mistaken for a batch: an IPv4 packet whose header has at
/// least its twenty bytes, or an IPv6 packet, unpacks to itself.
pub proof fn lone_packet_round_trip(pkt: Seq<u8>)
    requires
        pkt.len() > 0,
        crate::ipv4::ip_version(pkt) == 6 || (crate::ipv4::ip_version(pkt) == 4
            && crate::ipv4::header_len(pkt) >= 20),
    ensures
        packets_in(pkt) == seq![pkt],
{
}

/// A message yields no more packets than its count says, and none that it does not contain.
pub proof fn unpacked_packets_are_contained(data: Seq<u8>, i: int)
    requires
        is_batch(data),
        0 <= i < packets_in(data).len(),
    ensures
        packets_in(data).len() <= be16(data[3], data[4]),
        exists|from: int, to: int|
            5 <= from <= to <= data.len() && packets_in(data)[i] == #[trigger] data.subrange(
                from,
                to,
            ),
{
    lemma_contained(data, 5, be16(data[3], data[4]) as nat, i);
}

proof fn lemma_contained(data: Seq<u8>, at: int, count: nat, i: int)
    requires
        5 <= at,
        0 <= i < packets_from(data, at, count).len(),
    ensures
        packets_from(data, at, count).len() <= count,
        exists|from: int, to: int|
            5 <= from <= to <= data.len() && packets_from(data, at, count)[i]
                == #[trigger] data.subrange(from, to),
    decreases count,
{
    let end: int = at + 2 + be16(data[at], data[at + 1]);
    let rest: Seq<Seq<u8>> = packets_from(data, end, (count - 1) as nat);
    if rest.len() > 0 {
        lemma_contained(
            data,
            end,
            (count - 1) as nat,
            if i > 0 {
                i - 1
            } else {
                0
            },
        );
    }
    if i == 0 {
        assert(packets_from(data, at, count)[0] == data.subrange(at + 2, end));
    } else {
        assert(packets_from(data, at, count)[i] == rest[i - 1]);
    }
}

/// What a batch looks like: the letters, the version, the count, and behind them one packet after the
/// other, each behind its length, numbers with the most significant byte first.
pub proof fn batches_say_what_they_hold(pkts: Seq<Seq<u8>>, pkt: Seq<u8>)
    requires
        pkts.len() < 0x1_0000,
        pkt.len() < 0x1_0000,
    ensures
        batch_message(pkts).len() == 5 + framed_packets(pkts).len(),
        batch_message(pkts)[0] == 'C' as u8,
        batch_message(pkts)[1] == 'O' as u8,
        batch_message(pkts)[2] == 1,
        batch_message(pkts)[3] * 0x100 + batch_message(pkts)[4] == pkts.len(),
        batch_message(pkts).skip(5) == framed_packets(pkts),
        framed_packets(Seq::<Seq<u8>>::empty()) == Seq::<u8>::empty(),
        framed_packets(pkts.push(pkt)) == framed_packets(pkts) + seq![
            (pkt.len() / 0x100) as u8,
            (pkt.len() % 0x100) as u8,
        ] + pkt,
{
    let message: Seq<u8> = batch_message(pkts);
    crate::wire::network_order(0, 0, 0, 0, pkts.len() as int);
    assert(message.skip(5) =~= framed_packets(pkts));
    assert(message[3] == be16_bytes(pkts.len() as int)[0]);
    assert(message[4] == be16_bytes(pkts.len() as int)[1]);
    assert(pkts.push(pkt).drop_last() =~= pkts);
    assert(framed_packets(pkts.push(pkt)) =~= framed_packets(pkts) + seq![
        (pkt.len() / 0x100) as u8,
        (pkt.len() % 0x100) as u8,
    ] + pkt);
}

/// A message that does not start as a batch does is one packet, whatever it holds.
pub proof fn other_messages_are_one_packet(data: Seq<u8>)
    requires
        data.len() < 5 || data[0] != 67 || data[1] != 79 || data[2] != 1,
    ensures
        packets_in(data) == seq![data],
{
}

proof fn lemma_unframe_more(front: Seq<u8>, pkts: Seq<Seq<u8>>, rest: Seq<u8>, n: nat)
    requires
        forall|i: int| 0 <= i < pkts.len() ==> (#[trigger] pkts[i]).len() < 0x1_0000,
        n >= pkts.len(),
    ensures
        packets_from(front + framed_packets(pkts) + rest, front.len() as int, n) == pkts
            + packets_from(
            front + framed_packets(pkts) + rest,
            (front + framed_packets(pkts)).len() as int,
            (n - pkts.len()) as nat,
        ),
    decreases pkts.len(),
{
    let data: Seq<u8> = front + framed_packets(pkts) + rest;
    let at: int = front.len() as int;
    if pkts.len() > 0 {
        lemma_framed_front(pkts);
        let first: Seq<u8> = pkts[0];
        let others: Seq<Seq<u8>> = pkts.skip(1);
        let next: Seq<u8> = front + framed_packet(first);
        assert(data =~= next + framed_packets(others) + rest);
        crate::wire::be16_round_trip(first.len() as int);
        assert(data[at] == be16_bytes(first.len() as int)[0]);
        assert(data[at + 1] == be16_bytes(first.len() as int)[1]);
        let end: int = at + 2 + first.len();
        assert(data.subrange(at + 2, end) =~= first);
        assert forall|i: int| 0 <= i < others.len() implies (#[trigger] others[i]).len()
            < 0x1_0000 by {
            assert(others[i] == pkts[i + 1]);
        }
        lemma_unframe_more(next, others, rest, (n - 1) as nat);
        let stop: int = (front + framed_packets(pkts)).len() as int;
        let more: Seq<Seq<u8>> = packets_from(data, stop, (n - pkts.len()) as nat);
        assert((next + framed_packets(others)).len() == stop);
        assert(packets_from(data, at, n) =~= seq![first] + (others + more));
        assert(seq![first] + (others + more) =~= pkts + more);
    } else {
        assert(front + framed_packets(pkts) =~= front);
        let more: Seq<Seq<u8>> = packets_from(data, at, n);
        assert(pkts + more =~= more);
    }
}

/// A batch yields as many of its packets as its count says, in order; where the count says more than
/// there are, it yields those that are there, up to where the message no longer holds a whole packet.
pub proof fn batches_yield_whole_packets(pkts: Seq<Seq<u8>>, count: int, rest: Seq<u8>)
    requires
        forall|i: int| 0 <= i < pkts.len() ==> (#[trigger] pkts[i]).len() < 0x1_0000,
        0 <= count < 0x1_0000,
    ensures
        ({
            let data: Seq<u8> = seq![67u8, 79u8, 1u8, (count / 0x100) as u8, (count % 0x100) as u8]
                + framed_packets(pkts) + rest;
            &&& count == pkts.len() ==> packets_in(data) == pkts
            &&& count > pkts.len() && (rest.len() < 2 || rest.len() < 2 + rest[0] * 0x100 + rest[1])
                ==> packets_in(data) == pkts
        }),
{
    let head: Seq<u8> = seq![67u8, 79u8, 1u8, (count / 0x100) as u8, (count % 0x100) as u8];
    let data: Seq<u8> = head + framed_packets(pkts) + rest;
    if count >= pkts.len() {
        lemma_unframe_more(head, pkts, rest, count as nat);
        let stop: int = (head + framed_packets(pkts)).len() as int;
        let more: Seq<Seq<u8>> = packets_from(data, stop, (count - pkts.len()) as nat);
        assert(rest.len() >= 2 ==> data[stop] == rest[0] && data[stop + 1] == rest[1]);
        assert(data[3] * 256 + data[4] == count);
        if count == pkts.len() || rest.len() < 2 || rest.len() < 2 + rest[0] * 0x100 + rest[1] {
            assert(more =~= Seq::<Seq<u8>>::empty());
            assert(pkts + more =~= pkts);
        }
    }
}

/// A packet in a batch that is read on: it is what its length says, and what follows is read in the
/// same way.
pub proof fn packets_are_read_one_by_one(data: Seq<u8>, at: int, count: nat)
    requires
        0 <= at,
        count > 0,
        at + 2 + data[at] * 0x100 + data[at + 1] <= data.len(),
    ensures
        ({
            let end: int = at + 2 + data[at] * 0x100 + data[at + 1];
            packets_from(data, at, count) == seq![data.subrange(at + 2, end)] + packets_from(
                data,
                end,
                (count - 1) as nat,
            )
        }),
        packets_from(data, at, 0) == Seq::<Seq<u8>>::empty(),
{
}

} // verus!
