//! Frames of the direct data protocol: a length in four bytes, then the payload.

use vstd::prelude::*;

use crate::wire::{push_range, read_be32};
#[allow(unused_imports)]
use crate::wire::{be32, be32_bytes};

verus! {

/// A payload with its length in front. The length field has 32 bits.
pub open spec fn framed(payload: Seq<u8>) -> Seq<u8> {
    be32_bytes(payload.len() as int % 0x1_0000_0000) + payload
}

/// The payload of the frame at the start of a stream, once all of it has arrived.
pub open spec fn frame_at_start(stream: Seq<u8>) -> Option<Seq<u8>> {
    if stream.len() < 4 {
        None
    } else {
        let len: int = be32(stream[0], stream[1], stream[2], stream[3]);
        if stream.len() < 4 + len {
            None
        } else {
            Some(stream.subrange(4, 4 + len))
        }
    }
}

/// What follows the frame at the start of a stream.
pub open spec fn after_frame(stream: Seq<u8>) -> Seq<u8> {
    stream.skip(4 + be32(stream[0], stream[1], stream[2], stream[3]))
}

/// The bytes to write for a request or a response.
pub fn encode_frame(payload: &[u8]) -> (out: Vec<u8>)
    ensures
        out@ == framed(payload@),
{
    let len: u64 = payload.len() as u64 % 0x1_0000_0000;
    let mut out: Vec<u8> = Vec::new();
    out.push((len / 0x100_0000) as u8);
    out.push((len / 0x1_0000 % 256) as u8);
    out.push((len / 256 % 256) as u8);
    out.push((len % 256) as u8);
    push_range(&mut out, payload, 0, payload.len());
    assert(out@ =~= framed(payload@));
    out
}

/// How many bytes to read after the four bytes of a length: with them the frame is whole.
pub fn payload_len(header: &[u8]) -> (n: u32)
    requires
        header@.len() == 4,
    ensures
        n == be32(header@[0], header@[1], header@[2], header@[3]),
        forall|payload: Seq<u8>|
            payload.len() == n ==> #[trigger] frame_at_start(header@ + payload) == Some(payload),
{
    proof {
        let len: int = be32(header@[0], header@[1], header@[2], header@[3]);
        assert forall|payload: Seq<u8>|
            payload.len() == len implies #[trigger] frame_at_start(header@ + payload) == Some(
            payload,
        ) by {
            assert((header@ + payload).subrange(4, 4 + len) =~= payload);
        }
    }
    read_be32(header[0], header[1], header[2], header[3])
}

/// Reading gives back what was written, whatever follows on the stream, for every payload whose
/// length the frame can say.
pub proof fn frame_round_trip(payload: Seq<u8>, rest: Seq<u8>)
    requires
        payload.len() < 0x1_0000_0000,
    ensures
        frame_at_start(framed(payload) + rest) == Some(payload),
        after_frame(framed(payload) + rest) == rest,
{
    let stream: Seq<u8> = framed(payload) + rest;
    let head: Seq<u8> = be32_bytes(payload.len() as int);
    crate::wire::be32_round_trip(payload.len() as int);
    assert(stream[0] == head[0] && stream[1] == head[1] && stream[2] == head[2] && stream[3]
        == head[3]);
    assert(stream.subrange(4, 4 + payload.len() as int) =~= payload);
    assert(stream.skip(4 + payload.len() as int) =~= rest);
}

/// A frame is four bytes that say the length of the payload, most significant first, and the payload
/// as it is; on a stream that ends earlier there is no frame yet.
pub proof fn frames_say_their_length(payload: Seq<u8>, n: int)
    requires
        payload.len() < 0x1_0000_0000,
        0 <= n < payload.len() + 4,
    ensures
        framed(payload).len() == payload.len() + 4,
        framed(payload)[0] * 0x100_0000 + framed(payload)[1] * 0x1_0000 + framed(payload)[2] * 0x100
            + framed(payload)[3] == payload.len(),
        framed(payload).skip(4) == payload,
        frame_at_start(framed(payload).take(n)) is None,
{
    let all: Seq<u8> = framed(payload);
    let head: Seq<u8> = be32_bytes(payload.len() as int);
    crate::wire::network_order(0, 0, 0, 0, payload.len() as int);
    crate::wire::be32_round_trip(payload.len() as int);
    assert(all[0] == head[0] && all[1] == head[1] && all[2] == head[2] && all[3] == head[3]);
    assert(all.skip(4) =~= payload);
    let part: Seq<u8> = all.take(n);
    if n >= 4 {
        assert(part[0] == head[0] && part[1] == head[1] && part[2] == head[2] && part[3] == head[3]);
    }
}

} // verus!
