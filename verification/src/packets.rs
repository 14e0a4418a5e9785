//! What the fields of a packet are, and what is made of it, in terms of its bytes.

use vstd::prelude::*;

#[allow(unused_imports)]
use crate::ipv4::{
    checksum_cleared, checksum_of, checksum_validates, dont_fragment, fragment_count,
    fragment_is_well_formed, fragment_offset, fragment_payload, fragment_room,
    fragments_carry_the_payload, fragments_of, header_len, ip_version, later_options, more_fragments,
    must_fragment, ones_complement, payload_of, total_len, word_sum,
};
#[allow(unused_imports)]
use crate::routing::{
    behind_extensions, is_ipv4, is_ipv6, is_oversized_ipv6, meta_of, ports_in, transport_of,
    writes_of, Meta,
};
#[allow(unused_imports)]
use crate::text::{ipv4_chars, ipv6_chars};

verus! {

/// Where the fields of an IPv4 header are.
pub proof fn header_fields_by_bits(pkt: Seq<u8>)
    requires
        pkt.len() >= 20,
    ensures
        ip_version(pkt) == pkt[0] >> 4,
        header_len(pkt) == 4 * (pkt[0] & 0x0f),
        total_len(pkt) == pkt[2] * 0x100 + pkt[3],
        dont_fragment(pkt) <==> pkt[6] & 0x40 != 0,
        more_fragments(pkt) <==> pkt[6] & 0x20 != 0,
        fragment_offset(pkt) == 8 * ((pkt[6] & 0x1f) * 0x100 + pkt[7]),
{
    let first: u8 = pkt[0];
    let flags: u8 = pkt[6];
    assert(first >> 4 == first / 16) by (bit_vector);
    assert(first & 0x0f == first % 16) by (bit_vector);
    assert((flags & 0x40 != 0) == (flags / 64 % 2 == 1)) by (bit_vector);
    assert((flags & 0x20 != 0) == (flags / 32 % 2 == 1)) by (bit_vector);
    assert(flags & 0x1f == flags % 32) by (bit_vector);
}

/// The payload is what follows the header, as far as the packet says and as far as it goes.
pub proof fn payload_follows_the_header(pkt: Seq<u8>, i: int)
    requires
        20 <= header_len(pkt) <= pkt.len(),
        total_len(pkt) >= header_len(pkt),
    ensures
        payload_of(pkt).len() == (if total_len(pkt) < pkt.len() {
            total_len(pkt)
        } else {
            pkt.len() as int
        }) - header_len(pkt),
        0 <= i < payload_of(pkt).len() ==> payload_of(pkt)[i] == pkt[header_len(pkt) + i],
{
}

/// When a packet is cut up, by its bytes: it is IPv4 with a header of its own length and a payload, it
/// is longer than the MTU, its flag does not forbid it or is not respected, and the MTU leaves room for
/// eight bytes. What is written is then its fragments, else the packet.
pub proof fn packets_are_cut_up_when_they_must(pkt: Seq<u8>, mtu: int, respect_df: bool)
    requires
        pkt.len() >= 20,
    ensures
        ({
            let ihl: int = 4 * (pkt[0] & 0x0f);
            let cut: bool = {
                &&& pkt[0] >> 4 == 4
                &&& pkt.len() > 20
                &&& 20 <= ihl <= pkt.len()
                &&& ihl < pkt[2] * 0x100 + pkt[3]
                &&& mtu < pkt.len()
                &&& ihl + 8 <= mtu
                &&& !(respect_df && pkt[6] & 0x40 != 0)
            };
            &&& must_fragment(pkt, mtu, respect_df) <==> cut
            &&& cut ==> writes_of(pkt, mtu, respect_df) == fragments_of(pkt, mtu)
            &&& !cut ==> writes_of(pkt, mtu, respect_df) == seq![pkt]
        }),
{
    header_fields_by_bits(pkt);
}

/// Fragments are no more than needed: every fragment but the last carries a multiple of eight bytes,
/// and eight more would not fit under the MTU.
pub proof fn fragments_are_full(pkt: Seq<u8>, mtu: int, respect_df: bool, k: int)
    requires
        must_fragment(pkt, mtu, respect_df),
        0 <= k < fragments_of(pkt, mtu).len() - 1,
    ensures
        payload_of(fragments_of(pkt, mtu)[k]).len() % 8 == 0,
        fragments_of(pkt, mtu)[k].len() <= mtu < fragments_of(pkt, mtu)[k].len() + 8,
{
    let room: int = fragment_room(pkt, mtu);
    let all: Seq<u8> = payload_of(pkt);
    fragment_is_well_formed(pkt, mtu, respect_df, k);
    crate::ipv4::lemma_position(all.len() as int, room, k);
    let data: Seq<u8> = fragment_payload(pkt, mtu, k);
    assert(data.len() == room);
}

/// The sum of the words of a header, word by word, the most significant byte first; an odd last byte
/// counts as if a zero followed.
pub proof fn words_are_summed(s: Seq<u8>, hi: u8, lo: u8)
    ensures
        word_sum(Seq::<u8>::empty()) == 0,
        word_sum(seq![hi]) == hi * 0x100,
        word_sum(seq![hi, lo] + s) == hi * 0x100 + lo + word_sum(s),
{
    assert((seq![hi, lo] + s).skip(2) =~= s);
}

/// The checksum makes the words of a header, with itself among them, a multiple of 65535; of the two
/// that would, it is the smaller unless all words are zero. The field it goes to does not count.
pub proof fn checksum_completes_the_sum(header: Seq<u8>, i: int)
    requires
        12 <= header.len() <= 131076,
    ensures
        (word_sum(checksum_cleared(header)) + checksum_of(header)) % 65535 == 0,
        checksum_of(header) == 0xffff <==> word_sum(checksum_cleared(header)) == 0,
        checksum_cleared(header).len() == header.len(),
        0 <= i < header.len() ==> checksum_cleared(header)[i] == (if i == 10 || i == 11 {
            0
        } else {
            header[i]
        }),
{
    let bare: Seq<u8> = checksum_cleared(header);
    crate::ipv4::lemma_word_sum_update(bare, 10, 0xff, 0xff);
    crate::ipv4::lemma_word_sum_bound(bare.update(10, 0xff).update(11, 0xff));
    let sum: nat = word_sum(bare);
    assert(sum < 0x1_0000_0000);
    assert(sum % 0x1_0000_0000 == sum);
    if sum > 0 {
        vstd::arithmetic::div_mod::lemma_fundamental_div_mod(sum - 1, 65535);
        let q: int = (sum - 1) / 65535;
        assert(sum + checksum_of(header) == 65535 * q + 65535);
        assert(65535 * q + 65535 == 65535 * (q + 1));
        vstd::arithmetic::div_mod::lemma_mod_multiples_basic(q + 1, 65535);
    }
}

/// What the header of a packet says, by its bytes: a packet with the version 4 and twenty bytes, or with
/// the version 6 and forty, is an IP packet, and no other is.
pub proof fn headers_say_who_and_what(pkt: Seq<u8>)
    ensures
        pkt.len() >= 20 && pkt[0] >> 4 == 4 ==> meta_of(pkt) == Some(
            Meta {
                src: ipv4_chars(pkt[12], pkt[13], pkt[14], pkt[15]),
                dst: ipv4_chars(pkt[16], pkt[17], pkt[18], pkt[19]),
                version: "ipv4"@,
                proto: pkt[9],
            },
        ),
        pkt.len() >= 40 && pkt[0] >> 4 == 6 ==> meta_of(pkt) == Some(
            Meta {
                src: ipv6_chars(pkt.subrange(8, 24)),
                dst: ipv6_chars(pkt.subrange(24, 40)),
                version: "ipv6"@,
                proto: pkt[6],
            },
        ),
        meta_of(pkt) is Some ==> (pkt.len() >= 20 && pkt[0] >> 4 == 4) || (pkt.len() >= 40 && pkt[0]
            >> 4 == 6),
{
    if pkt.len() > 0 {
        let first: u8 = pkt[0];
        assert(first >> 4 == first / 16) by (bit_vector);
    }
}

/// An IPv6 packet that is longer than the MTU is reported, and no other packet is.
pub proof fn long_ipv6_packets_are_reported(pkt: Seq<u8>, mtu: int)
    ensures
        is_oversized_ipv6(pkt, mtu) <==> pkt.len() >= 40 && pkt[0] >> 4 == 6 && pkt.len() > mtu,
{
    if pkt.len() > 0 {
        let first: u8 = pkt[0];
        assert(first >> 4 == first / 16) by (bit_vector);
    }
}

/// The ports of an IPv4 packet, by its bytes: the first two words behind its header, where it is TCP or
/// UDP and not a later fragment and both are inside it.
pub proof fn ipv4_ports_by_bytes(pkt: Seq<u8>, src: u16, dst: u16)
    requires
        pkt.len() >= 20,
        pkt[0] >> 4 == 4,
    ensures
        ports_in(pkt) == Some((src, dst)) <==> {
            let ihl: int = 4 * (pkt[0] & 0x0f);
            &&& ihl >= 20
            &&& pkt[9] == 6 || pkt[9] == 17
            &&& pkt[6] & 0x1f == 0 && pkt[7] == 0
            &&& ihl + 4 <= pkt.len()
            &&& pkt[ihl] * 0x100 + pkt[ihl + 1] == src
            &&& pkt[ihl + 2] * 0x100 + pkt[ihl + 3] == dst
        },
{
    header_fields_by_bits(pkt);
    let first: u8 = pkt[0];
    assert(first >> 4 == first / 16) by (bit_vector);
}

/// The ports of an IPv6 packet, by its bytes: the first two words behind its extension headers, where
/// TCP or UDP follows them and both are inside it; and a packet that is not IP has none.
pub proof fn ipv6_ports_by_bytes(pkt: Seq<u8>, src: u16, dst: u16)
    ensures
        pkt.len() >= 40 && pkt[0] >> 4 == 6 ==> (ports_in(pkt) == Some((src, dst)) <==> (
        behind_extensions(pkt, pkt[6], 40) matches Some((proto, at)) && {
            &&& proto == 6 || proto == 17
            &&& at + 4 <= pkt.len()
            &&& pkt[at] * 0x100 + pkt[at + 1] == src
            &&& pkt[at + 2] * 0x100 + pkt[at + 3] == dst
        })),
        !(pkt.len() >= 20 && pkt[0] >> 4 == 4) && !(pkt.len() >= 40 && pkt[0] >> 4 == 6) ==> ports_in(
            pkt,
        ) is None,
{
    if pkt.len() > 0 {
        let first: u8 = pkt[0];
        assert(first >> 4 == first / 16) by (bit_vector);
    }
    if pkt.len() >= 40 && pkt[0] >> 4 == 6 {
        lemma_behind(pkt, pkt[6], 40);
    }
}

proof fn lemma_behind(pkt: Seq<u8>, kind: u8, at: int)
    requires
        0 <= at <= pkt.len(),
    ensures
        behind_extensions(pkt, kind, at) matches Some((proto, end)) ==> at <= end <= pkt.len(),
    decreases pkt.len() - at,
{
    if let Some(len) = crate::routing::extension_len(pkt, kind, at) {
        if len >= 8 && at + len <= pkt.len() {
            lemma_behind(pkt, pkt[at], at + len);
        }
    }
}

/// Whether a number is the type of an IPv6 extension header.
pub open spec fn is_extension(kind: u8) -> bool {
    kind == 0 || kind == 43 || kind == 44 || kind == 51 || kind == 60 || kind == 135 || kind == 139
        || kind == 140
}

/// Extension headers are followed one by one, each by the length that it says, where it is inside the
/// packet; the fragment header of a fragment that is not the first ends the search; any other type is
/// the protocol.
pub proof fn extension_headers_are_followed(pkt: Seq<u8>, kind: u8, at: int)
    requires
        0 <= at,
    ensures
        !is_extension(kind) ==> behind_extensions(pkt, kind, at) == Some((kind, at)),
        is_extension(kind) && at + 8 > pkt.len() ==> behind_extensions(pkt, kind, at) is None,
        kind == 44 && at + 8 <= pkt.len() ==> behind_extensions(pkt, kind, at) == if pkt[at + 2] == 0
            && pkt[at + 3] < 8 {
            behind_extensions(pkt, pkt[at], at + 8)
        } else {
            None
        },
        is_extension(kind) && kind != 44 && at + 8 <= pkt.len() ==> {
            let end: int = at + 8 + (if kind == 51 {
                4 * pkt[at + 1]
            } else {
                8 * pkt[at + 1]
            });
            behind_extensions(pkt, kind, at) == if end <= pkt.len() {
                behind_extensions(pkt, pkt[at], end)
            } else {
                None
            }
        },
{
}

/// What one option of a header comes to in a later fragment: an option whose type has its highest bit set
/// stays, any other becomes as many no-operation bytes; a no-operation byte stays; what follows the end
/// of the list, or an option that is not inside the area, stays as it is.
pub proof fn options_go_by_their_highest_bit(area: Seq<u8>)
    ensures
        area.len() == 0 ==> later_options(area) == area,
        area.len() > 0 && area[0] == 0 ==> later_options(area) == area,
        area.len() > 0 && area[0] == 1 ==> later_options(area) == seq![1u8] + later_options(
            area.skip(1),
        ),
        area.len() > 0 && area[0] > 1 && (area.len() < 2 || area[1] < 2 || area[1] > area.len())
            ==> later_options(area) == area,
        area.len() >= 2 && area[0] > 1 && 2 <= area[1] <= area.len() ==> later_options(area) == (
        if area[0] & 0x80 != 0 {
            area.take(area[1] as int)
        } else {
            Seq::new(area[1] as nat, |i: int| 1u8)
        }) + later_options(area.skip(area[1] as int)),
{
    if area.len() > 0 {
        let kind: u8 = area[0];
        assert((kind & 0x80 != 0) == (kind >= 128)) by (bit_vector);
    }
}

/// A fragment of a packet has a valid header: its words sum to a multiple of 65535, and not to zero.
pub proof fn fragments_have_valid_headers(pkt: Seq<u8>, mtu: int, respect_df: bool, k: int)
    requires
        must_fragment(pkt, mtu, respect_df),
        0 <= k < fragments_of(pkt, mtu).len(),
    ensures
        ({
            let head: Seq<u8> = fragments_of(pkt, mtu)[k].take(header_len(pkt));
            word_sum(head) % 65535 == 0 && word_sum(head) > 0
        }),
{
    fragment_is_well_formed(pkt, mtu, respect_df, k);
    let f: Seq<u8> = fragments_of(pkt, mtu)[k];
    let head: Seq<u8> = f.take(header_len(pkt));
    assert(head =~= f.subrange(0, header_len(pkt)));
    let sum: nat = word_sum(head);
    assert(sum > 0);
    vstd::arithmetic::div_mod::lemma_fundamental_div_mod(sum - 1, 65535);
    let q: int = (sum - 1) / 65535;
    assert(sum == 65535 * (q + 1));
    vstd::arithmetic::div_mod::lemma_mod_multiples_basic(q + 1, 65535);
}

/// A packet without more than the least header is written as it is.
pub proof fn short_packets_stay_whole(pkt: Seq<u8>, mtu: int, respect_df: bool)
    requires
        pkt.len() <= 20,
    ensures
        !must_fragment(pkt, mtu, respect_df),
        writes_of(pkt, mtu, respect_df) == seq![pkt],
{
}

} // verus!
