//! Between the interface and the network: what a packet is, and how it is written to the interface.

use bytes::Bytes;
use vstd::prelude::*;
use vstd::slice::slice_subrange;
use vstd::string::*;

use crate::buffer::bytes_copy_from_slice;
#[allow(unused_imports)]
use crate::buffer::bytes_contents;
use crate::collections::KeySet;
use crate::ipv4::ipv4_fragment_if_needed;
#[allow(unused_imports)]
use crate::ipv4::{
    dont_fragment, fragment_is_well_formed, fragment_offset, fragments_carry_the_payload,
    fragments_of, header_len, ip_version, joined_payloads, must_fragment, payload_of,
};
#[allow(unused_imports)]
use crate::text::{ipv4_chars, ipv6_chars};
use crate::text::{ipv4_text, ipv6_text, same_text};
#[allow(unused_imports)]
use crate::wire::be16;
use crate::wire::read_be16;

verus! {

/// What the header of an IP packet says: the two addresses, the version (`ipv4` or `ipv6`), and the
/// protocol (of IPv6, the next header).
#[derive(Debug, Clone)]
pub struct PacketMeta {
    pub src: String,
    pub dst: String,
    pub version: &'static str,
    pub proto: u8,
}

/// What a [`PacketMeta`] holds.
pub struct Meta {
    pub src: Seq<char>,
    pub dst: Seq<char>,
    pub version: Seq<char>,
    pub proto: u8,
}

impl View for PacketMeta {
    type V = Meta;

    open spec fn view(&self) -> Meta {
        Meta { src: self.src@, dst: self.dst@, version: self.version@, proto: self.proto }
    }
}

/// Whether `pkt` is an IPv4 packet with a whole minimal header.
pub open spec fn is_ipv4(pkt: Seq<u8>) -> bool {
    pkt.len() >= 20 && ip_version(pkt) == 4
}

/// Whether `pkt` is an IPv6 packet with a whole header.
pub open spec fn is_ipv6(pkt: Seq<u8>) -> bool {
    pkt.len() >= 40 && ip_version(pkt) == 6
}

/// What the header of `pkt` says, if it is an IP packet.
pub open spec fn meta_of(pkt: Seq<u8>) -> Option<Meta> {
    if is_ipv4(pkt) {
        Some(
            Meta {
                src: ipv4_chars(pkt[12], pkt[13], pkt[14], pkt[15]),
                dst: ipv4_chars(pkt[16], pkt[17], pkt[18], pkt[19]),
                version: "ipv4"@,
                proto: pkt[9],
            },
        )
    } else if is_ipv6(pkt) {
        Some(
            Meta {
                src: ipv6_chars(pkt.subrange(8, 24)),
                dst: ipv6_chars(pkt.subrange(24, 40)),
                version: "ipv6"@,
                proto: pkt[6],
            },
        )
    } else {
        None
    }
}

/// What an optional [`PacketMeta`] holds.
pub open spec fn meta_view(meta: Option<PacketMeta>) -> Option<Meta> {
    match meta {
        Some(m) => Some(m@),
        None => None,
    }
}

/// What the header of `pkt` says. `None` for a packet that is not IP or too short for its header.
pub fn parse_ip_meta(pkt: &[u8]) -> (meta: Option<PacketMeta>)
    ensures
        meta_view(meta) == meta_of(pkt@),
{
    if pkt.len() < 20 {
        return None;
    }
    if pkt[0] / 16 == 4 {
        Some(
            PacketMeta {
                src: ipv4_text(pkt[12], pkt[13], pkt[14], pkt[15]),
                dst: ipv4_text(pkt[16], pkt[17], pkt[18], pkt[19]),
                version: "ipv4",
                proto: pkt[9],
            },
        )
    } else if pkt[0] / 16 == 6 && pkt.len() >= 40 {
        Some(
            PacketMeta {
                src: ipv6_text(slice_subrange(pkt, 8, 24)),
                dst: ipv6_text(slice_subrange(pkt, 24, 40)),
                version: "ipv6",
                proto: pkt[6],
            },
        )
    } else {
        None
    }
}

/// The length of the IPv6 extension header of type `kind` at position `at`, if that is the type of
/// one: an authentication header counts words of four bytes, a fragment header has eight bytes, the
/// others count words of eight.
pub open spec fn extension_len(pkt: Seq<u8>, kind: u8, at: int) -> Option<int> {
    if kind == 51 {
        Some((pkt[at + 1] + 2) * 4)
    } else if kind == 44 {
        Some(8)
    } else if kind == 0 || kind == 43 || kind == 60 || kind == 135 || kind == 139 || kind == 140 {
        Some((pkt[at + 1] + 1) * 8)
    } else {
        None
    }
}

/// The protocol behind the extension headers of an IPv6 packet from position `at` on, where the first
/// has type `kind`, and where its header starts. None behind a header that is not inside the packet,
/// and in a fragment that is not the first.
pub open spec fn behind_extensions(pkt: Seq<u8>, kind: u8, at: int) -> Option<(u8, int)>
    decreases pkt.len() - at,
{
    match extension_len(pkt, kind, at) {
        Some(len) => if len < 8 || at + 8 > pkt.len() || at + len > pkt.len() || (kind == 44
            && be16(pkt[at + 2], pkt[at + 3]) >= 8) {
            None
        } else {
            behind_extensions(pkt, pkt[at], at + len)
        },
        None => Some((kind, at)),
    }
}

/// The transport protocol of a packet and where its header starts: after an IPv4 header of at least
/// its twenty bytes, where the packet is no later fragment, or behind the IPv6 extension headers.
pub open spec fn transport_of(pkt: Seq<u8>) -> Option<(u8, int)> {
    if is_ipv4(pkt) && header_len(pkt) >= 20 && fragment_offset(pkt) == 0 {
        Some((pkt[9], header_len(pkt)))
    } else if is_ipv6(pkt) {
        behind_extensions(pkt, pkt[6], 40)
    } else {
        None
    }
}

/// The source and destination port of a TCP or UDP packet, where both are inside it.
pub open spec fn ports_in(pkt: Seq<u8>) -> Option<(u16, u16)> {
    match transport_of(pkt) {
        Some((proto, at)) => if (proto == 6 || proto == 17) && at + 4 <= pkt.len() {
            Some(
                (be16(pkt[at], pkt[at + 1]) as u16, be16(pkt[at + 2], pkt[at + 3]) as u16),
            )
        } else {
            None
        },
        None => None,
    }
}

/// The protocol behind the extension headers of an IPv6 packet.
fn skip_extensions(pkt: &[u8]) -> (found: Option<(u8, usize)>)
    requires
        is_ipv6(pkt@),
    ensures
        match found {
            Some((proto, at)) => behind_extensions(pkt@, pkt@[6], 40) == Some((proto, at as int)),
            None => behind_extensions(pkt@, pkt@[6], 40) is None,
        },
{
    let mut kind: u8 = pkt[6];
    let mut at: usize = 40;
    while kind == 51 || kind == 44 || kind == 0 || kind == 43 || kind == 60 || kind == 135 || kind
        == 139 || kind == 140
        invariant
            40 <= at <= pkt@.len(),
            behind_extensions(pkt@, kind, at as int) == behind_extensions(pkt@, pkt@[6], 40),
        decreases pkt@.len() - at,
    {
        if pkt.len() - at < 8 {
            return None;
        }
        let len: usize = if kind == 51 {
            (pkt[at + 1] as usize + 2) * 4
        } else if kind == 44 {
            8
        } else {
            (pkt[at + 1] as usize + 1) * 8
        };
        if pkt.len() - at < len {
            return None;
        }
        if kind == 44 && read_be16(pkt[at + 2], pkt[at + 3]) >= 8 {
            return None;
        }
        kind = pkt[at];
        at += len;
    }
    Some((kind, at))
}

/// The source and destination port of a TCP or UDP packet. `None` for other packets, for a packet
/// that ends before its ports, and for a fragment that is not the first.
pub fn ports_of(pkt: &[u8]) -> (p: Option<(u16, u16)>)
    ensures
        p == ports_in(pkt@),
{
    if pkt.len() < 20 {
        return None;
    }
    let transport: Option<(u8, usize)> = if pkt[0] / 16 == 4 {
        if pkt[0] % 16 >= 5 && pkt[6] % 32 == 0 && pkt[7] == 0 {
            Some((pkt[9], (pkt[0] % 16) as usize * 4))
        } else {
            None
        }
    } else if pkt[0] / 16 == 6 && pkt.len() >= 40 {
        skip_extensions(pkt)
    } else {
        None
    };
    match transport {
        Some((proto, start)) => if (proto == 6 || proto == 17) && start <= pkt.len() && pkt.len()
            - start >= 4 {
            Some(
                (
                    read_be16(pkt[start], pkt[start + 1]),
                    read_be16(pkt[start + 2], pkt[start + 3]),
                ),
            )
        } else {
            None
        },
        None => None,
    }
}

/// What becomes of one read from the interface.
#[derive(Debug)]
pub enum Uplink {
    /// The interface is closed.
    Closed,
    /// The packet goes to the network.
    Forward { packet: Bytes, meta: Option<PacketMeta>, ports: Option<(u16, u16)> },
}

/// What becomes of a read that put `n` bytes into `buf`: nothing more where it put none, else these
/// bytes go to the network, whether or not they are an IP packet.
pub fn uplink(buf: &[u8], n: usize) -> (u: Uplink)
    requires
        n <= buf@.len(),
    ensures
        match u {
            Uplink::Closed => n == 0,
            Uplink::Forward { packet, meta, ports } => n > 0 && bytes_contents(packet) == buf@.take(
                n as int,
            ) && meta_view(meta) == meta_of(buf@.take(n as int)) && ports == ports_in(
                buf@.take(n as int),
            ),
        },
{
    if n == 0 {
        return Uplink::Closed;
    }
    let pkt: &[u8] = slice_subrange(buf, 0, n);
    assert(pkt@ =~= buf@.take(n as int));
    Uplink::Forward {
        packet: bytes_copy_from_slice(pkt),
        meta: parse_ip_meta(pkt),
        ports: ports_of(pkt),
    }
}

/// What is written to the interface for one packet from the network: its fragments where it has to be
/// cut up, else the packet itself.
pub open spec fn writes_of(pkt: Seq<u8>, mtu: int, respect_df: bool) -> Seq<Seq<u8>> {
    if must_fragment(pkt, mtu, respect_df) {
        fragments_of(pkt, mtu)
    } else {
        seq![pkt]
    }
}

/// Whether `pkt` is an IPv6 packet that is too long for the interface.
pub open spec fn is_oversized_ipv6(pkt: Seq<u8>, mtu: int) -> bool {
    is_ipv6(pkt) && pkt.len() > mtu
}

/// How one packet from the network is written to the interface.
#[derive(Debug)]
pub struct Downlink {
    /// What its header says, if it is an IP packet.
    pub meta: Option<PacketMeta>,
    /// Its ports, if it is a TCP or UDP packet.
    pub ports: Option<(u16, u16)>,
    /// The fragments to write in its place, if it has to be cut up.
    pub fragments: Option<Vec<Vec<u8>>>,
    /// Whether it is an IPv6 packet that is too long for the interface.
    pub oversized: bool,
}

impl Downlink {
    /// What is written to the interface for `pkt`.
    pub open spec fn writes(&self, pkt: Seq<u8>) -> Seq<Seq<u8>> {
        match self.fragments {
            Some(list) => list@.map_values(|f: Vec<u8>| f@),
            None => seq![pkt],
        }
    }
}

/// How `pkt` is written to an interface with the given MTU.
pub fn downlink(pkt: &[u8], mtu: u16, respect_df: bool) -> (d: Downlink)
    ensures
        meta_view(d.meta) == meta_of(pkt@),
        d.ports == ports_in(pkt@),
        d.fragments is Some == must_fragment(pkt@, mtu as int, respect_df),
        d.writes(pkt@) == writes_of(pkt@, mtu as int, respect_df),
        d.oversized == is_oversized_ipv6(pkt@, mtu as int),
{
    let meta: Option<PacketMeta> = parse_ip_meta(pkt);
    let ports: Option<(u16, u16)> = ports_of(pkt);
    if pkt.len() >= 20 && pkt[0] / 16 == 4 {
        let fragments: Option<Vec<Vec<u8>>> = ipv4_fragment_if_needed(
            pkt,
            mtu as usize,
            respect_df,
        );
        Downlink { meta, ports, fragments, oversized: false }
    } else {
        let oversized: bool = pkt.len() >= 40 && pkt[0] / 16 == 6 && pkt.len() > mtu as usize;
        Downlink { meta, ports, fragments: None, oversized }
    }
}

/// The IPv4 hosts that have a route of their own.
pub struct HostRoutes {
    hosts: KeySet<String>,
}

impl View for HostRoutes {
    type V = Set<Seq<char>>;

    /// The hosts, as text.
    closed spec fn view(&self) -> Set<Seq<char>> {
        self.hosts@.to_set()
    }
}

impl HostRoutes {
    /// No host is recorded twice.
    pub closed spec fn wf(&self) -> bool {
        self.hosts.wf()
    }

    /// No host has a route.
    pub fn new() -> (r: HostRoutes)
        ensures
            r.wf(),
            r@ == Set::<Seq<char>>::empty(),
    {
        let r: HostRoutes = HostRoutes { hosts: KeySet::new() };
        assert(r@ =~= Set::<Seq<char>>::empty());
        r
    }

    /// Which host needs a route before a packet is written: the destination of an IPv4 packet, the
    /// first time that it is seen.
    pub fn note(&mut self, meta: &PacketMeta) -> (host: Option<String>)
        requires
            old(self).wf(),
        ensures
            final(self).wf(),
            match host {
                Some(h) => meta.version@ == "ipv4"@ && !old(self)@.contains(meta.dst@) && h@
                    == meta.dst@ && final(self)@ == old(self)@.insert(meta.dst@),
                None => (meta.version@ != "ipv4"@ || old(self)@.contains(meta.dst@)) && final(self)@
                    == old(self)@,
            },
    {
        if !same_text(meta.version, "ipv4") {
            return None;
        }
        let ghost before: Seq<Seq<char>> = self.hosts@;
        let added: bool = self.hosts.insert(meta.dst.clone());
        let ghost after: Seq<Seq<char>> = self.hosts@;
        proof {
            if added {
                assert(after.to_set() =~= before.to_set().insert(meta.dst@)) by {
                    assert(after == before.push(meta.dst@));
                    assert forall|h: Seq<char>|
                        before.to_set().insert(meta.dst@).contains(h) implies after.to_set().contains(
                        h,
                    ) by {
                        if h == meta.dst@ {
                            assert(after[before.len() as int] == h);
                        } else {
                            let i: int = choose|i: int| 0 <= i < before.len() && before[i] == h;
                            assert(after[i] == h);
                        }
                    }
                }
            }
        }
        if added {
            Some(meta.dst.clone())
        } else {
            None
        }
    }
}

/// What is written for an IPv4 packet that may be cut up fits the interface and carries the whole
/// payload of the packet, wherever the MTU leaves room for eight bytes after the header.
pub proof fn written_packets_fit(pkt: Seq<u8>, mtu: int, respect_df: bool, k: int)
    requires
        is_ipv4(pkt),
        20 <= header_len(pkt) <= pkt.len(),
        pkt.len() > mtu,
        mtu >= header_len(pkt) + 8,
        crate::ipv4::total_len(pkt) > header_len(pkt),
        !(dont_fragment(pkt) && respect_df),
        0 <= k < writes_of(pkt, mtu, respect_df).len(),
    ensures
        writes_of(pkt, mtu, respect_df)[k].len() <= mtu,
        joined_payloads(writes_of(pkt, mtu, respect_df)) == payload_of(pkt),
{
    fragment_is_well_formed(pkt, mtu, respect_df, k);
    fragments_carry_the_payload(pkt, mtu, respect_df);
}

/// A packet is written as it is where it fits, where it is not IPv4, and where its sender forbids to
/// cut it up and that is respected.
pub proof fn other_packets_stay_whole(pkt: Seq<u8>, mtu: int, respect_df: bool)
    requires
        pkt.len() <= mtu || ip_version(pkt) != 4 || (respect_df && dont_fragment(pkt)),
    ensures
        writes_of(pkt, mtu, respect_df) == seq![pkt],
{
}

} // verus!
