//! Multiaddresses: which of them can be dialled directly, and their canonical form.

use vstd::prelude::*;
use vstd::string::*;

use crate::collections::Ident;
use crate::text::{push_ipv4, push_number};
#[allow(unused_imports)]
use crate::text::{decimal, ipv4_chars};
use crate::wire::{copy_bytes, same_bytes};

verus! {

/// An IPv4 address as its four octets.
#[derive(Debug, Clone, Copy, PartialEq, Eq, Structural)]
pub struct Ipv4Addr {
    pub a: u8,
    pub b: u8,
    pub c: u8,
    pub d: u8,
}

impl Ipv4Addr {
    /// The address as a number, first octet first.
    pub open spec fn number(&self) -> int {
        crate::wire::be32(self.a, self.b, self.c, self.d)
    }

    /// The address in dotted decimal.
    pub open spec fn chars(&self) -> Seq<char> {
        ipv4_chars(self.a, self.b, self.c, self.d)
    }

    /// The address with the given number.
    pub fn from_u32(n: u32) -> (ip: Ipv4Addr)
        ensures
            ip == ipv4_at(n as int),
            ip.number() == n,
    {
        Ipv4Addr {
            a: (n / 0x100_0000) as u8,
            b: (n / 0x1_0000 % 256) as u8,
            c: (n / 256 % 256) as u8,
            d: (n % 256) as u8,
        }
    }

    /// The number of this address.
    pub fn to_u32(&self) -> (n: u32)
        ensures
            n == self.number(),
    {
        crate::wire::read_be32(self.a, self.b, self.c, self.d)
    }

    /// This address in dotted decimal.
    pub fn text(&self) -> (s: String)
        ensures
            s@ == self.chars(),
    {
        crate::text::ipv4_text(self.a, self.b, self.c, self.d)
    }
}

/// The address with the given number.
pub open spec fn ipv4_at(n: int) -> Ipv4Addr {
    Ipv4Addr {
        a: (n / 0x100_0000) as u8,
        b: (n / 0x1_0000 % 256) as u8,
        c: (n / 256 % 256) as u8,
        d: (n % 256) as u8,
    }
}

/// One component of a multiaddress. The components that no rule reads are kept as their encoding.
#[derive(Debug, Clone)]
pub enum Protocol {
    Ip4(Ipv4Addr),
    Udp(u16),
    QuicV1,
    P2pCircuit,
    Other(Vec<u8>),
}

/// What a [`Protocol`] is.
pub enum Proto {
    Ip4(Ipv4Addr),
    Udp(u16),
    QuicV1,
    P2pCircuit,
    Other(Seq<u8>),
}

impl View for Protocol {
    type V = Proto;

    open spec fn view(&self) -> Proto {
        match self {
            Protocol::Ip4(ip) => Proto::Ip4(*ip),
            Protocol::Udp(port) => Proto::Udp(*port),
            Protocol::QuicV1 => Proto::QuicV1,
            Protocol::P2pCircuit => Proto::P2pCircuit,
            Protocol::Other(bytes) => Proto::Other(bytes@),
        }
    }
}

impl Ident for Protocol {
    fn same(&self, other: &Self) -> (r: bool) {
        match (self, other) {
            (Protocol::Ip4(x), Protocol::Ip4(y)) => *x == *y,
            (Protocol::Udp(x), Protocol::Udp(y)) => *x == *y,
            (Protocol::QuicV1, Protocol::QuicV1) => true,
            (Protocol::P2pCircuit, Protocol::P2pCircuit) => true,
            (Protocol::Other(x), Protocol::Other(y)) => same_bytes(x.as_slice(), y.as_slice()),
            _ => false,
        }
    }

    fn dup(&self) -> (r: Self) {
        match self {
            Protocol::Ip4(ip) => Protocol::Ip4(*ip),
            Protocol::Udp(port) => Protocol::Udp(*port),
            Protocol::QuicV1 => Protocol::QuicV1,
            Protocol::P2pCircuit => Protocol::P2pCircuit,
            Protocol::Other(bytes) => Protocol::Other(copy_bytes(bytes.as_slice())),
        }
    }
}

/// A multiaddress: its components in order.
#[derive(Debug, Clone)]
pub struct Multiaddr {
    pub parts: Vec<Protocol>,
}

impl View for Multiaddr {
    type V = Seq<Proto>;

    open spec fn view(&self) -> Seq<Proto> {
        Seq::new(self.parts@.len(), |i: int| self.parts@[i]@)
    }
}

impl Ident for Multiaddr {
    fn same(&self, other: &Self) -> (r: bool) {
        if self.parts.len() != other.parts.len() {
            assert(self@.len() != other@.len());
            return false;
        }
        let mut i: usize = 0;
        while i < self.parts.len()
            invariant
                i <= self.parts@.len(),
                self.parts@.len() == other.parts@.len(),
                forall|j: int| 0 <= j < i ==> #[trigger] self@[j] == other@[j],
            decreases self.parts@.len() - i,
        {
            if !self.parts[i].same(&other.parts[i]) {
                assert(self@[i as int] != other@[i as int]);
                return false;
            }
            i += 1;
        }
        assert(self@ =~= other@);
        true
    }

    fn dup(&self) -> (r: Self) {
        let mut parts: Vec<Protocol> = Vec::new();
        let mut i: usize = 0;
        while i < self.parts.len()
            invariant
                i <= self.parts@.len(),
                parts@.len() == i,
                forall|j: int| 0 <= j < i ==> #[trigger] parts@[j]@ == self@[j],
            decreases self.parts@.len() - i,
        {
            parts.push(self.parts[i].dup());
            i += 1;
        }
        let r: Multiaddr = Multiaddr { parts };
        assert(r@ =~= self@);
        r
    }
}

/// The address `/ip4/<ip>/udp/<port>/quic-v1`.
pub open spec fn udp_quic(ip: Ipv4Addr, port: u16) -> Seq<Proto> {
    seq![Proto::Ip4(ip), Proto::Udp(port), Proto::QuicV1]
}

/// The text of that address.
pub open spec fn udp_quic_chars(ip: Ipv4Addr, port: u16) -> Seq<char> {
    "/ip4/"@ + ip.chars() + "/udp/"@ + decimal(port as nat) + "/quic-v1"@
}

/// Whether an address goes through a relay.
pub open spec fn is_circuit(addr: Seq<Proto>) -> bool {
    addr.contains(Proto::P2pCircuit)
}

/// The last IPv4 component of an address.
pub open spec fn last_ip4(addr: Seq<Proto>) -> Option<Ipv4Addr>
    decreases addr.len(),
{
    if addr.len() == 0 {
        None
    } else {
        match addr.last() {
            Proto::Ip4(ip) => Some(ip),
            _ => last_ip4(addr.drop_last()),
        }
    }
}

/// The last UDP port of an address.
pub open spec fn last_udp(addr: Seq<Proto>) -> Option<u16>
    decreases addr.len(),
{
    if addr.len() == 0 {
        None
    } else {
        match addr.last() {
            Proto::Udp(port) => Some(port),
            _ => last_udp(addr.drop_last()),
        }
    }
}

/// The components in front of the first QUIC component, or all of them where there is none.
pub open spec fn before_quic(addr: Seq<Proto>) -> Seq<Proto> {
    match addr.index_of_first(Proto::QuicV1) {
        Some(i) => addr.take(i),
        None => addr,
    }
}

/// Whether an address is in a network that is set aside: private, shared, loopback, link-local,
/// documentation and benchmarking networks, multicast and above.
pub open spec fn is_set_aside(ip: Ipv4Addr) -> bool {
    ||| ip.a == 0
    ||| ip.a == 10
    ||| (ip.a == 100 && 64 <= ip.b <= 127)
    ||| ip.a == 127
    ||| (ip.a == 169 && ip.b == 254)
    ||| (ip.a == 172 && 16 <= ip.b <= 31)
    ||| (ip.a == 192 && ip.b == 0 && (ip.c == 0 || ip.c == 2))
    ||| (ip.a == 192 && ip.b == 168)
    ||| (ip.a == 198 && (ip.b == 18 || ip.b == 19))
    ||| (ip.a == 198 && ip.b == 51 && ip.c == 100)
    ||| (ip.a == 203 && ip.b == 0 && ip.c == 113)
    ||| ip.a >= 224
}

/// Whether an address is a public IPv4 UDP address with QUIC that needs no relay.
pub open spec fn is_public_quic(addr: Seq<Proto>) -> bool {
    &&& !is_circuit(addr)
    &&& last_udp(addr) is Some
    &&& addr.contains(Proto::QuicV1)
    &&& last_ip4(addr) matches Some(ip)
    &&& !is_set_aside(ip)
}

/// The IPv4 address and UDP port in front of the QUIC component.
pub open spec fn endpoint_of(addr: Seq<Proto>) -> Option<(Ipv4Addr, u16)> {
    match (last_ip4(before_quic(addr)), last_udp(before_quic(addr))) {
        (Some(ip), Some(port)) => Some((ip, port)),
        _ => None,
    }
}

/// The address reduced to its UDP endpoint with QUIC.
pub open spec fn canonical_of(addr: Seq<Proto>) -> Option<Seq<Proto>> {
    match endpoint_of(addr) {
        Some((ip, port)) => Some(udp_quic(ip, port)),
        None => None,
    }
}

/// Whether an IPv4 address can be reached on the public Internet.
pub fn is_public_ipv4(ip: Ipv4Addr) -> (r: bool)
    ensures
        r == !is_set_aside(ip),
{
    let a: u8 = ip.a;
    let b: u8 = ip.b;
    let c: u8 = ip.c;
    if a == 0 || a == 10 || (a == 100 && 64 <= b && b <= 127) || a == 127 || (a == 169 && b == 254)
        || (a == 172 && 16 <= b && b <= 31) || (a == 192 && b == 0 && (c == 0 || c == 2)) || (a
        == 192 && b == 168) || (a == 198 && (b == 18 || b == 19)) || (a == 198 && b == 51 && c
        == 100) || (a == 203 && b == 0 && c == 113) || a >= 224 {
        return false;
    }
    true
}

proof fn lemma_prefix_step(addr: Seq<Proto>, i: int)
    requires
        0 <= i < addr.len(),
    ensures
        addr.take(i + 1).drop_last() == addr.take(i),
        addr.take(i + 1).last() == addr[i],
        forall|p: Proto|
            #[trigger] addr.take(i + 1).contains(p) <==> addr.take(i).contains(p) || addr[i] == p,
{
    assert(addr.take(i + 1).drop_last() =~= addr.take(i));
    assert forall|p: Proto| #[trigger]
        addr.take(i + 1).contains(p) <==> addr.take(i).contains(p) || addr[i] == p by {
        let longer: Seq<Proto> = addr.take(i + 1);
        if longer.contains(p) {
            let j: int = choose|j: int| 0 <= j < longer.len() && longer[j] == p;
            if j < i {
                assert(addr.take(i)[j] == p);
            }
        }
        if addr.take(i).contains(p) {
            let j: int = choose|j: int| 0 <= j < i && addr.take(i)[j] == p;
            assert(longer[j] == p);
        }
        if addr[i] == p {
            assert(longer[i] == p);
        }
    }
}

/// Whether an address goes through a relay.
pub fn goes_through_relay(addr: &Multiaddr) -> (r: bool)
    ensures
        r == is_circuit(addr@),
{
    let ghost v: Seq<Proto> = addr@;
    let mut i: usize = 0;
    while i < addr.parts.len()
        invariant
            v == addr@,
            i <= addr.parts@.len(),
            forall|j: int| 0 <= j < i ==> #[trigger] v[j] != Proto::P2pCircuit,
        decreases addr.parts@.len() - i,
    {
        assert(v[i as int] == addr.parts@[i as int]@);
        if let Protocol::P2pCircuit = &addr.parts[i] {
            return true;
        }
        i += 1;
    }
    false
}

/// Whether an address is a public IPv4 UDP address with QUIC that needs no relay.
pub fn is_public_udp_quic(addr: &Multiaddr) -> (r: bool)
    ensures
        r == is_public_quic(addr@),
{
    let ghost v: Seq<Proto> = addr@;
    let mut ip4: Option<Ipv4Addr> = None;
    let mut udp: bool = false;
    let mut quic: bool = false;
    let mut i: usize = 0;
    while i < addr.parts.len()
        invariant
            v == addr@,
            v.len() == addr.parts@.len(),
            i <= v.len(),
            ip4 == last_ip4(v.take(i as int)),
            udp == last_udp(v.take(i as int)) is Some,
            quic == v.take(i as int).contains(Proto::QuicV1),
            !is_circuit(v.take(i as int)),
        decreases addr.parts@.len() - i,
    {
        proof {
            lemma_prefix_step(v, i as int);
            assert(v[i as int] == addr.parts@[i as int]@);
        }
        match &addr.parts[i] {
            Protocol::Ip4(ip) => {
                ip4 = Some(*ip);
            },
            Protocol::Udp(_) => {
                udp = true;
            },
            Protocol::QuicV1 => {
                quic = true;
            },
            Protocol::P2pCircuit => {
                assert(v[i as int] == Proto::P2pCircuit);
                return false;
            },
            Protocol::Other(_) => {},
        }
        i += 1;
    }
    assert(v.take(i as int) =~= v);
    match ip4 {
        Some(ip) => if udp && quic {
            is_public_ipv4(ip)
        } else {
            false
        },
        None => false,
    }
}

/// The IPv4 address and UDP port of an address, read up to its QUIC component.
pub fn udp_ip_port(addr: &Multiaddr) -> (r: Option<(Ipv4Addr, u16)>)
    ensures
        r == endpoint_of(addr@),
{
    let ghost v: Seq<Proto> = addr@;
    let mut ip: Option<Ipv4Addr> = None;
    let mut port: Option<u16> = None;
    let mut i: usize = 0;
    let mut done: bool = false;
    proof {
        v.index_of_first_ensures(Proto::QuicV1);
    }
    while i < addr.parts.len() && !done
        invariant
            v == addr@,
            v.len() == addr.parts@.len(),
            i <= v.len(),
            ip == last_ip4(v.take(i as int)),
            port == last_udp(v.take(i as int)),
            forall|j: int| 0 <= j < i ==> #[trigger] v[j] != Proto::QuicV1,
            done ==> i < v.len() && v[i as int] == Proto::QuicV1,
        decreases addr.parts@.len() - i + (if done {
            0int
        } else {
            1
        }),
    {
        proof {
            lemma_prefix_step(v, i as int);
            assert(v[i as int] == addr.parts@[i as int]@);
        }
        match &addr.parts[i] {
            Protocol::Ip4(a) => {
                ip = Some(*a);
                i += 1;
            },
            Protocol::Udp(p) => {
                port = Some(*p);
                i += 1;
            },
            Protocol::QuicV1 => {
                done = true;
            },
            _ => {
                i += 1;
            },
        }
    }
    proof {
        if done {
            assert(v.contains(Proto::QuicV1));
            assert(v.index_of_first(Proto::QuicV1) == Some(i as int));
        } else {
            assert(!v.contains(Proto::QuicV1));
            assert(v.take(i as int) =~= v);
        }
    }
    match (ip, port) {
        (Some(a), Some(p)) => Some((a, p)),
        _ => None,
    }
}

/// What `libp2p::Multiaddr::from_str` reads from `text`, component by component.
pub uninterp spec fn parsed_multiaddr(text: Seq<char>) -> Option<Seq<Proto>>;

/// The text that `libp2p::Multiaddr` has for an address whose components are well encoded.
pub uninterp spec fn multiaddr_chars(addr: Seq<Proto>) -> Option<Seq<char>>;

/// Calls `libp2p::Multiaddr::from_str` and hands out the components. Claimed: they are a function of
/// the text, and the text of an IPv4 UDP endpoint with QUIC parses to its three components.
#[verifier::external_body]
fn multiaddr_from_str(text: &str) -> (addr: Option<Multiaddr>)
    ensures
        addr is Some == parsed_multiaddr(text@) is Some,
        addr matches Some(a) ==> parsed_multiaddr(text@) == Some(a@),
        forall|ip: Ipv4Addr, port: u16|
            text@ == #[trigger] udp_quic_chars(ip, port) ==> addr is Some && addr->0@ == udp_quic(
                ip,
                port,
            ),
{
    let parsed = match text.parse::<libp2p::Multiaddr>() {
        Ok(m) => m,
        Err(_) => return None,
    };
    let parts = parsed.iter().map(|p| match p {
        libp2p::multiaddr::Protocol::Ip4(ip) => Protocol::Ip4(
            Ipv4Addr { a: ip.octets()[0], b: ip.octets()[1], c: ip.octets()[2], d: ip.octets()[3] },
        ),
        libp2p::multiaddr::Protocol::Udp(port) => Protocol::Udp(port),
        libp2p::multiaddr::Protocol::QuicV1 => Protocol::QuicV1,
        libp2p::multiaddr::Protocol::P2pCircuit => Protocol::P2pCircuit,
        other => Protocol::Other(libp2p::Multiaddr::from(other).to_vec()),
    });
    Some(Multiaddr { parts: parts.collect() })
}

/// Calls `to_string` of the `libp2p::Multiaddr` with the given components; `None` where a component
/// does not decode. Claimed: the text is a function of the components; that of an IPv4 UDP endpoint
/// with QUIC is its canonical text, and parsing it gives the components back.
#[verifier::external_body]
fn multiaddr_to_string(addr: &Multiaddr) -> (text: Option<String>)
    ensures
        text is Some == multiaddr_chars(addr@) is Some,
        text matches Some(s) ==> multiaddr_chars(addr@) == Some(s@),
        forall|ip: Ipv4Addr, port: u16|
            addr@ == #[trigger] udp_quic(ip, port) ==> text is Some && text->0@ == udp_quic_chars(
                ip,
                port,
            ) && parsed_multiaddr(text->0@) == Some(addr@),
{
    let mut m = libp2p::Multiaddr::empty();
    for part in addr.parts.iter() {
        m.push(match part {
            Protocol::Ip4(ip) => libp2p::multiaddr::Protocol::Ip4([ip.a, ip.b, ip.c, ip.d].into()),
            Protocol::Udp(port) => libp2p::multiaddr::Protocol::Udp(*port),
            Protocol::QuicV1 => libp2p::multiaddr::Protocol::QuicV1,
            Protocol::P2pCircuit => libp2p::multiaddr::Protocol::P2pCircuit,
            Protocol::Other(bytes) => libp2p::multiaddr::Protocol::from_bytes(bytes).ok()?.0,
        });
    }
    Some(m.to_string())
}

impl Multiaddr {
    /// The address that `text` writes, if it writes one.
    pub fn parse(text: &str) -> (addr: Option<Multiaddr>)
        ensures
            addr is Some == parsed_multiaddr(text@) is Some,
            addr matches Some(a) ==> parsed_multiaddr(text@) == Some(a@),
            forall|ip: Ipv4Addr, port: u16|
                text@ == #[trigger] udp_quic_chars(ip, port) ==> addr is Some && addr->0@
                    == udp_quic(ip, port),
    {
        multiaddr_from_str(text)
    }

    /// The text of this address; `None` where a component does not decode.
    pub fn text(&self) -> (text: Option<String>)
        ensures
            text is Some == multiaddr_chars(self@) is Some,
            text matches Some(s) ==> multiaddr_chars(self@) == Some(s@),
            forall|ip: Ipv4Addr, port: u16|
                self@ == #[trigger] udp_quic(ip, port) ==> text is Some && text->0@
                    == udp_quic_chars(ip, port) && parsed_multiaddr(text->0@) == Some(self@),
    {
        multiaddr_to_string(self)
    }
}

/// The text `/ip4/<ip>/udp/<port>/quic-v1`.
pub fn udp_quic_text(ip: Ipv4Addr, port: u16) -> (s: String)
    ensures
        s@ == udp_quic_chars(ip, port),
{
    let mut s: String = String::new();
    s.append("/ip4/");
    push_ipv4(&mut s, ip.a, ip.b, ip.c, ip.d);
    s.append("/udp/");
    push_number(&mut s, port as u64, 10);
    s.append("/quic-v1");
    assert(s@ =~= udp_quic_chars(ip, port));
    s
}

/// The address on which a node listens for QUIC: any interface, the given port, `0` for any.
pub fn listen_address(port: u16) -> (addr: Multiaddr)
    ensures
        addr@ == udp_quic(Ipv4Addr { a: 0, b: 0, c: 0, d: 0 }, port),
{
    let any: Ipv4Addr = Ipv4Addr { a: 0, b: 0, c: 0, d: 0 };
    let text: String = udp_quic_text(any, port);
    match Multiaddr::parse(text.as_str()) {
        Some(addr) => addr,
        None => vstd::pervasive::unreached(),
    }
}

/// Reduces an address to `/ip4/<ip>/udp/<port>/quic-v1`, dropping what follows, such as a peer.
pub fn rebuild_udp_quic(addr: &Multiaddr) -> (r: Option<Multiaddr>)
    ensures
        r is Some == canonical_of(addr@) is Some,
        r matches Some(a) ==> canonical_of(addr@) == Some(a@),
{
    match udp_ip_port(addr) {
        Some((ip, port)) => {
            let text: String = udp_quic_text(ip, port);
            Multiaddr::parse(text.as_str())
        },
        None => None,
    }
}

proof fn lemma_endpoint_parts(ip: Ipv4Addr, port: u16)
    ensures
        last_ip4(udp_quic(ip, port)) == Some(ip),
        last_udp(udp_quic(ip, port)) == Some(port),
        udp_quic(ip, port).contains(Proto::QuicV1),
        !is_circuit(udp_quic(ip, port)),
        before_quic(udp_quic(ip, port)) == seq![Proto::Ip4(ip), Proto::Udp(port)],
        last_ip4(before_quic(udp_quic(ip, port))) == Some(ip),
        last_udp(before_quic(udp_quic(ip, port))) == Some(port),
{
    let v: Seq<Proto> = udp_quic(ip, port);
    reveal_with_fuel(last_ip4, 4);
    reveal_with_fuel(last_udp, 4);
    assert(v[2] == Proto::QuicV1);
    assert(v.drop_last() =~= seq![Proto::Ip4(ip), Proto::Udp(port)]);
    assert(v.drop_last().drop_last() =~= seq![Proto::Ip4(ip)]);
    v.index_of_first_ensures(Proto::QuicV1);
    assert(v.index_of_first(Proto::QuicV1) == Some(2int));
    assert(v.take(2) =~= seq![Proto::Ip4(ip), Proto::Udp(port)]);
}

/// The canonical form of an address is its own canonical form, never goes through a relay, and is
/// public exactly where its IPv4 address is.
pub proof fn canonical_form_is_stable(addr: Seq<Proto>)
    requires
        canonical_of(addr) is Some,
    ensures
        canonical_of(canonical_of(addr)->0) == canonical_of(addr),
        !is_circuit(canonical_of(addr)->0),
        endpoint_of(canonical_of(addr)->0) == endpoint_of(addr),
        endpoint_of(addr) matches Some((ip, port)) && is_public_quic(canonical_of(addr)->0)
            == !is_set_aside(ip),
{
    let (ip, port) = endpoint_of(addr)->0;
    lemma_endpoint_parts(ip, port);
}

/// An address through a relay is never taken for a public direct address.
pub proof fn circuit_is_never_public(addr: Seq<Proto>)
    requires
        is_circuit(addr),
    ensures
        !is_public_quic(addr),
{
}

/// Whether `ip` is in the network of `prefix` bits that starts at `base`.
pub open spec fn in_network(ip: Ipv4Addr, base: Ipv4Addr, prefix: nat) -> bool {
    let size: int = vstd::arithmetic::power2::pow2((32 - prefix) as nat) as int;
    ip.number() / size == base.number() / size
}

/// The networks whose addresses are not dialled: private, reserved, multicast.
pub open spec fn unrouted_networks() -> Seq<(Ipv4Addr, nat)> {
    seq![
        (Ipv4Addr { a: 0, b: 0, c: 0, d: 0 }, 8nat),
        (Ipv4Addr { a: 10, b: 0, c: 0, d: 0 }, 8nat),
        (Ipv4Addr { a: 100, b: 64, c: 0, d: 0 }, 10nat),
        (Ipv4Addr { a: 127, b: 0, c: 0, d: 0 }, 8nat),
        (Ipv4Addr { a: 169, b: 254, c: 0, d: 0 }, 16nat),
        (Ipv4Addr { a: 172, b: 16, c: 0, d: 0 }, 12nat),
        (Ipv4Addr { a: 192, b: 0, c: 0, d: 0 }, 24nat),
        (Ipv4Addr { a: 192, b: 0, c: 2, d: 0 }, 24nat),
        (Ipv4Addr { a: 192, b: 168, c: 0, d: 0 }, 16nat),
        (Ipv4Addr { a: 198, b: 18, c: 0, d: 0 }, 15nat),
        (Ipv4Addr { a: 198, b: 51, c: 100, d: 0 }, 24nat),
        (Ipv4Addr { a: 203, b: 0, c: 113, d: 0 }, 24nat),
        (Ipv4Addr { a: 224, b: 0, c: 0, d: 0 }, 4nat),
        (Ipv4Addr { a: 240, b: 0, c: 0, d: 0 }, 4nat),
    ]
}

/// Whether `ip` is in the `i`-th of these networks.
spec fn in_unrouted(ip: Ipv4Addr, i: int) -> bool {
    0 <= i < unrouted_networks().len() && in_network(
        ip,
        unrouted_networks()[i].0,
        unrouted_networks()[i].1,
    )
}

/// An address counts as not public exactly where it is in a private, reserved or multicast network.
pub proof fn set_aside_means_unrouted(ip: Ipv4Addr)
    ensures
        is_set_aside(ip) <==> exists|i: int|
            0 <= i < unrouted_networks().len() && in_network(
                ip,
                (#[trigger] unrouted_networks()[i]).0,
                unrouted_networks()[i].1,
            ),
{
    let nets: Seq<(Ipv4Addr, nat)> = unrouted_networks();
    assert forall|i: int| 0 <= i < nets.len() implies #[trigger] in_unrouted(ip, i)
        == shares_octets(ip, nets[i].0, nets[i].1) by {
        lemma_network_octets(ip, nets[i].0, nets[i].1);
    }
    if is_set_aside(ip) {
        assert(in_unrouted(ip, 0) || in_unrouted(ip, 1) || in_unrouted(ip, 2) || in_unrouted(ip, 3)
            || in_unrouted(ip, 4) || in_unrouted(ip, 5) || in_unrouted(ip, 6) || in_unrouted(ip, 7)
            || in_unrouted(ip, 8) || in_unrouted(ip, 9) || in_unrouted(ip, 10) || in_unrouted(
            ip,
            11,
        ) || in_unrouted(ip, 12) || in_unrouted(ip, 13));
        let i: int = choose|i: int| #[trigger] in_unrouted(ip, i);
        assert(in_network(ip, nets[i].0, nets[i].1));
    }
    assert forall|i: int|
        0 <= i < nets.len() && in_network(
            ip,
            (#[trigger] nets[i]).0,
            nets[i].1,
        ) implies is_set_aside(ip) by {
        assert(in_unrouted(ip, i));
        assert(shares_octets(ip, nets[i].0, nets[i].1));
    }
}

/// Whether the first `prefix` bits of two addresses are the same, octet by octet.
spec fn shares_octets(ip: Ipv4Addr, base: Ipv4Addr, prefix: nat) -> bool {
    if prefix == 4 {
        ip.a as int / 16 == base.a as int / 16
    } else if prefix == 8 {
        ip.a == base.a
    } else if prefix == 10 {
        ip.a == base.a && ip.b as int / 64 == base.b as int / 64
    } else if prefix == 12 {
        ip.a == base.a && ip.b as int / 16 == base.b as int / 16
    } else if prefix == 15 {
        ip.a == base.a && ip.b as int / 2 == base.b as int / 2
    } else if prefix == 16 {
        ip.a == base.a && ip.b == base.b
    } else {
        ip.a == base.a && ip.b == base.b && ip.c == base.c
    }
}

/// The leading octets of an address, and what a division by a multiple of `0x1_0000` leaves of them.
proof fn lemma_leading_octets(ip: Ipv4Addr, k: int)
    requires
        k > 0,
    ensures
        ip.number() / (0x1_0000 * k) == (ip.a * 256 + ip.b) / k,
{
    let n: int = ip.number();
    assert(n / 0x1_0000 == ip.a * 256 + ip.b);
    vstd::arithmetic::div_mod::lemma_div_denominator(n, 0x1_0000, k);
}

proof fn lemma_octet_quotients(a: int, b: int)
    requires
        0 <= a < 256,
        0 <= b < 256,
    ensures
        (a * 256 + b) / 0x1000 == a / 16,
        (a * 256 + b) / 0x100 == a,
        (a * 256 + b) / 0x40 == a * 4 + b / 64,
        (a * 256 + b) / 0x10 == a * 16 + b / 16,
        (a * 256 + b) / 2 == a * 128 + b / 2,
        (a * 256 + b) / 1 == a * 256 + b,
{
}

#[verifier::spinoff_prover]
proof fn lemma_network_octets(ip: Ipv4Addr, base: Ipv4Addr, prefix: nat)
    requires
        prefix == 4 || prefix == 8 || prefix == 10 || prefix == 12 || prefix == 15 || prefix == 16
            || prefix == 24,
    ensures
        in_network(ip, base, prefix) == shares_octets(ip, base, prefix),
{
    lemma_octet_quotients(ip.a as int, ip.b as int);
    lemma_octet_quotients(base.a as int, base.b as int);
    if prefix == 4 {
        assert(vstd::arithmetic::power2::pow2(28) == 0x1000_0000) by {
            vstd::arithmetic::power2::lemma2_to64();
        }
        lemma_leading_octets(ip, 0x1000);
        lemma_leading_octets(base, 0x1000);
    } else if prefix == 8 {
        assert(vstd::arithmetic::power2::pow2(24) == 0x100_0000) by {
            vstd::arithmetic::power2::lemma2_to64();
        }
        lemma_leading_octets(ip, 0x100);
        lemma_leading_octets(base, 0x100);
    } else if prefix == 10 {
        assert(vstd::arithmetic::power2::pow2(22) == 0x40_0000) by {
            vstd::arithmetic::power2::lemma2_to64();
        }
        lemma_leading_octets(ip, 0x40);
        lemma_leading_octets(base, 0x40);
    } else if prefix == 12 {
        assert(vstd::arithmetic::power2::pow2(20) == 0x10_0000) by {
            vstd::arithmetic::power2::lemma2_to64();
        }
        lemma_leading_octets(ip, 0x10);
        lemma_leading_octets(base, 0x10);
    } else if prefix == 15 {
        assert(vstd::arithmetic::power2::pow2(17) == 0x2_0000) by {
            vstd::arithmetic::power2::lemma2_to64();
        }
        lemma_leading_octets(ip, 2);
        lemma_leading_octets(base, 2);
    } else if prefix == 16 {
        assert(vstd::arithmetic::power2::pow2(16) == 0x1_0000) by {
            vstd::arithmetic::power2::lemma2_to64();
        }
        lemma_leading_octets(ip, 1);
        lemma_leading_octets(base, 1);
    } else {
        assert(vstd::arithmetic::power2::pow2(8) == 256) by {
            vstd::arithmetic::power2::lemma2_to64();
        }
        assert(ip.number() / 256 == (ip.a * 256 + ip.b) * 256 + ip.c);
        assert(base.number() / 256 == (base.a * 256 + base.b) * 256 + base.c);
    }
}

/// The address with a number has that number, its octets are the digits of the number to the base 256,
/// and no other address has it.
pub proof fn addresses_are_numbers(n: int, ip: Ipv4Addr)
    requires
        0 <= n < 0x1_0000_0000,
    ensures
        ipv4_at(n).number() == n,
        ip.number() == ip.a * 0x100_0000 + ip.b * 0x1_0000 + ip.c * 0x100 + ip.d,
        ip.number() == n ==> ip == ipv4_at(n),
{
}

/// Whether component `i` of an address is its last IPv4 component, and names `ip`.
pub open spec fn is_last_ip4(addr: Seq<Proto>, i: int, ip: Ipv4Addr) -> bool {
    0 <= i < addr.len() && addr[i] == Proto::Ip4(ip) && forall|j: int|
        i < j < addr.len() ==> !(#[trigger] addr[j] is Ip4)
}

/// Whether component `i` of an address is its last UDP component, and names `port`.
pub open spec fn is_last_udp(addr: Seq<Proto>, i: int, port: u16) -> bool {
    0 <= i < addr.len() && addr[i] == Proto::Udp(port) && forall|j: int|
        i < j < addr.len() ==> !(#[trigger] addr[j] is Udp)
}

/// Whether the first QUIC component of an address is at `q`, or there is none and `q` is its end.
pub open spec fn is_first_quic(addr: Seq<Proto>, q: int) -> bool {
    &&& 0 <= q <= addr.len()
    &&& forall|k: int| 0 <= k < q ==> #[trigger] addr[k] != Proto::QuicV1
    &&& q < addr.len() ==> addr[q] == Proto::QuicV1
}

proof fn lemma_last_parts(addr: Seq<Proto>, ip: Ipv4Addr, port: u16)
    ensures
        last_ip4(addr) == Some(ip) <==> exists|i: int| #[trigger] is_last_ip4(addr, i, ip),
        last_udp(addr) == Some(port) <==> exists|i: int| #[trigger] is_last_udp(addr, i, port),
        last_udp(addr) is Some <==> exists|i: int|
            0 <= i < addr.len() && #[trigger] addr[i] is Udp,
    decreases addr.len(),
{
    if addr.len() > 0 {
        let init: Seq<Proto> = addr.drop_last();
        let end: int = addr.len() - 1;
        lemma_last_parts(init, ip, port);
        if last_ip4(addr) == Some(ip) {
            if addr[end] is Ip4 {
                assert(is_last_ip4(addr, end, ip));
            } else {
                let i: int = choose|i: int| #[trigger] is_last_ip4(init, i, ip);
                assert forall|j: int| i < j < addr.len() implies !(#[trigger] addr[j] is Ip4) by {
                    if j < end {
                        assert(init[j] == addr[j]);
                    }
                }
                assert(is_last_ip4(addr, i, ip));
            }
        }
        if exists|i: int| #[trigger] is_last_ip4(addr, i, ip) {
            let i: int = choose|i: int| #[trigger] is_last_ip4(addr, i, ip);
            if i < end {
                assert(!(addr[end] is Ip4));
                assert forall|j: int| i < j < init.len() implies !(#[trigger] init[j] is Ip4) by {
                    assert(init[j] == addr[j]);
                }
                assert(is_last_ip4(init, i, ip));
            }
        }
        if last_udp(addr) == Some(port) {
            if addr[end] is Udp {
                assert(is_last_udp(addr, end, port));
            } else {
                let i: int = choose|i: int| #[trigger] is_last_udp(init, i, port);
                assert forall|j: int| i < j < addr.len() implies !(#[trigger] addr[j] is Udp) by {
                    if j < end {
                        assert(init[j] == addr[j]);
                    }
                }
                assert(is_last_udp(addr, i, port));
            }
        }
        if exists|i: int| #[trigger] is_last_udp(addr, i, port) {
            let i: int = choose|i: int| #[trigger] is_last_udp(addr, i, port);
            if i < end {
                assert(!(addr[end] is Udp));
                assert forall|j: int| i < j < init.len() implies !(#[trigger] init[j] is Udp) by {
                    assert(init[j] == addr[j]);
                }
                assert(is_last_udp(init, i, port));
            }
        }
        if last_udp(addr) is Some && !(addr[end] is Udp) {
            let i: int = choose|i: int| 0 <= i < init.len() && #[trigger] init[i] is Udp;
            assert(addr[i] is Udp);
        }
        if exists|i: int| 0 <= i < addr.len() && #[trigger] addr[i] is Udp {
            let i: int = choose|i: int| 0 <= i < addr.len() && #[trigger] addr[i] is Udp;
            if i < end {
                assert(init[i] is Udp);
            }
        }
    }
}

/// An address can be dialled directly exactly where no component is a relay circuit, some component is
/// UDP and some is QUIC, and its last IPv4 address is in none of the private, reserved and multicast
/// networks.
pub proof fn public_addresses_by_component(addr: Seq<Proto>)
    ensures
        is_public_quic(addr) <==> {
            &&& forall|i: int| 0 <= i < addr.len() ==> #[trigger] addr[i] != Proto::P2pCircuit
            &&& exists|i: int| 0 <= i < addr.len() && #[trigger] addr[i] is Udp
            &&& exists|i: int| 0 <= i < addr.len() && #[trigger] addr[i] == Proto::QuicV1
            &&& exists|i: int, ip: Ipv4Addr| #[trigger]
                is_last_ip4(addr, i, ip) && forall|n: int|
                    0 <= n < unrouted_networks().len() ==> !in_network(
                        ip,
                        (#[trigger] unrouted_networks()[n]).0,
                        unrouted_networks()[n].1,
                    )
        },
        is_circuit(addr) <==> exists|i: int|
            0 <= i < addr.len() && #[trigger] addr[i] == Proto::P2pCircuit,
{
    lemma_last_parts(addr, Ipv4Addr { a: 0, b: 0, c: 0, d: 0 }, 0);
    if is_public_quic(addr) {
        let ip: Ipv4Addr = last_ip4(addr)->0;
        lemma_last_parts(addr, ip, 0);
        set_aside_means_unrouted(ip);
        let i: int = choose|i: int| #[trigger] is_last_ip4(addr, i, ip);
        assert(is_last_ip4(addr, i, ip));
    }
    if exists|i: int, ip: Ipv4Addr| #[trigger]
        is_last_ip4(addr, i, ip) && forall|n: int|
            0 <= n < unrouted_networks().len() ==> !in_network(
                ip,
                (#[trigger] unrouted_networks()[n]).0,
                unrouted_networks()[n].1,
            ) {
        let (i, ip) = choose|i: int, ip: Ipv4Addr| #[trigger]
            is_last_ip4(addr, i, ip) && forall|n: int|
                0 <= n < unrouted_networks().len() ==> !in_network(
                    ip,
                    (#[trigger] unrouted_networks()[n]).0,
                    unrouted_networks()[n].1,
                );
        lemma_last_parts(addr, ip, 0);
        set_aside_means_unrouted(ip);
    }
}

/// The endpoint of an address is its last IPv4 address and its last UDP port in front of its first QUIC
/// component; and the canonical form is that endpoint with QUIC.
pub proof fn endpoint_is_in_front_of_quic(addr: Seq<Proto>, q: int, ip: Ipv4Addr, port: u16)
    requires
        is_first_quic(addr, q),
    ensures
        endpoint_of(addr) == Some((ip, port)) <==> {
            &&& exists|i: int| #[trigger] is_last_ip4(addr.take(q), i, ip)
            &&& exists|i: int| #[trigger] is_last_udp(addr.take(q), i, port)
        },
        canonical_of(addr) is Some <==> endpoint_of(addr) is Some,
        endpoint_of(addr) == Some((ip, port)) ==> canonical_of(addr) == Some(
            seq![Proto::Ip4(ip), Proto::Udp(port), Proto::QuicV1],
        ),
{
    addr.index_of_first_ensures(Proto::QuicV1);
    if q < addr.len() {
        assert(addr.contains(Proto::QuicV1));
        let at: int = addr.index_of_first(Proto::QuicV1)->0;
        assert(at == q);
    } else {
        assert(!addr.contains(Proto::QuicV1));
        assert(addr.take(q) =~= addr);
    }
    lemma_last_parts(addr.take(q), ip, port);
}

/// An endpoint is written as its address and its port in decimal, each under the name of its protocol.
pub proof fn endpoints_are_written_out(ip: Ipv4Addr, port: u16)
    ensures
        exists|number: Seq<char>| #[trigger]
            crate::text::writes_number(number, port as int) && udp_quic_chars(ip, port) == "/ip4/"@
                + ipv4_chars(ip.a, ip.b, ip.c, ip.d) + "/udp/"@ + number + "/quic-v1"@,
        udp_quic(ip, port) == seq![Proto::Ip4(ip), Proto::Udp(port), Proto::QuicV1],
{
    crate::text::decimal_writes_the_number(port as nat);
    assert(crate::text::writes_number(decimal(port as nat), port as int));
}

/// The networks that are not dialled, by address and prefix length.
pub proof fn unrouted_networks_by_number(ip: Ipv4Addr)
    ensures
        is_set_aside(ip) <==> {
            let n: int = ip.number();
            ||| n < 0x0100_0000
            ||| 0x0a00_0000 <= n < 0x0b00_0000
            ||| 0x6440_0000 <= n < 0x6480_0000
            ||| 0x7f00_0000 <= n < 0x8000_0000
            ||| 0xa9fe_0000 <= n < 0xa9ff_0000
            ||| 0xac10_0000 <= n < 0xac20_0000
            ||| 0xc000_0000 <= n < 0xc000_0100
            ||| 0xc000_0200 <= n < 0xc000_0300
            ||| 0xc0a8_0000 <= n < 0xc0a9_0000
            ||| 0xc612_0000 <= n < 0xc614_0000
            ||| 0xc633_6400 <= n < 0xc633_6500
            ||| 0xcb00_7100 <= n < 0xcb00_7200
            ||| 0xe000_0000 <= n
        },
{
}

/// What a component of an address stands for is what it says.
pub proof fn components_are_what_they_say(ip: Ipv4Addr, port: u16, bytes: Vec<u8>)
    ensures
        Protocol::Ip4(ip)@ == Proto::Ip4(ip),
        Protocol::Udp(port)@ == Proto::Udp(port),
        Protocol::QuicV1@ == Proto::QuicV1,
        Protocol::P2pCircuit@ == Proto::P2pCircuit,
        Protocol::Other(bytes)@ == Proto::Other(bytes@),
{
}

} // verus!
