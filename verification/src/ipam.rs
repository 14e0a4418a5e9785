//! Virtual addresses: each peer gets one from the virtual network, derived from its identifier.

use vstd::arithmetic::power2::pow2;
use vstd::prelude::*;
use vstd::string::*;

use crate::addr::Ipv4Addr;
use crate::peer::PeerId;
use crate::text::{push_ipv4, push_number};
#[allow(unused_imports)]
use crate::text::{decimal, ipv4_chars};

verus! {

/// An IPv4 network, or an address in it: an address as a number and the length of the prefix.
#[derive(Debug, Clone, Copy, PartialEq, Eq, Structural)]
pub struct Ipv4Net {
    pub addr: u32,
    pub prefix: u8,
}

/// How many addresses a network with the given prefix has.
pub open spec fn network_size(prefix: u8) -> int {
    pow2((32 - prefix) as nat) as int
}

impl Ipv4Net {
    /// The prefix is one of an IPv4 network.
    pub open spec fn wf(&self) -> bool {
        self.prefix <= 32
    }

    /// The lowest address of the network.
    pub open spec fn first(&self) -> int {
        self.addr as int / network_size(self.prefix) * network_size(self.prefix)
    }

    /// The mask of the network: its prefix in ones.
    pub open spec fn netmask(&self) -> int {
        0x1_0000_0000 - network_size(self.prefix)
    }

    /// The highest address of the network.
    pub open spec fn last(&self) -> int {
        self.first() + network_size(self.prefix) - 1
    }
}

/// Why no address could be derived.
#[derive(Debug)]
pub enum IpamError {
    /// The network does not parse, for the given reason.
    InvalidCidr(String),
    /// The network has no room for hosts.
    TooSmall,
}

/// What `ipnetwork::Ipv4Network::from_str` makes of `text`: the address and the prefix length, or
/// the text of the error.
pub uninterp spec fn parsed_network(text: Seq<char>) -> Result<(u32, u8), Seq<char>>;

/// The hash that `xxhash_rust::xxh3::xxh3_64` gives.
pub uninterp spec fn xxh3_64_of(data: Seq<u8>) -> u64;

/// An address with its prefix length, as in `10.99.0.42/16`.
pub open spec fn cidr_chars(addr: Ipv4Addr, prefix: u8) -> Seq<char> {
    addr.chars() + "/"@ + decimal(prefix as nat)
}

/// Calls `ipnetwork::Ipv4Network::from_str`. Claimed: its outcome is a function of the text, a prefix
/// has at most 32 bits, and an address written with its prefix length parses to these two.
#[verifier::external_body]
fn network_from_str(text: &str) -> (net: Result<(u32, u8), String>)
    ensures
        match net {
            Ok(n) => parsed_network(text@) == Ok::<(u32, u8), Seq<char>>(n) && n.1 <= 32,
            Err(e) => parsed_network(text@) == Err::<(u32, u8), Seq<char>>(e@),
        },
        forall|addr: Ipv4Addr, prefix: u8|
            text@ == #[trigger] cidr_chars(addr, prefix) && prefix <= 32 ==> net is Ok && net->Ok_0
                == (addr.number() as u32, prefix),
{
    match text.parse::<ipnetwork::Ipv4Network>() {
        Ok(net) => Ok((u32::from(net.ip()), net.prefix())),
        Err(e) => Err(e.to_string()),
    }
}

/// Calls `xxhash_rust::xxh3::xxh3_64`. Claimed: the hash is a function of the bytes.
#[verifier::external_body]
fn xxh3_64(data: &[u8]) -> (hash: u64)
    ensures
        hash == xxh3_64_of(data@),
{
    xxhash_rust::xxh3::xxh3_64(data)
}

/// The host address that `hash` selects: neither the network nor the broadcast address.
pub open spec fn host_number(net: Ipv4Net, hash: u64) -> int {
    net.first() + hash as int % 0x1_0000_0000 % (network_size(net.prefix) - 2) + 1
}

proof fn lemma_network(net: Ipv4Net)
    requires
        net.wf(),
    ensures
        1 <= network_size(net.prefix) <= 0x1_0000_0000,
        net.prefix <= 30 ==> network_size(net.prefix) >= 4,
        0 <= net.first() <= net.addr <= net.last() <= 0xFFFF_FFFF,
{
    let bits: nat = (32 - net.prefix) as nat;
    let size: int = network_size(net.prefix);
    vstd::arithmetic::power2::lemma_pow2_pos(bits);
    assert(pow2(32) == 0x1_0000_0000 && pow2(2) == 4) by {
        vstd::arithmetic::power2::lemma2_to64();
    }
    if bits < 32 {
        vstd::arithmetic::power2::lemma_pow2_strictly_increases(bits, 32);
    }
    if bits > 2 {
        vstd::arithmetic::power2::lemma_pow2_strictly_increases(2, bits);
    }
    let a: int = net.addr as int;
    let q: int = a / size;
    vstd::arithmetic::div_mod::lemma_fundamental_div_mod(a, size);
    assert(q * size == size * q) by (nonlinear_arith);
    assert(0 <= q) by (nonlinear_arith)
        requires
            q == a / size,
            a >= 0,
            size > 0,
    ;
    assert(q * size >= 0) by (nonlinear_arith)
        requires
            q >= 0,
            size > 0,
    ;
    vstd::arithmetic::power2::lemma_pow2_adds(bits, net.prefix as nat);
    let blocks: int = pow2(net.prefix as nat) as int;
    assert(q * size + size <= 0x1_0000_0000) by (nonlinear_arith)
        requires
            q * size <= a < 0x1_0000_0000,
            blocks * size == 0x1_0000_0000 || size * blocks == 0x1_0000_0000,
            size > 0,
    ;
}

impl Ipv4Net {
    /// The network that `text` writes in CIDR notation, or the text of the error.
    pub fn parse(text: &str) -> (net: Result<Ipv4Net, String>)
        ensures
            match net {
                Ok(n) => n.wf() && parsed_network(text@) == Ok::<(u32, u8), Seq<char>>(
                    (n.addr, n.prefix),
                ),
                Err(e) => parsed_network(text@) == Err::<(u32, u8), Seq<char>>(e@),
            },
            forall|addr: Ipv4Addr, prefix: u8|
                text@ == #[trigger] cidr_chars(addr, prefix) && prefix <= 32 ==> net is Ok
                    && net->Ok_0 == (Ipv4Net { addr: addr.number() as u32, prefix }),
    {
        match network_from_str(text) {
            Ok((addr, prefix)) => Ok(Ipv4Net { addr, prefix }),
            Err(e) => Err(e),
        }
    }

    /// How many addresses the network has.
    pub fn size(&self) -> (n: u64)
        requires
            self.wf(),
        ensures
            n == network_size(self.prefix),
    {
        let mut n: u64 = 1;
        let mut i: u8 = self.prefix;
        proof {
            vstd::arithmetic::power2::lemma2_to64();
        }
        let ghost bits: nat = (32 - self.prefix) as nat;
        while i < 32
            invariant
                self.prefix <= i <= 32,
                n == pow2((i - self.prefix) as nat),
                n <= 0x1_0000_0000,
            decreases 32 - i,
        {
            proof {
                let done: nat = (i - self.prefix) as nat;
                vstd::arithmetic::power2::lemma_pow2_unfold(done + 1);
                assert(pow2(31) == 0x8000_0000) by {
                    vstd::arithmetic::power2::lemma2_to64();
                }
                if done < 31 {
                    vstd::arithmetic::power2::lemma_pow2_strictly_increases(done, 31);
                }
            }
            n = n * 2;
            i += 1;
        }
        n
    }

    /// The lowest address of the network.
    pub fn network(&self) -> (n: u32)
        requires
            self.wf(),
        ensures
            n == self.first(),
    {
        let size: u64 = self.size();
        proof {
            lemma_network(*self);
        }
        let blocks: u64 = self.addr as u64 / size;
        (blocks * size) as u32
    }

    /// The highest address of the network.
    pub fn broadcast(&self) -> (n: u32)
        requires
            self.wf(),
        ensures
            n == self.last(),
    {
        let size: u64 = self.size();
        proof {
            lemma_network(*self);
        }
        (self.network() as u64 + (size - 1)) as u32
    }

    /// The mask of the network: its prefix in ones.
    pub fn mask(&self) -> (n: u32)
        requires
            self.wf(),
        ensures
            n == self.netmask(),
    {
        let size: u64 = self.size();
        proof {
            lemma_network(*self);
        }
        (0x1_0000_0000 - size) as u32
    }
}

/// An address with its prefix length, as in `10.99.0.42/16`.
pub fn cidr_text(addr: Ipv4Addr, prefix: u8) -> (s: String)
    ensures
        s@ == cidr_chars(addr, prefix),
{
    let mut s: String = addr.text();
    s.append("/");
    push_number(&mut s, prefix as u64, 10);
    s
}

/// The host address of `net` that `hash` selects.
pub fn host_from_hash(net: Ipv4Net, hash: u64) -> (ip: Result<Ipv4Addr, IpamError>)
    requires
        net.wf(),
    ensures
        match ip {
            Ok(a) => net.prefix <= 30 && a.number() == host_number(net, hash),
            Err(e) => net.prefix > 30 && e is TooSmall,
        },
{
    if net.prefix > 30 {
        return Err(IpamError::TooSmall);
    }
    proof {
        lemma_network(net);
    }
    let base: u32 = net.network();
    let usable: u32 = net.broadcast() - base - 1;
    let low: u32 = (hash % 0x1_0000_0000) as u32;
    let offset: u32 = low % usable + 1;
    Ok(Ipv4Addr::from_u32(base + offset))
}

/// The virtual address of a peer: a host of the network that the peer's identifier selects.
pub fn derive_ip_from_peerid(cidr: &str, peer: &PeerId) -> (ip: Result<Ipv4Addr, IpamError>)
    ensures
        match (ip, parsed_network(cidr@)) {
            (Ok(a), Ok((addr, prefix))) => prefix <= 30 && a.number() == host_number(
                Ipv4Net { addr, prefix },
                xxh3_64_of(peer@),
            ),
            (Err(IpamError::TooSmall), Ok((addr, prefix))) => 30 < prefix <= 32,
            (Err(IpamError::InvalidCidr(text)), Err(e)) => text@ == e,
            _ => false,
        },
{
    let net: Ipv4Net = match Ipv4Net::parse(cidr) {
        Ok(net) => net,
        Err(e) => {
            return Err(IpamError::InvalidCidr(e));
        },
    };
    let hash: u64 = xxh3_64(peer.bytes.as_slice());
    host_from_hash(net, hash)
}

/// The address of the virtual interface, with the prefix length of the network.
pub fn interface_address(cidr: &str, ip: Ipv4Addr) -> (text: Result<String, IpamError>)
    ensures
        match (text, parsed_network(cidr@)) {
            (Ok(s), Ok((addr, prefix))) => s@ == cidr_chars(ip, prefix),
            (Err(IpamError::InvalidCidr(text)), Err(e)) => text@ == e,
            _ => false,
        },
{
    match Ipv4Net::parse(cidr) {
        Ok(net) => Ok(cidr_text(ip, net.prefix)),
        Err(e) => Err(IpamError::InvalidCidr(e)),
    }
}

/// What a node says of itself: its identifier and its virtual address.
pub fn whoami_line(peer: &str, ip: Ipv4Addr) -> (s: String)
    ensures
        s@ == "peer_id="@ + peer@ + " ip="@ + ip.chars(),
{
    let mut s: String = "peer_id=".to_owned();
    s.append(peer);
    s.append(" ip=");
    push_ipv4(&mut s, ip.a, ip.b, ip.c, ip.d);
    s
}

impl IpamError {
    /// The message for the user.
    pub fn message(&self) -> (s: String)
        ensures
            s@ == match self {
                IpamError::InvalidCidr(e) => "invalid CIDR: "@ + e@,
                IpamError::TooSmall => "CIDR too small for host allocation (/31 or /32)"@,
            },
    {
        match self {
            IpamError::InvalidCidr(e) => {
                let mut s: String = String::new();
                s.append("invalid CIDR: ");
                s.append(e.as_str());
                assert(s@ =~= "invalid CIDR: "@ + e@);
                s
            },
            IpamError::TooSmall => "CIDR too small for host allocation (/31 or /32)".to_owned(),
        }
    }
}

/// A derived address lies in the network, and is neither its network nor its broadcast address.
pub proof fn derived_address_is_a_host(net: Ipv4Net, hash: u64)
    requires
        net.prefix <= 30,
    ensures
        net.first() < host_number(net, hash) < net.last(),
        net.first() <= net.addr <= net.last(),
{
    lemma_network(net);
    let usable: int = network_size(net.prefix) - 2;
    let low: int = hash as int % 0x1_0000_0000;
    assert(0 <= low % usable < usable) by (nonlinear_arith)
        requires
            usable > 0,
    ;
}

/// What a network is: the addresses that share the first bits of its address. There are as many as the
/// remaining bits can say, the lowest is a multiple of that number, the address itself is one of them,
/// and the mask is what that number leaves of all addresses.
pub proof fn network_is_its_prefix(net: Ipv4Net)
    requires
        net.prefix <= 32,
    ensures
        0 <= net.first() <= net.addr <= net.last() < 0x1_0000_0000,
        net.last() - net.first() + 1 == pow2((32 - net.prefix) as nat),
        net.first() % (pow2((32 - net.prefix) as nat) as int) == 0,
        net.netmask() + pow2((32 - net.prefix) as nat) == 0x1_0000_0000,
{
    lemma_network(net);
    let size: int = pow2((32 - net.prefix) as nat) as int;
    let blocks: int = net.addr as int / size;
    vstd::arithmetic::div_mod::lemma_mod_multiples_basic(blocks, size);
    assert(blocks * size == size * blocks) by (nonlinear_arith);
}

/// The hash of a peer spreads the peers over all hosts: the low 32 bits count, a number below that of
/// the hosts selects the host of that rank, and two hashes select the same host exactly where these
/// numbers leave the same remainder.
pub proof fn hash_selects_the_host(net: Ipv4Net, hash: u64, other: u64)
    requires
        net.prefix <= 30,
    ensures
        ({
            let hosts: int = pow2((32 - net.prefix) as nat) - 2;
            let rank: int = hash as int % 0x1_0000_0000;
            let other_rank: int = other as int % 0x1_0000_0000;
            &&& rank < hosts ==> host_number(net, hash) == net.first() + 1 + rank
            &&& host_number(net, hash) == host_number(net, other) <==> rank % hosts == other_rank
                % hosts
            &&& net.first() < host_number(net, hash) < net.last()
        }),
{
    lemma_network(net);
    derived_address_is_a_host(net, hash);
    let hosts: int = pow2((32 - net.prefix) as nat) - 2;
    let rank: int = hash as int % 0x1_0000_0000;
    if rank < hosts {
        vstd::arithmetic::div_mod::lemma_small_mod(rank as nat, hosts as nat);
    }
}

/// An address with its prefix length is the address, a slash and the number.
pub proof fn cidr_text_has_two_parts(addr: Ipv4Addr, prefix: u8)
    ensures
        ({
            let s: Seq<char> = cidr_chars(addr, prefix);
            let at: int = addr.chars().len() as int;
            &&& at < s.len()
            &&& s.take(at) == ipv4_chars(addr.a, addr.b, addr.c, addr.d)
            &&& s[at] == '/'
            &&& crate::text::writes_number(s.skip(at + 1), prefix as int)
        }),
{
    reveal_strlit("/");
    assert("/"@ =~= seq!['/']);
    crate::text::decimal_writes_the_number(prefix as nat);
    let s: Seq<char> = cidr_chars(addr, prefix);
    let at: int = addr.chars().len() as int;
    assert(s.take(at) =~= addr.chars());
    assert(s.skip(at + 1) =~= decimal(prefix as nat));
}

} // verus!
