//! The names under which nodes find each other, and the port mapping that a node asks for.

use vstd::prelude::*;

use crate::addr::Ipv4Addr;
#[allow(unused_imports)]
use crate::settings::setting;
use crate::settings::upnp_enabled;
#[allow(unused_imports)]
use crate::text::lowered;
use crate::text::same_text;

verus! {

/// How many seconds a port mapping lasts.
pub const MAPPING_LEASE: u32 = 3600;

/// What a message in the mesh is about.
#[derive(Debug, Clone, Copy, PartialEq, Eq, Structural)]
pub enum Topic {
    /// Packets of the virtual network.
    Packets,
    /// Addresses under which nodes can be reached.
    Announce,
}

impl Topic {
    /// The name of the topic.
    pub open spec fn chars(&self) -> Seq<char> {
        match self {
            Topic::Packets => "coconet/packets"@,
            Topic::Announce => "coconet/announce"@,
        }
    }

    /// The name of the topic.
    pub fn name(&self) -> (s: &'static str)
        ensures
            s@ == self.chars(),
    {
        match self {
            Topic::Packets => "coconet/packets",
            Topic::Announce => "coconet/announce",
        }
    }

    /// The topic of the given name.
    pub fn from_name(name: &str) -> (topic: Option<Topic>)
        ensures
            match topic {
                Some(t) => name@ == t.chars(),
                None => forall|t: Topic| name@ != #[trigger] t.chars(),
            },
    {
        if same_text(name, "coconet/packets") {
            Some(Topic::Packets)
        } else if same_text(name, "coconet/announce") {
            Some(Topic::Announce)
        } else {
            assert forall|t: Topic| name@ != #[trigger] t.chars() by {
                match t {
                    Topic::Packets => {},
                    Topic::Announce => {},
                }
            }
            None
        }
    }
}

/// No two topics have the same name.
pub proof fn topics_differ(one: Topic, other: Topic)
    requires
        one.chars() == other.chars(),
    ensures
        one == other,
{
    reveal_strlit("coconet/packets");
    reveal_strlit("coconet/announce");
    assert("coconet/packets"@.len() == 15);
    assert("coconet/announce"@.len() == 16);
}

/// The name of the protocol for messages over a direct connection.
pub fn data_protocol() -> (s: &'static str)
    ensures
        s@ == "/coconet/data/1"@,
{
    "/coconet/data/1"
}

/// The protocol version under which a node identifies itself.
pub fn identify_protocol() -> (s: &'static str)
    ensures
        s@ == "coconet/0.1.0"@,
{
    "coconet/0.1.0"
}

/// A UDP port of the gateway that is to lead to this node.
#[derive(Debug)]
pub struct PortMapping {
    /// The port of the gateway.
    pub external_port: u16,
    /// Where it leads to.
    pub local_ip: Ipv4Addr,
    pub local_port: u16,
    /// For how many seconds.
    pub lease: u32,
    /// What the gateway lists the mapping as.
    pub description: &'static str,
}

/// The mapping to ask the gateway for, given the setting that can switch mappings off: the port on
/// which the node listens, under the same number.
pub fn port_mapping(switch: Option<&str>, ip: Ipv4Addr, port: u16) -> (mapping: Option<PortMapping>)
    ensures
        mapping is Some == (setting(switch) matches Some(text) ==> text != "0"@ && lowered(text)
            != "false"@),
        mapping matches Some(m) ==> m.external_port == port && m.local_ip == ip && m.local_port
            == port && m.lease == MAPPING_LEASE && m.description@ == "coconet-quic"@,
{
    if !upnp_enabled(switch) {
        return None;
    }
    Some(
        PortMapping {
            external_port: port,
            local_ip: ip,
            local_port: port,
            lease: MAPPING_LEASE,
            description: "coconet-quic",
        },
    )
}

/// The topics by name.
pub proof fn topics_have_these_names()
    ensures
        Topic::Packets.chars() == "coconet/packets"@,
        Topic::Announce.chars() == "coconet/announce"@,
        MAPPING_LEASE == 60 * 60,
{
}

} // verus!
