//! CocoNet: the logic of a decentralised peer-to-peer virtual network.

pub mod acl;
pub mod addr;
pub mod batch;
pub mod buffer;
pub mod collections;
pub mod config;
pub mod dial;
pub mod frame;
pub mod guarantees;
pub mod history;
pub mod iface;
pub mod ipam;
pub mod ipv4;
pub mod node;
pub mod packets;
pub mod peer;
pub mod promises;
pub mod protocol;
pub mod routing;
pub mod settings;
pub mod text;
pub mod tun;
pub mod wire;
