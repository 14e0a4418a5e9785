//! The virtual network interface.

use vstd::prelude::*;

verus! {

/// The MTU of the interface where none is asked for on Windows.
pub const WINDOWS_MTU: u16 = 1300;

/// The MTU of the interface where none is asked for elsewhere.
pub const DEFAULT_MTU: u16 = 1400;

/// An open TUN interface: its name and its MTU.
pub struct TunHandle {
    ifname: String,
    mtu: u16,
}

impl TunHandle {
    /// The interface name.
    pub closed spec fn name(&self) -> Seq<char> {
        self.ifname@
    }

    /// The interface MTU.
    pub closed spec fn limit(&self) -> u16 {
        self.mtu
    }

    /// A handle for the interface `ifname` with the given MTU.
    pub fn new(ifname: String, mtu: u16) -> (h: TunHandle)
        ensures
            h.name() == ifname@,
            h.limit() == mtu,
    {
        TunHandle { ifname, mtu }
    }

    /// The interface name.
    pub fn ifname(&self) -> (s: &str)
        ensures
            s@ == self.name(),
    {
        self.ifname.as_str()
    }

    /// The interface MTU.
    pub fn mtu(&self) -> (m: u16)
        ensures
            m == self.limit(),
    {
        self.mtu
    }
}

/// The MTU to configure: the one asked for, or the default of the system.
pub fn choose_mtu(mtu: Option<u16>, windows: bool) -> (m: u16)
    ensures
        m == match mtu {
            Some(wanted) => wanted,
            None => if windows {
                WINDOWS_MTU
            } else {
                DEFAULT_MTU
            },
        },
{
    match mtu {
        Some(wanted) => wanted,
        None => if windows {
            WINDOWS_MTU
        } else {
            DEFAULT_MTU
        },
    }
}

/// The name of an open interface: what the device reports, else the name asked for, else `coconet0`.
pub fn interface_name(reported: Option<String>, wanted: Option<String>) -> (name: String)
    ensures
        name@ == match (reported, wanted) {
            (Some(name), _) => name@,
            (None, Some(name)) => name@,
            (None, None) => "coconet0"@,
        },
{
    match (reported, wanted) {
        (Some(name), _) => name,
        (None, Some(name)) => name,
        (None, None) => "coconet0".to_owned(),
    }
}

/// The name of the Wintun adapter: the name asked for, else `wintun`.
pub fn adapter_name(wanted: Option<String>) -> (name: String)
    ensures
        name@ == match wanted {
            Some(name) => name@,
            None => "wintun"@,
        },
{
    match wanted {
        Some(name) => name,
        None => "wintun".to_owned(),
    }
}

} // verus!
