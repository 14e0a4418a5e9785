//! Node configuration.

use vstd::prelude::*;

verus! {

/// What a node is started with.
#[derive(Debug, Clone)]
pub struct Config {
    pub cidr: String,
    pub bootstrap: Vec<String>,
    pub relay: bool,
}

impl Default for Config {
    /// No network, no bootstrap addresses, no relay.
    fn default() -> (c: Self)
        ensures
            c.cidr@ == Seq::<char>::empty(),
            c.bootstrap@ == Seq::<String>::empty(),
            !c.relay,
    {
        Config { cidr: String::new(), bootstrap: Vec::new(), relay: false }
    }
}

} // verus!
