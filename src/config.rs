use vstd::prelude::*;

use crate::net::EtherType;

verus! {

/// The persisted settings: each key may be unset.
#[derive(Clone, Debug, PartialEq, Eq)]
pub struct Config {
    pub username: Option<String>,
    pub interface: Option<String>,
    pub ether_type: Option<EtherType>,
}

impl Default for Config {
    fn default() -> (r: Config)
        ensures
            r.username is None,
            r.interface is None,
            r.ether_type is None,
    {
        Config { username: None, interface: None, ether_type: None }
    }
}

} // verus!
