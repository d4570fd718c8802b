//! Command-line facing knobs of a node.

use vstd::prelude::*;
use vstd::string::*;

verus! {

/// What a node takes from its command line.
#[derive(Clone, Debug, PartialEq, Eq)]
pub struct Args {
    /// Where the local HTTP endpoint listens.
    pub http_addr: String,
    /// The STUN server handed to the swarm builder.
    pub stun_server: String,
}

impl Args {
    /// Bundle the two addresses.
    pub fn new(http_addr: String, stun_server: String) -> (r: Args)
        ensures
            r.http_addr@ == http_addr@,
            r.stun_server@ == stun_server@,
    {
        Args { http_addr, stun_server }
    }
}

impl Default for Args {
    /// The addresses a node uses when none are given.
    fn default() -> (r: Args)
        ensures
            r.http_addr@ == "127.0.0.1:50000"@,
            r.stun_server@ == "stun://stun.l.google.com:19302"@,
    {
        Args {
            http_addr: String::from_str("127.0.0.1:50000"),
            stun_server: String::from_str("stun://stun.l.google.com:19302"),
        }
    }
}

} // verus!
