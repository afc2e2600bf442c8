//! Physical destinations and the opaque handles of the embedding runtime.

use vstd::prelude::*;

verus! {

/// A physical network destination.
#[derive(Clone, Copy, PartialEq, Eq, Structural, Hash, Debug)]
pub enum Endpoint {
    /// An IP address (v4 mapped into the v6 space) and UDP port.
    IpUdp { ip: u128, port: u16 },
    /// A symbolic destination resolved by the embedding runtime.
    Symbolic { id: u64 },
}

/// Handle for a local system socket, supplied by the embedding runtime.
#[derive(Clone, Copy, PartialEq, Eq, Structural, Hash, Debug)]
pub struct LocalSocket {
    pub id: u64,
}

/// Handle for a local system interface, supplied by the embedding runtime.
#[derive(Clone, Copy, PartialEq, Eq, Structural, Hash, Debug)]
pub struct LocalInterface {
    pub id: u64,
}

} // verus!
