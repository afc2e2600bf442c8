//! Events the node reports to the embedding runtime, and the outbound
//! directives its operations hand back for the runtime to perform.

use vstd::prelude::*;
use crate::address::{Address, Identity};
use crate::endpoint::{Endpoint, LocalInterface, LocalSocket};

verus! {

/// The reason for a security warning event.
#[derive(Clone, Copy, PartialEq, Eq, Structural, Debug)]
pub enum SecurityWarningKind {
    /// The address appears in trusted root sets (or the peer table) under
    /// two different identities and is excluded from root participation.
    AddressCollision(Address),
    /// A root set member at this address carries unusable key material.
    BadIdentity(Address),
}

/// Asynchronous notifications from the node to the embedding runtime.
#[derive(PartialEq, Debug)]
pub enum Event {
    /// No stored identity was found and one was generated.
    IdentityAutoGenerated(Identity),
    /// The stored identity was upgraded (old, new).
    IdentityAutoUpgraded(Identity, Identity),
    /// The node's online state changed.
    Online(bool),
    /// The set of trusted root peers was rebuilt (old identities, new
    /// identities).
    UpdatedRoots(Vec<Identity>, Vec<Identity>),
    /// A security-relevant anomaly; processing continues.
    SecurityWarning(SecurityWarningKind),
}

/// A datagram for the embedding runtime to emit, with UDP-like semantics.
///
/// If `local_socket` is given it must be sent from that socket or not at
/// all; if only `local_interface` is given, from all sockets on that
/// interface; a `ttl` of zero means the default TTL.
#[derive(PartialEq, Debug)]
pub struct WireSend {
    pub endpoint: Endpoint,
    pub local_socket: Option<LocalSocket>,
    pub local_interface: Option<LocalInterface>,
    pub data: Vec<u8>,
    pub ttl: u8,
}

/// A HELLO the runtime should build and send to a root at one of its
/// declared endpoints (roots are probed on every endpoint they declare).
#[derive(Clone, Copy, PartialEq, Eq, Structural, Debug)]
pub struct HelloDirective {
    pub root: Address,
    pub endpoint: Endpoint,
}

/// A WHOIS identity lookup the runtime should send to the current best root.
#[derive(PartialEq, Debug)]
pub struct WhoisRequest {
    pub root: Address,
    pub addresses: Vec<Address>,
}

} // verus!
