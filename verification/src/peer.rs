//! Known remote nodes: identity, liveness bookkeeping, and the physical
//! path most recently learned for them.

use vstd::prelude::*;
use crate::address::Identity;
use crate::endpoint::{Endpoint, LocalInterface, LocalSocket};
use crate::gate::TICKS_MAX;
use crate::protocol::PEER_EXPIRATION_TIME;

verus! {

/// The physical path a peer was last heard on, used to send toward it.
#[derive(Clone, Copy, PartialEq, Eq, Structural, Debug)]
pub struct PeerPath {
    pub endpoint: Endpoint,
    pub local_socket: LocalSocket,
    pub local_interface: LocalInterface,
}

/// A known remote node.
#[derive(Clone, Copy, PartialEq, Eq, Structural, Debug)]
pub struct Peer {
    identity: Identity,
    create_time_ticks: i64,
    last_receive_time_ticks: i64,
    last_hello_reply_time_ticks: i64,
    best_path: Option<PeerPath>,
}

impl Peer {
    /// The peer's long-lived identity; its address keys the peer table.
    pub closed spec fn spec_identity(self) -> Identity {
        self.identity
    }

    /// The peer's long-lived identity.
    pub fn identity(&self) -> (r: Identity)
        ensures
            r == self.spec_identity(),
    {
        self.identity
    }

    pub closed spec fn spec_created(self) -> i64 {
        self.create_time_ticks
    }

    pub closed spec fn spec_last_receive(self) -> i64 {
        self.last_receive_time_ticks
    }

    /// When this peer last answered a HELLO; drives best-root election.
    pub closed spec fn spec_last_hello_reply(self) -> i64 {
        self.last_hello_reply_time_ticks
    }

    /// The path this peer was last heard on, if any.
    pub closed spec fn spec_best_path(self) -> Option<PeerPath> {
        self.best_path
    }

    pub open spec fn wf(self) -> bool {
        &&& self.spec_identity().wf()
        &&& 0 <= self.spec_created() <= TICKS_MAX
        &&& 0 <= self.spec_last_receive() <= TICKS_MAX
        &&& 0 <= self.spec_last_hello_reply() <= TICKS_MAX
    }

    /// Which identities can back a peer at all.
    pub open spec fn spec_constructible(identity: Identity) -> bool {
        identity.wf() && identity.keys_valid
    }

    /// Create a peer record for an identity; fails exactly when the
    /// identity's key material is unusable.
    pub fn new(identity: Identity, time_ticks: i64) -> (r: Option<Peer>)
        requires
            0 <= time_ticks <= TICKS_MAX,
        ensures
            Self::spec_constructible(identity) <==> (r matches Some(p) && p.wf() && p.spec_identity()
                == identity && p.spec_created() == time_ticks && p.spec_last_receive()
                == time_ticks && p.spec_last_hello_reply() == 0 && p.spec_best_path() is None),
            !Self::spec_constructible(identity) ==> r is None,
    {
        if identity.keys_valid && identity.address.is_valid() {
            Some(
                Peer {
                    identity,
                    create_time_ticks: time_ticks,
                    last_receive_time_ticks: time_ticks,
                    last_hello_reply_time_ticks: 0,
                    best_path: None,
                },
            )
        } else {
            None
        }
    }

    /// Record reception from this peer on the given physical path.
    pub fn record_receive(
        &mut self,
        endpoint: Endpoint,
        local_socket: LocalSocket,
        local_interface: LocalInterface,
        time_ticks: i64,
    )
        requires
            old(self).wf(),
            0 <= time_ticks <= TICKS_MAX,
        ensures
            final(self).wf(),
            final(self).spec_identity() == old(self).spec_identity(),
            final(self).spec_created() == old(self).spec_created(),
            final(self).spec_last_hello_reply() == old(self).spec_last_hello_reply(),
            final(self).spec_last_receive() == time_ticks,
            final(self).spec_best_path() == Some(
                PeerPath { endpoint, local_socket, local_interface },
            ),
    {
        self.last_receive_time_ticks = time_ticks;
        self.best_path = Some(PeerPath { endpoint, local_socket, local_interface });
    }

    /// Record that this peer answered one of our HELLOs.
    pub fn record_hello_reply(&mut self, time_ticks: i64)
        requires
            old(self).wf(),
            0 <= time_ticks <= TICKS_MAX,
        ensures
            final(self).wf(),
            final(self).spec_identity() == old(self).spec_identity(),
            final(self).spec_created() == old(self).spec_created(),
            final(self).spec_last_receive() == old(self).spec_last_receive(),
            final(self).spec_best_path() == old(self).spec_best_path(),
            final(self).spec_last_hello_reply() == time_ticks,
    {
        self.last_hello_reply_time_ticks = time_ticks;
    }

    /// Whether this peer is still live at `time_ticks`.
    pub open spec fn spec_service(self, time_ticks: i64) -> bool {
        time_ticks - self.spec_last_receive() < PEER_EXPIRATION_TIME
    }

    /// What the sweep decides: false once the peer has been quiet past its
    /// expiration threshold; the sweep itself pins roots.
    pub fn service(&self, time_ticks: i64) -> (r: bool)
        requires
            self.wf(),
            0 <= time_ticks <= TICKS_MAX,
        ensures
            r == self.spec_service(time_ticks),
    {
        time_ticks - self.last_receive_time_ticks < PEER_EXPIRATION_TIME
    }

    /// When this peer last answered a HELLO.
    pub fn last_hello_reply(&self) -> (r: i64)
        ensures
            r == self.spec_last_hello_reply(),
    {
        self.last_hello_reply_time_ticks
    }

    /// The path to use when sending toward this peer, if one is known.
    pub fn direct_path(&self) -> (r: Option<PeerPath>)
        ensures
            r == self.spec_best_path(),
    {
        self.best_path
    }
}

} // verus!
