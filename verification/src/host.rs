//! The host-system boundary: capability traits the embedding runtime
//! implements, and the interface to the upper protocol layer.
//!
//! None of these methods carry contracts: what they do belongs to the
//! embedding, and nothing verified depends on how they behave.

use vstd::prelude::*;
use crate::address::Identity;
use crate::endpoint::{Endpoint, LocalInterface, LocalSocket};
use crate::event::Event;
use crate::path::Path;
use crate::peer::Peer;

verus! {

/// Callbacks through which the node reaches the system: sockets, clocks and
/// event reporting.
pub trait HostSystem: Sync + Send {
    /// A node-level event occurred.
    fn event(&self, event: Event);

    /// False iff the socket's interface or port is no longer usable.
    fn local_socket_is_valid(&self, socket: LocalSocket) -> bool;

    /// Send a datagram with UDP-like, best-effort semantics. With a socket
    /// given, send from it or not at all; with only an interface, from all
    /// its sockets; a zero TTL means the default.
    fn wire_send(
        &self,
        endpoint: &Endpoint,
        local_socket: Option<LocalSocket>,
        local_interface: Option<LocalInterface>,
        data: &[u8],
        packet_ttl: u8,
    );

    /// Monotone milliseconds, accurate to 250 ms or better.
    fn time_ticks(&self) -> i64;

    /// Wall-clock milliseconds since the epoch, accurate to 1 s or better.
    fn time_clock(&self) -> i64;
}

/// Persistence of the node's long-lived identity.
pub trait NodeStorage: Sync + Send {
    /// Load this node's identity from the data store.
    fn load_node_identity(&self) -> Option<Identity>;

    /// Save this node's identity to the data store.
    fn save_node_identity(&self, id: &Identity);
}

/// Admission control and hints for physical paths.
pub trait PathFilter: Sync + Send {
    /// Whether this physical path may carry traffic to the given node.
    fn check_path(
        &self,
        id: &Identity,
        endpoint: &Endpoint,
        local_socket: Option<LocalSocket>,
        local_interface: Option<LocalInterface>,
    ) -> bool;

    /// Statically defined or memorized paths to a known node, if any.
    fn get_path_hints(&self, id: &Identity) -> Option<
        Vec<(Endpoint, Option<LocalSocket>, Option<LocalInterface>)>,
    >;
}

/// Result of a packet handler in the upper protocol layer.
#[derive(Clone, Copy, PartialEq, Eq, Structural, Debug)]
pub enum PacketHandlerResult {
    /// The packet was handled successfully.
    Handled,
    /// The packet was handled and an error occurred (malformed,
    /// authentication failure, and the like).
    Error,
    /// The packet was not handled by this handler.
    NotHandled,
}

/// Interface between this layer and the upper (inner) protocol layer.
pub trait InnerProtocol: Sync + Send {
    /// Handle a packet. OK and ERROR verbs go to `handle_ok` and
    /// `handle_error` instead.
    fn handle_packet(
        &self,
        source: &Peer,
        source_path: &Path,
        verb: u8,
        payload: &Vec<u8>,
    ) -> PacketHandlerResult;

    /// Handle an ERROR in reply to an earlier message.
    fn handle_error(
        &self,
        source: &Peer,
        source_path: &Path,
        in_re_verb: u8,
        in_re_message_id: u64,
        error_code: u8,
        payload: &Vec<u8>,
        cursor: &mut usize,
    ) -> PacketHandlerResult;

    /// Handle an OK in reply to an earlier message.
    fn handle_ok(
        &self,
        source: &Peer,
        source_path: &Path,
        in_re_verb: u8,
        in_re_message_id: u64,
        payload: &Vec<u8>,
        cursor: &mut usize,
    ) -> PacketHandlerResult;

    /// Whether this node should communicate with the given identity at all.
    fn should_communicate_with(&self, id: &Identity) -> bool;
}

/// No-op inner protocol for debugging and testing.
#[derive(Default)]
pub struct DummyInnerProtocol;

impl InnerProtocol for DummyInnerProtocol {
    fn handle_packet(
        &self,
        _source: &Peer,
        _source_path: &Path,
        _verb: u8,
        _payload: &Vec<u8>,
    ) -> PacketHandlerResult {
        PacketHandlerResult::NotHandled
    }

    fn handle_error(
        &self,
        _source: &Peer,
        _source_path: &Path,
        _in_re_verb: u8,
        _in_re_message_id: u64,
        _error_code: u8,
        _payload: &Vec<u8>,
        _cursor: &mut usize,
    ) -> PacketHandlerResult {
        PacketHandlerResult::NotHandled
    }

    fn handle_ok(
        &self,
        _source: &Peer,
        _source_path: &Path,
        _in_re_verb: u8,
        _in_re_message_id: u64,
        _payload: &Vec<u8>,
        _cursor: &mut usize,
    ) -> PacketHandlerResult {
        PacketHandlerResult::NotHandled
    }

    fn should_communicate_with(&self, _id: &Identity) -> bool {
        true
    }
}

/// No-op path filter for debugging and testing.
#[derive(Default)]
pub struct DummyPathFilter;

impl PathFilter for DummyPathFilter {
    fn check_path(
        &self,
        _id: &Identity,
        _endpoint: &Endpoint,
        _local_socket: Option<LocalSocket>,
        _local_interface: Option<LocalInterface>,
    ) -> bool {
        true
    }

    fn get_path_hints(&self, _id: &Identity) -> Option<
        Vec<(Endpoint, Option<LocalSocket>, Option<LocalInterface>)>,
    > {
        None
    }
}

} // verus!
