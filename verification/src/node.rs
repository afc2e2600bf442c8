//! The node control plane: peer, path and root tables, the WHOIS queue,
//! the background scheduler and the ingress dispatcher.
//!
//! The node is a pure state machine: every operation takes the current
//! monotone tick and hands back the datagrams, HELLOs, lookups and events
//! for the embedding runtime to perform, so that no lock is ever held
//! across I/O.

use vstd::prelude::*;
use crate::address::{Address, Identity};
use crate::endpoint::{Endpoint, LocalInterface, LocalSocket};
use crate::event::{Event, HelloDirective, SecurityWarningKind, WhoisRequest, WireSend};
use crate::gate::{IntervalGate, TICKS_MAX};
use crate::address::{address_value_valid, lemma_address_eq};
use crate::host::{HostSystem, InnerProtocol};
use crate::fragged::Fragged;
use crate::protocol::{
    fragment_no, increment_hops, is_fragment, is_v2, packet_id, parse_dest, parse_src,
    spec_dest_value, spec_fragment_no, spec_packet_id, spec_hops_index, spec_hops_of, spec_is_fragment, spec_is_v2,
    spec_src_value, spec_total_fragments, total_fragments, FORWARD_MAX_HOPS, FRAGMENT_HEADER_SIZE,
    PACKET_HEADER_SIZE,
};
use crate::path::{Path, PathServiceResult};
use crate::peer::Peer;
use crate::protocol::{
    PATH_SERVICE_INTERVAL_MS, PEER_SERVICE_INTERVAL_MS, ROOT_HELLO_INTERVAL,
    ROOT_HELLO_SPAM_INTERVAL, ROOT_SYNC_INTERVAL_MS, WHOIS_MAX_WAITING_PACKETS,
    WHOIS_RETRY_COUNT_MAX, WHOIS_RETRY_INTERVAL,
};
use crate::rootset::{same_root_set, RootSet};

verus! {

/// A trusted root: the peer's identity and the endpoints its root set
/// declares for it.
pub struct RootPeerEntry {
    pub identity: Identity,
    pub endpoints: Vec<Endpoint>,
}

/// A packet waiting on an identity lookup, together with the physical
/// path it arrived on, so that it can be re-injected into the ingress
/// dispatcher as though freshly received there once the lookup resolves.
pub struct WaitingPacket {
    pub data: Vec<u8>,
    pub endpoint: Endpoint,
    pub local_socket: LocalSocket,
    pub local_interface: LocalInterface,
}

/// One queued identity lookup: the address being resolved, the packets
/// waiting on it (bounded; oldest dropped first), and how often the lookup
/// has been sent.
pub struct WhoisQueueItem {
    pub address: Address,
    pub waiting_packets: Vec<WaitingPacket>,
    pub retry_count: u16,
}

/// Interval latches for the periodic background tasks.
struct BackgroundTaskIntervals {
    root_sync: IntervalGate,
    root_hello: IntervalGate,
    root_spam_hello: IntervalGate,
    peer_service: IntervalGate,
    path_service: IntervalGate,
    whois_queue_retry: IntervalGate,
}

/// Trusted root state: the named sets, the root peers derived from them,
/// and the node's own standing.
struct RootInfo {
    /// Root sets this node trusts, unique by name.
    sets: Vec<RootSet>,
    /// Root peers and their statically declared endpoints.
    roots: Vec<RootPeerEntry>,
    /// Whether this node's own identity appears in at least one trusted set.
    this_node_in_root_sets: bool,
    /// Whether `sets` changed since `roots` was last rebuilt.
    sets_modified: bool,
    /// Whether this node can currently talk to at least one root.
    online: bool,
}

/// A node of the overlay: its identity, its tables, and the scheduler
/// state for its background work.
pub struct Node {
    instance_id: [u8; 16],
    identity: Identity,
    intervals: BackgroundTaskIntervals,
    paths: Vec<Path>,
    peers: Vec<Peer>,
    roots: RootInfo,
    best_root: Option<Address>,
    whois_queue: Vec<WhoisQueueItem>,
}

/// Whether some peer in `peers` has address `a`.
pub open spec fn has_peer_with_address(peers: Seq<Peer>, a: Address) -> bool {
    exists|j: int| 0 <= j < peers.len() && peers[j].spec_identity().address == a
}

/// The peer with address `a` (meaningful under `has_peer_with_address` and
/// address uniqueness).
pub open spec fn peer_with_address(peers: Seq<Peer>, a: Address) -> Peer {
    peers[choose|j: int| 0 <= j < peers.len() && peers[j].spec_identity().address == a]
}

/// Whether some root entry carries identity `id`.
pub open spec fn is_root_identity(roots: Seq<RootPeerEntry>, id: Identity) -> bool {
    exists|j: int| 0 <= j < roots.len() && roots[j].identity == id
}

/// Whether some root entry's identity has address `a`.
pub open spec fn is_root_address(roots: Seq<RootPeerEntry>, a: Address) -> bool {
    exists|j: int| 0 <= j < roots.len() && roots[j].identity.address == a
}

/// Every path is well-formed and no (endpoint, local socket) pair repeats.
pub open spec fn paths_canonical(paths: Seq<Path>) -> bool {
    &&& forall|i: int| 0 <= i < paths.len() ==> (#[trigger] paths[i]).wf()
    &&& forall|i: int, j: int|
        0 <= i < j < paths.len() ==> !((#[trigger] paths[i]).spec_endpoint() == (
        #[trigger] paths[j]).spec_endpoint() && paths[i].spec_local_socket()
            == paths[j].spec_local_socket())
}

/// Every peer is well-formed and no address repeats.
pub open spec fn peers_unique(peers: Seq<Peer>) -> bool {
    &&& forall|i: int| 0 <= i < peers.len() ==> (#[trigger] peers[i]).wf()
    &&& forall|i: int, j: int|
        0 <= i < j < peers.len() ==> (#[trigger] peers[i]).spec_identity().address != (
        #[trigger] peers[j]).spec_identity().address
}

/// No root set name repeats.
pub open spec fn sets_unique(sets: Seq<RootSet>) -> bool {
    forall|i: int, j: int|
        0 <= i < j < sets.len() ==> (#[trigger] sets[i]).name@ != (#[trigger] sets[j]).name@
}

/// Root entries are well-formed and no root address repeats.
pub open spec fn roots_unique(roots: Seq<RootPeerEntry>) -> bool {
    &&& forall|i: int| 0 <= i < roots.len() ==> (#[trigger] roots[i]).identity.wf()
    &&& forall|i: int, j: int|
        0 <= i < j < roots.len() ==> (#[trigger] roots[i]).identity.address != (
        #[trigger] roots[j]).identity.address
}

/// Whether some peer in `peers` carries exactly identity `id`.
pub open spec fn peer_backs(peers: Seq<Peer>, id: Identity) -> bool {
    exists|j: int| 0 <= j < peers.len() && (#[trigger] peers[j]).spec_identity() == id
}

/// Every root is backed by a peer carrying the same identity.
pub open spec fn roots_backed(roots: Seq<RootPeerEntry>, peers: Seq<Peer>) -> bool {
    forall|i: int| 0 <= i < roots.len() ==> peer_backs(peers, (#[trigger] roots[i]).identity)
}

/// No queued address repeats and every waiting ring is bounded.
pub open spec fn whois_queue_wf(q: Seq<WhoisQueueItem>) -> bool {
    &&& forall|i: int, j: int|
        0 <= i < j < q.len() ==> (#[trigger] q[i]).address != (#[trigger] q[j]).address
    &&& forall|i: int|
        0 <= i < q.len() ==> (#[trigger] q[i]).waiting_packets@.len()
            <= WHOIS_MAX_WAITING_PACKETS
}

/// The operation left the node's identity and instance id alone.
pub open spec fn same_identity(pre: Node, post: Node) -> bool {
    post.spec_identity() == pre.spec_identity() && post.spec_instance_id()
        == pre.spec_instance_id()
}

/// The operation left all six scheduler gate latches alone.
pub open spec fn gates_unchanged(pre: Node, post: Node) -> bool {
    &&& post.spec_root_sync_last() == pre.spec_root_sync_last()
    &&& post.spec_root_hello_last() == pre.spec_root_hello_last()
    &&& post.spec_root_spam_hello_last() == pre.spec_root_spam_hello_last()
    &&& post.spec_peer_service_last() == pre.spec_peer_service_last()
    &&& post.spec_path_service_last() == pre.spec_path_service_last()
    &&& post.spec_whois_retry_last() == pre.spec_whois_retry_last()
}

impl Node {
    /// The random id distinguishing this running instance.
    pub closed spec fn spec_instance_id(&self) -> Seq<u8> {
        self.instance_id@
    }

    /// This node's identity.
    pub closed spec fn spec_identity(&self) -> Identity {
        self.identity
    }

    /// The canonicalized path table.
    pub closed spec fn spec_paths(&self) -> Seq<Path> {
        self.paths@
    }

    /// The peer table.
    pub closed spec fn spec_peers(&self) -> Seq<Peer> {
        self.peers@
    }

    /// The trusted root sets, unique by name.
    pub closed spec fn spec_root_sets(&self) -> Seq<RootSet> {
        self.roots.sets@
    }

    /// The current root peers with their declared endpoints.
    pub closed spec fn spec_roots(&self) -> Seq<RootPeerEntry> {
        self.roots.roots@
    }

    /// Whether this node's identity appears in at least one trusted set.
    pub closed spec fn spec_this_node_in_root_sets(&self) -> bool {
        self.roots.this_node_in_root_sets
    }

    /// Whether the sets changed since the roots were last rebuilt.
    pub closed spec fn spec_sets_modified(&self) -> bool {
        self.roots.sets_modified
    }

    /// Whether the node believes it can talk to at least one root.
    pub closed spec fn spec_online(&self) -> bool {
        self.roots.online
    }

    /// The address of the current best root, if any.
    pub closed spec fn spec_best_root(&self) -> Option<Address> {
        self.best_root
    }

    /// The queued identity lookups.
    pub closed spec fn spec_whois_queue(&self) -> Seq<WhoisQueueItem> {
        self.whois_queue@
    }

    /// When the root-sync gate last fired.
    pub closed spec fn spec_root_sync_last(&self) -> i64 {
        self.intervals.root_sync.spec_last()
    }

    /// When the root-HELLO gate last fired.
    pub closed spec fn spec_root_hello_last(&self) -> i64 {
        self.intervals.root_hello.spec_last()
    }

    /// When the offline HELLO-spam gate last fired.
    pub closed spec fn spec_root_spam_hello_last(&self) -> i64 {
        self.intervals.root_spam_hello.spec_last()
    }

    /// When the peer-service gate last fired.
    pub closed spec fn spec_peer_service_last(&self) -> i64 {
        self.intervals.peer_service.spec_last()
    }

    /// When the path-service gate last fired.
    pub closed spec fn spec_path_service_last(&self) -> i64 {
        self.intervals.path_service.spec_last()
    }

    /// When the WHOIS-retry gate last fired.
    pub closed spec fn spec_whois_retry_last(&self) -> i64 {
        self.intervals.whois_queue_retry.spec_last()
    }

    /// Whether a tick at `t` runs the root sync.
    pub open spec fn root_sync_due(&self, t: i64) -> bool {
        t - self.spec_root_sync_last() >= ROOT_SYNC_INTERVAL_MS
    }

    /// Whether a tick at `t` reaches the regular HELLO cadence.
    pub open spec fn root_hello_due(&self, t: i64) -> bool {
        t - self.spec_root_hello_last() >= ROOT_HELLO_INTERVAL
    }

    /// Whether a tick at `t` reaches the offline HELLO-spam cadence (the
    /// spam only goes out while the node is offline).
    pub open spec fn root_spam_hello_due(&self, t: i64) -> bool {
        t - self.spec_root_spam_hello_last() >= ROOT_HELLO_SPAM_INTERVAL
    }

    /// Whether a tick at `t` runs the peer sweep.
    pub open spec fn peer_service_due(&self, t: i64) -> bool {
        t - self.spec_peer_service_last() >= PEER_SERVICE_INTERVAL_MS
    }

    /// Whether a tick at `t` runs the path sweep.
    pub open spec fn path_service_due(&self, t: i64) -> bool {
        t - self.spec_path_service_last() >= PATH_SERVICE_INTERVAL_MS
    }

    /// Whether a tick at `t` runs the WHOIS retry sweep.
    pub open spec fn whois_retry_due(&self, t: i64) -> bool {
        t - self.spec_whois_retry_last() >= WHOIS_RETRY_INTERVAL
    }

    /// The node's structural invariant: unique keys in every table, roots
    /// backed by peers, and all bookkeeping in range.
    pub closed spec fn wf(&self) -> bool {
        &&& self.identity.wf()
        &&& self.identity.keys_valid
        &&& self.intervals.root_sync.wf()
        &&& self.intervals.root_hello.wf()
        &&& self.intervals.root_spam_hello.wf()
        &&& self.intervals.peer_service.wf()
        &&& self.intervals.path_service.wf()
        &&& self.intervals.whois_queue_retry.wf()
        &&& self.intervals.root_sync.spec_freq() == ROOT_SYNC_INTERVAL_MS
        &&& self.intervals.root_hello.spec_freq() == ROOT_HELLO_INTERVAL
        &&& self.intervals.root_spam_hello.spec_freq() == ROOT_HELLO_SPAM_INTERVAL
        &&& self.intervals.peer_service.spec_freq() == PEER_SERVICE_INTERVAL_MS
        &&& self.intervals.path_service.spec_freq() == PATH_SERVICE_INTERVAL_MS
        &&& self.intervals.whois_queue_retry.spec_freq() == WHOIS_RETRY_INTERVAL
        &&& paths_canonical(self.paths@)
        &&& peers_unique(self.peers@)
        &&& sets_unique(self.roots.sets@)
        &&& roots_unique(self.roots.roots@)
        &&& roots_backed(self.roots.roots@, self.peers@)
        &&& match self.best_root {
            Some(a) => is_root_address(self.roots.roots@, a),
            None => true,
        }
        &&& whois_queue_wf(self.whois_queue@)
    }

    /// A fresh node with the given identity and instance id and empty
    /// tables. Loading or generating the identity is the embedding's step
    /// before this one.
    pub fn new(identity: Identity, instance_id: [u8; 16]) -> (r: Node)
        requires
            identity.wf(),
            identity.keys_valid,
        ensures
            r.wf(),
            r.spec_identity() == identity,
            r.spec_instance_id() == instance_id@,
            r.spec_paths() == Seq::<Path>::empty(),
            r.spec_peers() == Seq::<Peer>::empty(),
            r.spec_root_sets() == Seq::<RootSet>::empty(),
            r.spec_roots() == Seq::<RootPeerEntry>::empty(),
            !r.spec_this_node_in_root_sets(),
            !r.spec_sets_modified(),
            !r.spec_online(),
            r.spec_best_root() is None,
            r.spec_whois_queue() == Seq::<WhoisQueueItem>::empty(),
    {
        Node {
            instance_id,
            identity,
            intervals: BackgroundTaskIntervals {
                root_sync: IntervalGate::new(ROOT_SYNC_INTERVAL_MS),
                root_hello: IntervalGate::new(ROOT_HELLO_INTERVAL),
                root_spam_hello: IntervalGate::new(ROOT_HELLO_SPAM_INTERVAL),
                peer_service: IntervalGate::new(PEER_SERVICE_INTERVAL_MS),
                path_service: IntervalGate::new(PATH_SERVICE_INTERVAL_MS),
                whois_queue_retry: IntervalGate::new(WHOIS_RETRY_INTERVAL),
            },
            paths: Vec::new(),
            peers: Vec::new(),
            roots: RootInfo {
                sets: Vec::new(),
                roots: Vec::new(),
                this_node_in_root_sets: false,
                sets_modified: false,
                online: false,
            },
            best_root: None,
            whois_queue: Vec::new(),
        }
    }

    /// This node's identity.
    pub fn identity(&self) -> (r: Identity)
        ensures
            r == self.spec_identity(),
    {
        self.identity
    }

    /// The random id distinguishing this running instance.
    pub fn instance_id(&self) -> (r: [u8; 16])
        ensures
            r@ == self.spec_instance_id(),
    {
        self.instance_id
    }

    /// The index of the peer with address `a`, if one exists.
    fn find_peer_index(&self, a: Address) -> (r: Option<usize>)
        ensures
            match r {
                Some(j) => 0 <= j < self.spec_peers().len() && self.spec_peers()[j as int].spec_identity().address == a,
                None => !has_peer_with_address(self.spec_peers(), a),
            },
    {
        let mut i: usize = 0;
        while i < self.peers.len()
            invariant
                i <= self.peers@.len(),
                forall|j: int|
                    0 <= j < i ==> (#[trigger] self.peers@[j]).spec_identity().address != a,
            decreases self.peers@.len() - i,
        {
            if self.peers[i].identity().address == a {
                return Some(i);
            }
            i = i + 1;
        }
        None
    }

    /// A snapshot of the peer at address `a`, a cheap shared read.
    pub fn peer(&self, a: Address) -> (r: Option<Peer>)
        requires
            self.wf(),
        ensures
            match r {
                Some(p) => has_peer_with_address(self.spec_peers(), a) && p == peer_with_address(
                    self.spec_peers(),
                    a,
                ),
                None => !has_peer_with_address(self.spec_peers(), a),
            },
    {
        match self.find_peer_index(a) {
            Some(i) => {
                let p = self.peers[i];
                proof {
                    let k = choose|j: int|
                        0 <= j < self.peers@.len() && self.peers@[j].spec_identity().address == a;
                    assert(k == i as int);
                }
                Some(p)
            },
            None => None,
        }
    }

    /// Whether this node can currently talk to at least one root.
    pub fn is_online(&self) -> (r: bool)
        ensures
            r == self.spec_online(),
    {
        self.roots.online
    }

    /// A snapshot of the current best root peer, if one is elected.
    pub fn best_root(&self) -> (r: Option<Peer>)
        requires
            self.wf(),
        ensures
            match self.spec_best_root() {
                Some(a) => r matches Some(p) && has_peer_with_address(self.spec_peers(), a) && p
                    == peer_with_address(self.spec_peers(), a),
                None => r is None,
            },
    {
        match self.best_root {
            Some(a) => {
                proof {
                    let i = choose|i: int|
                        0 <= i < self.roots.roots@.len() && self.roots.roots@[i].identity.address
                            == a;
                    assert(exists|j: int|
                        0 <= j < self.peers@.len() && (#[trigger] self.peers@[j]).spec_identity()
                            == self.roots.roots@[i].identity);
                }
                self.peer(a)
            },
            None => None,
        }
    }

    /// Whether a peer is a root according to any trusted root set.
    pub fn is_peer_root(&self, peer: &Peer) -> (r: bool)
        requires
            self.wf(),
        ensures
            r == is_root_identity(self.spec_roots(), peer.spec_identity()),
    {
        let mut i: usize = 0;
        while i < self.roots.roots.len()
            invariant
                i <= self.roots.roots@.len(),
                forall|j: int|
                    0 <= j < i ==> (#[trigger] self.roots.roots@[j]).identity
                        != peer.spec_identity(),
            decreases self.roots.roots@.len() - i,
        {
            if self.roots.roots[i].identity == peer.identity() {
                return true;
            }
            i = i + 1;
        }
        false
    }

    /// Whether this node is a member of a root set it trusts.
    pub fn this_node_is_root(&self) -> (r: bool)
        ensures
            r == self.spec_this_node_in_root_sets(),
    {
        self.roots.this_node_in_root_sets
    }

    /// The index of the trusted set with this name, if any.
    fn find_root_set_index(&self, name: &String) -> (r: Option<usize>)
        ensures
            match r {
                Some(j) => 0 <= j < self.spec_root_sets().len() && self.spec_root_sets()[j as int].name@ == name@,
                None => forall|j: int|
                    0 <= j < self.spec_root_sets().len() ==> (
                    #[trigger] self.spec_root_sets()[j]).name@ != name@,
            },
    {
        let mut i: usize = 0;
        while i < self.roots.sets.len()
            invariant
                i <= self.roots.sets@.len(),
                forall|j: int| 0 <= j < i ==> (#[trigger] self.roots.sets@[j]).name@ != name@,
            decreases self.roots.sets@.len() - i,
        {
            if self.roots.sets[i].name == *name {
                return Some(i);
            }
            i = i + 1;
        }
        None
    }

    /// Apply a root set update received from the network. It is accepted
    /// only if a set of that name already exists, the sender is a current
    /// member of it, and the new set replaces it by revision: updates from
    /// the wire can rotate existing trust roots but never add new ones.
    pub fn remote_update_root_set(&mut self, received_from: &Identity, rs: RootSet)
        requires
            old(self).wf(),
        ensures
            final(self).wf(),
            same_identity(*old(self), *final(self)),
            gates_unchanged(*old(self), *final(self)),
            // never a new set: the names are exactly the old ones
            final(self).spec_root_sets().len() == old(self).spec_root_sets().len(),
            forall|i: int|
                0 <= i < final(self).spec_root_sets().len() ==> (
                #[trigger] final(self).spec_root_sets()[i]).name@ == old(self).spec_root_sets()[i].name@,
            // accepted exactly under the three conditions, replacing that set
            ({
                let sets = old(self).spec_root_sets();
                if exists|i: int|
                    0 <= i < sets.len() && (#[trigger] sets[i]).name@ == rs.name@ && (exists|j: int|
                        0 <= j < sets[i].members@.len() && sets[i].members@[j].identity
                            == *received_from) && rs.spec_should_replace(sets[i]) {
                    let i = choose|i: int| 0 <= i < sets.len() && (#[trigger] sets[i]).name@
                        == rs.name@;
                    final(self).spec_root_sets() == sets.update(i, rs) && final(self).spec_sets_modified()
                } else {
                    *final(self) == *old(self)
                }
            }),
            // nothing else moves
            final(self).spec_roots() == old(self).spec_roots(),
            final(self).spec_peers() == old(self).spec_peers(),
            final(self).spec_paths() == old(self).spec_paths(),
            final(self).spec_best_root() == old(self).spec_best_root(),
            final(self).spec_online() == old(self).spec_online(),
            final(self).spec_whois_queue() == old(self).spec_whois_queue(),
            final(self).spec_this_node_in_root_sets() == old(self).spec_this_node_in_root_sets(),
    {
        match self.find_root_set_index(&rs.name) {
            Some(i) => {
                let accept = self.roots.sets[i].has_member(received_from) && rs.should_replace(
                    &self.roots.sets[i],
                );
                if accept {
                    let ghost old_sets = self.roots.sets@;
                    self.roots.sets[i] = rs;
                    self.roots.sets_modified = true;
                    proof {
                        assert(self.roots.sets@[i as int].name@ == old_sets[i as int].name@);
                        assert(forall|k: int|
                            0 <= k < self.roots.sets@.len() && k != i as int
                                ==> (#[trigger] self.roots.sets@[k]).name@ == old_sets[k].name@);
                        let sets = old(self).spec_root_sets();
                        let k = choose|k: int| 0 <= k < sets.len() && (#[trigger] sets[k]).name@
                            == rs.name@;
                        assert(k == i as int);
                    }
                }
            },
            None => {},
        }
    }

    /// Add a new root set, or replace the set of the same name if the new
    /// one is newer. Answers whether anything changed.
    pub fn add_update_root_set(&mut self, rs: RootSet) -> (r: bool)
        requires
            old(self).wf(),
        ensures
            final(self).wf(),
            same_identity(*old(self), *final(self)),
            gates_unchanged(*old(self), *final(self)),
            ({
                let sets = old(self).spec_root_sets();
                if exists|i: int| 0 <= i < sets.len() && (#[trigger] sets[i]).name@ == rs.name@ {
                    let i = choose|i: int| 0 <= i < sets.len() && (#[trigger] sets[i]).name@
                        == rs.name@;
                    if rs.spec_should_replace(sets[i]) {
                        r && final(self).spec_root_sets() == sets.update(i, rs) && final(self).spec_sets_modified()
                    } else {
                        !r && *final(self) == *old(self)
                    }
                } else {
                    r && final(self).spec_root_sets() == sets.push(rs) && final(self).spec_sets_modified()
                }
            }),
            // nothing else moves
            final(self).spec_roots() == old(self).spec_roots(),
            final(self).spec_peers() == old(self).spec_peers(),
            final(self).spec_paths() == old(self).spec_paths(),
            final(self).spec_best_root() == old(self).spec_best_root(),
            final(self).spec_online() == old(self).spec_online(),
            final(self).spec_whois_queue() == old(self).spec_whois_queue(),
            final(self).spec_this_node_in_root_sets() == old(self).spec_this_node_in_root_sets(),
    {
        match self.find_root_set_index(&rs.name) {
            Some(i) => {
                proof {
                    let sets = old(self).spec_root_sets();
                    let k = choose|k: int| 0 <= k < sets.len() && (#[trigger] sets[k]).name@
                        == rs.name@;
                    assert(k == i as int);
                }
                if rs.should_replace(&self.roots.sets[i]) {
                    self.roots.sets[i] = rs;
                    self.roots.sets_modified = true;
                    true
                } else {
                    false
                }
            },
            None => {
                self.roots.sets.push(rs);
                self.roots.sets_modified = true;
                true
            },
        }
    }

    /// Whether any trusted root set actually names members.
    pub fn has_roots_defined(&self) -> (r: bool)
        ensures
            r == exists|i: int|
                0 <= i < self.spec_root_sets().len() && (
                #[trigger] self.spec_root_sets()[i]).members@.len() > 0,
    {
        let mut i: usize = 0;
        while i < self.roots.sets.len()
            invariant
                i <= self.roots.sets@.len(),
                forall|j: int|
                    0 <= j < i ==> (#[trigger] self.roots.sets@[j]).members@.len() == 0,
            decreases self.roots.sets@.len() - i,
        {
            if self.roots.sets[i].members.len() > 0 {
                proof {
                    assert(self.spec_root_sets()[i as int].members@.len() > 0);
                }
                return true;
            }
            i = i + 1;
        }
        false
    }

    /// Adopt `default_set` if no root set with members is defined yet;
    /// otherwise do nothing. The embedding supplies the built-in default
    /// (its serialized form lives outside this library).
    pub fn init_default_roots(&mut self, default_set: RootSet) -> (r: bool)
        requires
            old(self).wf(),
        ensures
            final(self).wf(),
            same_identity(*old(self), *final(self)),
            gates_unchanged(*old(self), *final(self)),
            (exists|i: int|
                0 <= i < old(self).spec_root_sets().len() && (
                #[trigger] old(self).spec_root_sets()[i]).members@.len() > 0) ==> !r && *final(self)
                == *old(self),
            !(exists|i: int|
                0 <= i < old(self).spec_root_sets().len() && (
                #[trigger] old(self).spec_root_sets()[i]).members@.len() > 0) ==> ({
                let sets = old(self).spec_root_sets();
                if exists|i: int| 0 <= i < sets.len() && (#[trigger] sets[i]).name@
                    == default_set.name@ {
                    let i = choose|i: int| 0 <= i < sets.len() && (#[trigger] sets[i]).name@
                        == default_set.name@;
                    if default_set.spec_should_replace(sets[i]) {
                        r && final(self).spec_root_sets() == sets.update(i, default_set) && final(self).spec_sets_modified()
                    } else {
                        !r && final(self).spec_root_sets() == sets
                    }
                } else {
                    r && final(self).spec_root_sets() == sets.push(default_set) && final(self).spec_sets_modified()
                }
            }) && final(self).spec_roots() == old(self).spec_roots() && final(self).spec_peers()
                == old(self).spec_peers() && final(self).spec_paths() == old(self).spec_paths()
                && final(self).spec_best_root() == old(self).spec_best_root() && final(self).spec_online() == old(self).spec_online() && final(self).spec_whois_queue() == old(self).spec_whois_queue(),
    {
        if !self.has_roots_defined() {
            self.add_update_root_set(default_set)
        } else {
            false
        }
    }

    /// Snapshots of the trusted root sets.
    pub fn root_sets(&self) -> (r: Vec<RootSet>)
        ensures
            r@.len() == self.spec_root_sets().len(),
            forall|i: int|
                0 <= i < r@.len() ==> same_root_set(#[trigger] r@[i], self.spec_root_sets()[i]),
    {
        let mut out: Vec<RootSet> = Vec::new();
        let mut i: usize = 0;
        while i < self.roots.sets.len()
            invariant
                i <= self.roots.sets@.len(),
                out@.len() == i,
                forall|j: int|
                    0 <= j < i ==> same_root_set(#[trigger] out@[j], self.roots.sets@[j]),
            decreases self.roots.sets@.len() - i,
        {
            out.push(self.roots.sets[i].clone());
            i = i + 1;
        }
        out
    }
}

/// The bounded waiting ring: a new packet drops the oldest when full.
pub open spec fn ring_push(ring: Seq<WaitingPacket>, p: WaitingPacket) -> Seq<WaitingPacket> {
    if ring.len() >= WHOIS_MAX_WAITING_PACKETS {
        ring.subrange(1, ring.len() as int).push(p)
    } else {
        ring.push(p)
    }
}

/// Whether `paths[i]` is keyed by (`ep`, `ls`).
pub open spec fn path_matches(paths: Seq<Path>, i: int, ep: Endpoint, ls: LocalSocket) -> bool {
    0 <= i < paths.len() && paths[i].spec_endpoint() == ep && paths[i].spec_local_socket() == ls
}

/// What a well-formed node guarantees of its tables, for callers: the path
/// table is canonical (at most one path per (endpoint, local socket)
/// pair), peer addresses are unique, set names are unique, root addresses
/// are unique and each root is backed by a peer of the same identity, the
/// best root when elected is one of the roots, and the WHOIS queue holds
/// each address once with a bounded ring.
pub proof fn lemma_wf_tables(n: &Node)
    requires
        n.wf(),
    ensures
        paths_canonical(n.spec_paths()),
        peers_unique(n.spec_peers()),
        sets_unique(n.spec_root_sets()),
        roots_unique(n.spec_roots()),
        roots_backed(n.spec_roots(), n.spec_peers()),
        n.spec_best_root() matches Some(a) ==> is_root_address(n.spec_roots(), a),
        whois_queue_wf(n.spec_whois_queue()),
{
}

/// Path canonicalization: in a canonical table at most one path exists for
/// any (endpoint, local socket) pair, so every lookup of that pair answers
/// the same path object until a sweep removes it.
pub proof fn lemma_canonical_path_unique(paths: Seq<Path>, ep: Endpoint, ls: LocalSocket, i: int, j: int)
    requires
        paths_canonical(paths),
        path_matches(paths, i, ep, ls),
        path_matches(paths, j, ep, ls),
    ensures
        i == j,
{
    if i < j {
        assert(!(paths[i].spec_endpoint() == paths[j].spec_endpoint()
            && paths[i].spec_local_socket() == paths[j].spec_local_socket()));
    } else if j < i {
        assert(!(paths[j].spec_endpoint() == paths[i].spec_endpoint()
            && paths[j].spec_local_socket() == paths[i].spec_local_socket()));
    }
}

impl Node {
    /// The canonical path for an (endpoint, local socket) pair, as an index
    /// into the path table: the existing entry on a hit, a freshly inserted
    /// one on a miss.
    pub fn canonical_path(
        &mut self,
        ep: &Endpoint,
        local_socket: LocalSocket,
        local_interface: LocalInterface,
        time_ticks: i64,
    ) -> (r: usize)
        requires
            old(self).wf(),
            0 <= time_ticks <= TICKS_MAX,
        ensures
            final(self).wf(),
            same_identity(*old(self), *final(self)),
            gates_unchanged(*old(self), *final(self)),
            r < final(self).spec_paths().len(),
            path_matches(final(self).spec_paths(), r as int, *ep, local_socket),
            (exists|i: int| path_matches(old(self).spec_paths(), i, *ep, local_socket)) ==> {
                &&& final(self).spec_paths() == old(self).spec_paths()
                &&& path_matches(old(self).spec_paths(), r as int, *ep, local_socket)
            },
            !(exists|i: int| path_matches(old(self).spec_paths(), i, *ep, local_socket)) ==> {
                &&& final(self).spec_paths().len() == old(self).spec_paths().len() + 1
                &&& r as int == old(self).spec_paths().len()
                &&& forall|i: int|
                    0 <= i < old(self).spec_paths().len() ==> final(self).spec_paths()[i] == old(self).spec_paths()[i]
                &&& final(self).spec_paths()[r as int].spec_created() == time_ticks
                &&& final(self).spec_paths()[r as int].spec_last_receive() == time_ticks
                &&& final(self).spec_paths()[r as int].spec_local_interface() == local_interface
                &&& final(self).spec_paths()[r as int].spec_fragged().spec_counter() == 0
                &&& final(self).spec_paths()[r as int].spec_fragged().slots() =~= empty_slots()
            },
            final(self).spec_peers() == old(self).spec_peers(),
            final(self).spec_root_sets() == old(self).spec_root_sets(),
            final(self).spec_roots() == old(self).spec_roots(),
            final(self).spec_best_root() == old(self).spec_best_root(),
            final(self).spec_online() == old(self).spec_online(),
            final(self).spec_whois_queue() == old(self).spec_whois_queue(),
            final(self).spec_sets_modified() == old(self).spec_sets_modified(),
            final(self).spec_this_node_in_root_sets() == old(self).spec_this_node_in_root_sets(),
    {
        match self.find_path_index(ep, local_socket) {
            Some(i) => {
                proof {
                    assert(path_matches(self.paths@, i as int, *ep, local_socket));
                }
                i
            },
            None => {
                proof {
                    assert forall|j: int| !path_matches(self.paths@, j, *ep, local_socket) by {
                        assert(!path_matches(self.spec_paths(), j, *ep, local_socket));
                    }
                }
                let ghost pre = self.paths@;
                let r = self.paths.len();
                self.paths.push(Path::new(*ep, local_socket, local_interface, time_ticks));
                proof {
                    assert(forall|j: int| 0 <= j < pre.len() ==> self.paths@[j] == pre[j]);
                    assert forall|a: int, b: int| 0 <= a < b < self.paths@.len() implies !((
                    #[trigger] self.paths@[a]).spec_endpoint() == (
                    #[trigger] self.paths@[b]).spec_endpoint() && self.paths@[
                        a
                    ].spec_local_socket() == self.paths@[b].spec_local_socket()) by {
                        if b == r as int {
                            assert(!path_matches(pre, a, *ep, local_socket));
                            assert(self.paths@[a] == pre[a]);
                        } else {
                            assert(pre[a] == self.paths@[a]);
                            assert(pre[b] == self.paths@[b]);
                        }
                    }
                    assert(paths_canonical(self.paths@));
                }
                r
            },
        }
    }

    /// The index of the path keyed by (`ep`, `ls`), if one exists.
    fn find_path_index(&self, ep: &Endpoint, ls: LocalSocket) -> (r: Option<usize>)
        ensures
            match r {
                Some(j) => path_matches(self.spec_paths(), j as int, *ep, ls),
                None => forall|j: int| !path_matches(self.spec_paths(), j, *ep, ls),
            },
    {
        let mut i: usize = 0;
        while i < self.paths.len()
            invariant
                i <= self.paths@.len(),
                forall|j: int| 0 <= j < i ==> !path_matches(self.paths@, j, *ep, ls),
            decreases self.paths@.len() - i,
        {
            if self.paths[i].endpoint() == *ep && self.paths[i].local_socket() == ls {
                proof {
                    assert(path_matches(self.paths@, i as int, *ep, ls));
                }
                return Some(i);
            }
            i = i + 1;
        }
        None
    }

    /// The WHOIS request to the current best root for these addresses, or
    /// nothing when no best root is elected (lookups then wait for the
    /// retry sweep).
    fn send_whois(&self, addresses: Vec<Address>) -> (r: Option<WhoisRequest>)
        ensures
            match self.spec_best_root() {
                Some(root) => r matches Some(w) && w.root == root && w.addresses@ == addresses@,
                None => r is None,
            },
    {
        match self.best_root {
            Some(root) => Some(WhoisRequest { root, addresses }),
            None => None,
        }
    }

    /// The index of the queued lookup for `a`, if any.
    fn find_whois_index(&self, a: Address) -> (r: Option<usize>)
        ensures
            match r {
                Some(j) => 0 <= j < self.spec_whois_queue().len() && self.spec_whois_queue()[
                    j as int
                ].address == a,
                None => forall|j: int|
                    0 <= j < self.spec_whois_queue().len() ==> (
                    #[trigger] self.spec_whois_queue()[j]).address != a,
            },
    {
        let mut i: usize = 0;
        while i < self.whois_queue.len()
            invariant
                i <= self.whois_queue@.len(),
                forall|j: int| 0 <= j < i ==> (#[trigger] self.whois_queue@[j]).address != a,
            decreases self.whois_queue@.len() - i,
        {
            if self.whois_queue[i].address == a {
                return Some(i);
            }
            i = i + 1;
        }
        None
    }

    /// Queue an identity lookup for `address`, attaching `waiting_packet`
    /// to be re-injected once the identity resolves (the ring drops its
    /// oldest packet when full). The first enqueue for an address emits a
    /// WHOIS request to the best root at once; later ones only queue.
    pub fn whois(&mut self, address: Address, waiting_packet: Option<WaitingPacket>) -> (r: Option<
        WhoisRequest,
    >)
        requires
            old(self).wf(),
        ensures
            final(self).wf(),
            same_identity(*old(self), *final(self)),
            gates_unchanged(*old(self), *final(self)),
            ({
                let q = old(self).spec_whois_queue();
                let packet_seq = match waiting_packet {
                    Some(p) => Seq::<WaitingPacket>::empty().push(p),
                    None => Seq::<WaitingPacket>::empty(),
                };
                if exists|i: int| 0 <= i < q.len() && (#[trigger] q[i]).address == address {
                    let i = choose|i: int| 0 <= i < q.len() && (#[trigger] q[i]).address
                        == address;
                    let rung = match waiting_packet {
                        Some(p) => ring_push(q[i].waiting_packets@, p),
                        None => q[i].waiting_packets@,
                    };
                    &&& final(self).spec_whois_queue().len() == q.len()
                    &&& final(self).spec_whois_queue()[i].address == address
                    &&& final(self).spec_whois_queue()[i].waiting_packets@ == rung
                    &&& forall|k: int|
                        0 <= k < q.len() && k != i ==> final(self).spec_whois_queue()[k] == q[k]
                    &&& if q[i].retry_count == 0 {
                        final(self).spec_whois_queue()[i].retry_count == 1 && (match old(self).spec_best_root() {
                            Some(root) => r matches Some(w) && w.root == root && w.addresses@
                                == Seq::<Address>::empty().push(address),
                            None => r is None,
                        })
                    } else {
                        final(self).spec_whois_queue()[i].retry_count == q[i].retry_count && r
                            is None
                    }
                } else {
                    &&& final(self).spec_whois_queue().len() == q.len() + 1
                    &&& forall|k: int|
                        0 <= k < q.len() ==> final(self).spec_whois_queue()[k] == q[k]
                    &&& final(self).spec_whois_queue()[q.len() as int].address == address
                    &&& final(self).spec_whois_queue()[q.len() as int].waiting_packets@
                        == packet_seq
                    &&& final(self).spec_whois_queue()[q.len() as int].retry_count == 1
                    &&& match old(self).spec_best_root() {
                        Some(root) => r matches Some(w) && w.root == root && w.addresses@
                            == Seq::<Address>::empty().push(address),
                        None => r is None,
                    }
                }
            }),
            final(self).spec_paths() == old(self).spec_paths(),
            final(self).spec_peers() == old(self).spec_peers(),
            final(self).spec_root_sets() == old(self).spec_root_sets(),
            final(self).spec_roots() == old(self).spec_roots(),
            final(self).spec_best_root() == old(self).spec_best_root(),
            final(self).spec_online() == old(self).spec_online(),
            final(self).spec_sets_modified() == old(self).spec_sets_modified(),
            final(self).spec_this_node_in_root_sets() == old(self).spec_this_node_in_root_sets(),
    {
        let send_now: bool;
        match self.find_whois_index(address) {
            Some(i) => {
                proof {
                    let q = old(self).spec_whois_queue();
                    let k = choose|k: int| 0 <= k < q.len() && (#[trigger] q[k]).address
                        == address;
                    assert(k == i as int);
                }
                match waiting_packet {
                    Some(p) => {
                        if self.whois_queue[i].waiting_packets.len() >= WHOIS_MAX_WAITING_PACKETS {
                            let entry = &mut self.whois_queue[i];
                            entry.waiting_packets.remove(0);
                            entry.waiting_packets.push(p);
                        } else {
                            let entry = &mut self.whois_queue[i];
                            entry.waiting_packets.push(p);
                        }
                    },
                    None => {},
                }
                if self.whois_queue[i].retry_count > 0 {
                    send_now = false;
                } else {
                    let entry = &mut self.whois_queue[i];
                    entry.retry_count = 1;
                    send_now = true;
                }
            },
            None => {
                let mut waiting_packets: Vec<WaitingPacket> = Vec::new();
                match waiting_packet {
                    Some(p) => {
                        waiting_packets.push(p);
                    },
                    None => {},
                }
                self.whois_queue.push(
                    WhoisQueueItem { address, waiting_packets, retry_count: 1 },
                );
                send_now = true;
            },
        }
        if send_now {
            let mut addresses: Vec<Address> = Vec::new();
            addresses.push(address);
            self.send_whois(addresses)
        } else {
            None
        }
    }

    /// Resolve a queued lookup: make the identity's peer known (unless a
    /// peer already sits at that address or the identity is unusable) and
    /// hand back the packets that were waiting on it, for re-injection
    /// into the ingress dispatcher.
    #[verifier::rlimit(50)]
    pub fn resolve_whois(&mut self, identity: Identity, time_ticks: i64) -> (r: Vec<WaitingPacket>)
        requires
            old(self).wf(),
            0 <= time_ticks <= TICKS_MAX,
        ensures
            final(self).wf(),
            same_identity(*old(self), *final(self)),
            gates_unchanged(*old(self), *final(self)),
            // the entry for this address, if any, is gone and its packets
            // are handed back
            forall|k: int|
                0 <= k < final(self).spec_whois_queue().len() ==> (
                #[trigger] final(self).spec_whois_queue()[k]).address != identity.address,
            forall|i: int|
                0 <= i < old(self).spec_whois_queue().len() && (
                #[trigger] old(self).spec_whois_queue()[i]).address == identity.address ==> r@
                    == old(self).spec_whois_queue()[i].waiting_packets@ && final(self).spec_whois_queue().len() == old(self).spec_whois_queue().len() - 1,
            (forall|i: int|
                0 <= i < old(self).spec_whois_queue().len() ==> (
                #[trigger] old(self).spec_whois_queue()[i]).address != identity.address) ==> r@.len()
                == 0 && final(self).spec_whois_queue() == old(self).spec_whois_queue(),
            // afterwards a peer answers for the address whenever the
            // identity was usable
            Peer::spec_constructible(identity) ==> has_peer_with_address(
                final(self).spec_peers(),
                identity.address,
            ),
            has_peer_with_address(old(self).spec_peers(), identity.address) ==> final(self).spec_peers() == old(self).spec_peers(),
            final(self).spec_paths() == old(self).spec_paths(),
            final(self).spec_root_sets() == old(self).spec_root_sets(),
            final(self).spec_roots() == old(self).spec_roots(),
            final(self).spec_best_root() == old(self).spec_best_root(),
            final(self).spec_online() == old(self).spec_online(),
            final(self).spec_sets_modified() == old(self).spec_sets_modified(),
            final(self).spec_this_node_in_root_sets() == old(self).spec_this_node_in_root_sets(),
    {
        match self.find_peer_index(identity.address) {
            Some(j) => {
                proof {
                    assert(self.peers@[j as int].spec_identity().address == identity.address);
                    assert(has_peer_with_address(self.peers@, identity.address));
                }
            },
            None => {
                match Peer::new(identity, time_ticks) {
                    Some(p) => {
                        self.peers.push(p);
                        proof {
                            assert(self.peers@[self.peers@.len() - 1].spec_identity().address
                                == identity.address);
                            assert(has_peer_with_address(self.peers@, identity.address));
                        }
                        proof {
                            assert(peers_unique(self.peers@));
                            assert forall|i: int| 0 <= i < self.roots.roots@.len() implies peer_backs(
                                self.peers@,
                                (#[trigger] self.roots.roots@[i]).identity,
                            ) by {
                                assert(roots_backed(old(self).roots.roots@, old(self).peers@));
                                assert(old(self).roots.roots@[i] == self.roots.roots@[i]);
                                assert(peer_backs(
                                    old(self).peers@,
                                    old(self).roots.roots@[i].identity,
                                ));
                                let j = choose|j: int|
                                    0 <= j < old(self).peers@.len() && (#[trigger] old(self).peers@[j]).spec_identity() == old(self).roots.roots@[
                                        i
                                    ].identity;
                                assert(self.peers@[j] == old(self).peers@[j]);
                                assert(0 <= j < self.peers@.len() && self.peers@[
                                    j
                                ].spec_identity() == self.roots.roots@[i].identity);
                            }
                            assert(roots_backed(self.roots.roots@, self.peers@));
                        }
                    },
                    None => {},
                }
            },
        }
        match self.find_whois_index(identity.address) {
            Some(i) => {
                proof {
                    let q = old(self).spec_whois_queue();
                    let k = choose|k: int| 0 <= k < q.len() && (#[trigger] q[k]).address
                        == identity.address;
                    assert(k == i as int);
                }
                let entry = self.whois_queue.remove(i);
                proof {
                    assert(entry.waiting_packets@ == old(self).spec_whois_queue()[
                        i as int
                    ].waiting_packets@);
                    assert forall|i2: int|
                        0 <= i2 < old(self).spec_whois_queue().len() && (#[trigger] old(self).spec_whois_queue()[i2]).address == identity.address implies i2
                        == i as int by {}
                }
                entry.waiting_packets
            },
            None => Vec::new(),
        }
    }

    /// The HELLO reply recency of the peer backing root entry `i` (zero if
    /// no peer backs it, which `wf` rules out).
    pub open spec fn root_reply(&self, i: int) -> i64 {
        if has_peer_with_address(self.spec_peers(), self.spec_roots()[i].identity.address) {
            peer_with_address(
                self.spec_peers(),
                self.spec_roots()[i].identity.address,
            ).spec_last_hello_reply()
        } else {
            0
        }
    }

    /// The greatest HELLO reply recency among root entries below `n`.
    pub open spec fn max_reply_upto(&self, n: int) -> i64
        decreases n,
    {
        if n <= 0 {
            0
        } else if self.root_reply(n - 1) > self.max_reply_upto(n - 1) {
            self.root_reply(n - 1)
        } else {
            self.max_reply_upto(n - 1)
        }
    }

    /// The greatest HELLO reply recency among all roots (zero if none has
    /// ever replied).
    pub open spec fn max_root_reply(&self) -> i64 {
        self.max_reply_upto(self.spec_roots().len() as int)
    }

    /// Elect the best root and settle the online state.
    ///
    /// The best root is the root whose peer answered a HELLO most recently;
    /// roots that never replied do not qualify. The node is online iff such
    /// a root exists and its reply is within twice the HELLO interval.
    /// Exactly one `Online` event is handed back per transition; none when
    /// the state does not change.
    pub fn update_best_root(&mut self, time_ticks: i64) -> (ev: Option<Event>)
        requires
            old(self).wf(),
            0 <= time_ticks <= TICKS_MAX,
        ensures
            final(self).wf(),
            same_identity(*old(self), *final(self)),
            gates_unchanged(*old(self), *final(self)),
            ({
                let m = old(self).max_root_reply();
                let online_now = m > 0 && time_ticks - m < 2 * ROOT_HELLO_INTERVAL;
                &&& (m > 0 <==> final(self).spec_best_root() is Some)
                &&& (final(self).spec_best_root() matches Some(a) ==> exists|i: int|
                    0 <= i < old(self).spec_roots().len() && (
                    #[trigger] old(self).spec_roots()[i]).identity.address == a && old(self).root_reply(i) == m)
                &&& final(self).spec_online() == online_now
                &&& ev == if online_now != old(self).spec_online() {
                    Some(Event::Online(online_now))
                } else {
                    None::<Event>
                }
            }),
            final(self).spec_paths() == old(self).spec_paths(),
            final(self).spec_peers() == old(self).spec_peers(),
            final(self).spec_root_sets() == old(self).spec_root_sets(),
            final(self).spec_roots() == old(self).spec_roots(),
            final(self).spec_whois_queue() == old(self).spec_whois_queue(),
            final(self).spec_sets_modified() == old(self).spec_sets_modified(),
            final(self).spec_this_node_in_root_sets() == old(self).spec_this_node_in_root_sets(),
    {
        let mut best: Option<Address> = None;
        let mut latest: i64 = 0;
        let mut i: usize = 0;
        while i < self.roots.roots.len()
            invariant
                self.wf(),
                i <= self.roots.roots@.len(),
                latest == self.max_reply_upto(i as int),
                0 <= latest <= TICKS_MAX,
                match best {
                    Some(a) => latest > 0 && exists|k: int|
                        0 <= k < i && (#[trigger] self.roots.roots@[k]).identity.address == a
                            && self.root_reply(k) == latest,
                    None => latest == 0,
                },
            decreases self.roots.roots@.len() - i,
        {
            let addr = self.roots.roots[i].identity.address;
            proof {
                assert(peer_backs(self.peers@, self.roots.roots@[i as int].identity));
                let j = choose|j: int|
                    0 <= j < self.peers@.len() && (#[trigger] self.peers@[j]).spec_identity()
                        == self.roots.roots@[i as int].identity;
                assert(self.peers@[j].spec_identity().address == addr);
                assert(has_peer_with_address(self.peers@, addr));
            }
            let t = match self.find_peer_index(addr) {
                Some(j) => {
                    proof {
                        let k = choose|k: int|
                            0 <= k < self.peers@.len() && self.peers@[k].spec_identity().address
                                == addr;
                        assert(k == j as int);
                    }
                    self.peers[j].last_hello_reply()
                },
                None => 0,
            };
            proof {
                assert(t == self.root_reply(i as int));
            }
            if t > latest {
                latest = t;
                best = Some(addr);
                proof {
                    assert(self.roots.roots@[i as int].identity.address == addr
                        && self.root_reply(i as int) == latest);
                }
            }
            i = i + 1;
            proof {
                assert(self.max_reply_upto(i as int) == if self.root_reply(i - 1)
                    > self.max_reply_upto(i - 1) {
                    self.root_reply(i - 1)
                } else {
                    self.max_reply_upto(i - 1)
                });
            }
        }
        proof {
            assert(latest == self.max_root_reply());
        }
        self.best_root = best;
        let online_now = match best {
            Some(_) => time_ticks - latest < 2 * ROOT_HELLO_INTERVAL,
            None => false,
        };
        if online_now != self.roots.online {
            self.roots.online = online_now;
            Some(Event::Online(online_now))
        } else {
            None
        }
    }

    /// Sweep the peer table: drop every peer whose service check fails,
    /// except roots, which stay as long as they are roots.
    pub fn peer_service_sweep(&mut self, time_ticks: i64)
        requires
            old(self).wf(),
            0 <= time_ticks <= TICKS_MAX,
        ensures
            final(self).wf(),
            same_identity(*old(self), *final(self)),
            gates_unchanged(*old(self), *final(self)),
            // every kept-worthy peer survives unchanged
            forall|j: int|
                0 <= j < old(self).spec_peers().len() && keep_peer(
                    #[trigger] old(self).spec_peers()[j],
                    old(self).spec_roots(),
                    time_ticks,
                ) ==> peer_present(final(self).spec_peers(), old(self).spec_peers()[j]),
            // and nothing else is in the table
            forall|k: int|
                0 <= k < final(self).spec_peers().len() ==> peer_kept_from(
                    old(self).spec_peers(),
                    old(self).spec_peers().len() as int,
                    old(self).spec_roots(),
                    time_ticks,
                    #[trigger] final(self).spec_peers()[k],
                ),
            final(self).spec_paths() == old(self).spec_paths(),
            final(self).spec_root_sets() == old(self).spec_root_sets(),
            final(self).spec_roots() == old(self).spec_roots(),
            final(self).spec_best_root() == old(self).spec_best_root(),
            final(self).spec_online() == old(self).spec_online(),
            final(self).spec_whois_queue() == old(self).spec_whois_queue(),
            final(self).spec_sets_modified() == old(self).spec_sets_modified(),
            final(self).spec_this_node_in_root_sets() == old(self).spec_this_node_in_root_sets(),
    {
        let ghost old_peers = self.peers@;
        let mut kept: Vec<Peer> = Vec::new();
        let mut i: usize = 0;
        while i < self.peers.len()
            invariant
                self.wf(),
                self.peers@ == old_peers,
                0 <= time_ticks <= TICKS_MAX,
                i <= old_peers.len(),
                forall|j: int|
                    0 <= j < i && keep_peer(
                        #[trigger] old_peers[j],
                        self.roots.roots@,
                        time_ticks,
                    ) ==> peer_present(kept@, old_peers[j]),
                forall|k: int|
                    0 <= k < kept@.len() ==> peer_kept_from(
                        old_peers,
                        i as int,
                        self.roots.roots@,
                        time_ticks,
                        #[trigger] kept@[k],
                    ),
                peers_unique(kept@),
            decreases old_peers.len() - i,
        {
            let p = self.peers[i];
            let keep = p.service(time_ticks) || self.is_peer_root(&p);
            let ghost pre_kept = kept@;
            if keep {
                proof {
                    assert(keep_peer(old_peers[i as int], self.roots.roots@, time_ticks));
                    assert forall|m: int, n: int| 0 <= m < n < pre_kept.push(p).len() implies (
                    #[trigger] pre_kept.push(p)[m]).spec_identity().address != (
                    #[trigger] pre_kept.push(p)[n]).spec_identity().address by {
                        if n == pre_kept.len() as int {
                            assert(peer_kept_from(
                                old_peers,
                                i as int,
                                self.roots.roots@,
                                time_ticks,
                                pre_kept[m],
                            ));
                            let j = choose|j: int|
                                0 <= j < i && old_peers[j] == pre_kept[m] && keep_peer(
                                    pre_kept[m],
                                    self.roots.roots@,
                                    time_ticks,
                                );
                            assert(old_peers[j].spec_identity().address != old_peers[
                                i as int
                            ].spec_identity().address);
                        }
                    }
                    assert(peers_unique(pre_kept.push(p)));
                }
                kept.push(p);
            } else {
                proof {
                    assert(!keep_peer(old_peers[i as int], self.roots.roots@, time_ticks));
                }
            }
            i = i + 1;
            proof {
                assert forall|j: int|
                    0 <= j < i && keep_peer(
                        #[trigger] old_peers[j],
                        self.roots.roots@,
                        time_ticks,
                    ) implies peer_present(kept@, old_peers[j]) by {
                    if j == i - 1 {
                        assert(kept@[kept@.len() - 1] == old_peers[j]);
                    } else {
                        assert(peer_present(pre_kept, old_peers[j]));
                        let k = choose|k: int|
                            0 <= k < pre_kept.len() && pre_kept[k] == old_peers[j];
                        assert(kept@[k] == old_peers[j]);
                    }
                }
                assert forall|k: int| 0 <= k < kept@.len() implies peer_kept_from(
                    old_peers,
                    i as int,
                    self.roots.roots@,
                    time_ticks,
                    #[trigger] kept@[k],
                ) by {
                    if k < pre_kept.len() {
                        assert(kept@[k] == pre_kept[k]);
                        assert(peer_kept_from(
                            old_peers,
                            i - 1,
                            self.roots.roots@,
                            time_ticks,
                            pre_kept[k],
                        ));
                        let j = choose|j: int|
                            0 <= j < i - 1 && old_peers[j] == pre_kept[k] && keep_peer(
                                pre_kept[k],
                                self.roots.roots@,
                                time_ticks,
                            );
                        assert(0 <= j < i && old_peers[j] == kept@[k] && keep_peer(
                            kept@[k],
                            self.roots.roots@,
                            time_ticks,
                        ));
                    } else {
                        assert(kept@[k] == old_peers[i - 1]);
                        assert(keep_peer(old_peers[i - 1], self.roots.roots@, time_ticks));
                    }
                }
            }
        }
        proof {
            assert(old_peers == old(self).spec_peers());
            // every root keeps its backing peer: root peers always qualify
            assert forall|r: int| 0 <= r < self.roots.roots@.len() implies peer_backs(
                kept@,
                (#[trigger] self.roots.roots@[r]).identity,
            ) by {
                assert(peer_backs(old_peers, self.roots.roots@[r].identity));
                let j = choose|j: int|
                    0 <= j < old_peers.len() && (#[trigger] old_peers[j]).spec_identity()
                        == self.roots.roots@[r].identity;
                assert(is_root_identity(self.roots.roots@, old_peers[j].spec_identity()));
                assert(keep_peer(old_peers[j], self.roots.roots@, time_ticks));
                assert(peer_present(kept@, old_peers[j]));
                let k = choose|k: int| 0 <= k < kept@.len() && kept@[k] == old_peers[j];
                assert(kept@[k].spec_identity() == self.roots.roots@[r].identity);
            }
        }
        self.peers = kept;
    }

    /// Sweep the WHOIS queue: entries past the retry limit are discarded
    /// along with their waiting packets; every surviving entry's retry
    /// count rises by one; the surviving addresses go out in one batched
    /// request to the best root (none if there is no best root or the
    /// queue emptied).
    pub fn whois_retry_sweep(&mut self) -> (r: Option<WhoisRequest>)
        requires
            old(self).wf(),
        ensures
            final(self).wf(),
            same_identity(*old(self), *final(self)),
            gates_unchanged(*old(self), *final(self)),
            // every entry within the retry budget survives, bumped
            forall|j: int|
                0 <= j < old(self).spec_whois_queue().len() && (
                #[trigger] old(self).spec_whois_queue()[j]).retry_count <= WHOIS_RETRY_COUNT_MAX
                    ==> whois_present_bumped(
                    final(self).spec_whois_queue(),
                    old(self).spec_whois_queue()[j],
                ),
            // and nothing else is in the queue
            forall|k: int|
                0 <= k < final(self).spec_whois_queue().len() ==> whois_from(
                    old(self).spec_whois_queue(),
                    0,
                    #[trigger] final(self).spec_whois_queue()[k],
                ),
            // the batched request covers exactly the surviving addresses
            ({
                let q = final(self).spec_whois_queue();
                if q.len() > 0 {
                    match old(self).spec_best_root() {
                        Some(root) => r matches Some(w) && w.root == root && w.addresses@.len()
                            == q.len() && (forall|k: int|
                            0 <= k < q.len() ==> #[trigger] w.addresses@[k] == q[k].address),
                        None => r is None,
                    }
                } else {
                    r is None
                }
            }),
            final(self).spec_paths() == old(self).spec_paths(),
            final(self).spec_peers() == old(self).spec_peers(),
            final(self).spec_root_sets() == old(self).spec_root_sets(),
            final(self).spec_roots() == old(self).spec_roots(),
            final(self).spec_best_root() == old(self).spec_best_root(),
            final(self).spec_online() == old(self).spec_online(),
            final(self).spec_sets_modified() == old(self).spec_sets_modified(),
            final(self).spec_this_node_in_root_sets() == old(self).spec_this_node_in_root_sets(),
    {
        let ghost old_q = self.whois_queue@;
        let mut pending: Vec<WhoisQueueItem> = Vec::new();
        core::mem::swap(&mut pending, &mut self.whois_queue);
        let mut kept: Vec<WhoisQueueItem> = Vec::new();
        let mut need_whois: Vec<Address> = Vec::new();
        while pending.len() > 0
            invariant
                pending@ == old_q.subrange(0, pending@.len() as int),
                pending@.len() <= old_q.len(),
                whois_queue_wf(old_q),
                forall|j: int|
                    pending@.len() <= j < old_q.len() && (#[trigger] old_q[j]).retry_count
                        <= WHOIS_RETRY_COUNT_MAX ==> whois_present_bumped(kept@, old_q[j]),
                forall|k: int|
                    0 <= k < kept@.len() ==> whois_from(
                        old_q,
                        pending@.len() as int,
                        #[trigger] kept@[k],
                    ),
                whois_queue_wf(kept@),
                need_whois@.len() == kept@.len(),
                forall|k: int|
                    0 <= k < kept@.len() ==> #[trigger] need_whois@[k] == kept@[k].address,
            decreases pending@.len(),
        {
            let ghost pre_len = pending@.len() as int;
            let e = match pending.pop() {
                Some(e) => e,
                None => vstd::pervasive::unreached(),
            };
            proof {
                assert(e == old_q[pre_len - 1]);
                assert(pending@ =~= old_q.subrange(0, pending@.len() as int));
            }
            if e.retry_count <= WHOIS_RETRY_COUNT_MAX {
                let bumped = WhoisQueueItem {
                    address: e.address,
                    waiting_packets: e.waiting_packets,
                    retry_count: e.retry_count + 1,
                };
                let ghost pre_kept = kept@;
                proof {
                    assert(whois_bumped(old_q[pre_len - 1], bumped));
                    assert forall|m: int, n: int| 0 <= m < n < pre_kept.push(bumped).len() implies (
                    #[trigger] pre_kept.push(bumped)[m]).address != (#[trigger] pre_kept.push(
                        bumped,
                    )[n]).address by {
                        if n == pre_kept.len() as int {
                            assert(whois_from(old_q, pre_len, pre_kept[m]));
                            let j = choose|j: int|
                                pre_len <= j < old_q.len() && (#[trigger] old_q[j]).retry_count
                                    <= WHOIS_RETRY_COUNT_MAX && whois_bumped(old_q[j], pre_kept[m]);
                            assert(old_q[j].address != old_q[pre_len - 1].address);
                        }
                    }
                    assert forall|m: int|
                        0 <= m < pre_kept.push(bumped).len() implies (#[trigger] pre_kept.push(
                            bumped,
                        )[m]).waiting_packets@.len() <= WHOIS_MAX_WAITING_PACKETS by {
                        if m == pre_kept.len() as int {
                            assert(old_q[pre_len - 1].waiting_packets@.len()
                                <= WHOIS_MAX_WAITING_PACKETS);
                        }
                    }
                    assert(whois_queue_wf(pre_kept.push(bumped)));
                }
                need_whois.push(bumped.address);
                kept.push(bumped);
                proof {
                    assert forall|j: int|
                        pending@.len() <= j < old_q.len() && (#[trigger] old_q[j]).retry_count
                            <= WHOIS_RETRY_COUNT_MAX implies whois_present_bumped(
                        kept@,
                        old_q[j],
                    ) by {
                        if j == pre_len - 1 {
                            assert(whois_bumped(old_q[j], kept@[kept@.len() - 1]));
                        } else {
                            assert(whois_present_bumped(pre_kept, old_q[j]));
                            let k = choose|k: int|
                                0 <= k < pre_kept.len() && whois_bumped(old_q[j], pre_kept[k]);
                            assert(whois_bumped(old_q[j], kept@[k]));
                        }
                    }
                    assert forall|k: int| 0 <= k < kept@.len() implies whois_from(
                        old_q,
                        pending@.len() as int,
                        #[trigger] kept@[k],
                    ) by {
                        if k < pre_kept.len() {
                            assert(kept@[k] == pre_kept[k]);
                            assert(whois_from(old_q, pre_len, pre_kept[k]));
                            let j = choose|j: int|
                                pre_len <= j < old_q.len() && (#[trigger] old_q[j]).retry_count
                                    <= WHOIS_RETRY_COUNT_MAX && whois_bumped(old_q[j], pre_kept[k]);
                            assert(pending@.len() <= j < old_q.len() && old_q[j].retry_count
                                <= WHOIS_RETRY_COUNT_MAX && whois_bumped(old_q[j], kept@[k]));
                        } else {
                            assert(pending@.len() <= pre_len - 1 < old_q.len() && old_q[
                                pre_len - 1
                            ].retry_count <= WHOIS_RETRY_COUNT_MAX && whois_bumped(
                                old_q[pre_len - 1],
                                kept@[k],
                            ));
                        }
                    }
                }
            } else {
                proof {
                    assert forall|k: int| 0 <= k < kept@.len() implies whois_from(
                        old_q,
                        pending@.len() as int,
                        #[trigger] kept@[k],
                    ) by {
                        assert(whois_from(old_q, pre_len, kept@[k]));
                        let j = choose|j: int|
                            pre_len <= j < old_q.len() && (#[trigger] old_q[j]).retry_count
                                <= WHOIS_RETRY_COUNT_MAX && whois_bumped(old_q[j], kept@[k]);
                        assert(pending@.len() <= j < old_q.len() && old_q[j].retry_count
                            <= WHOIS_RETRY_COUNT_MAX && whois_bumped(old_q[j], kept@[k]));
                    }
                }
            }
        }
        self.whois_queue = kept;
        proof {
            assert(old_q == old(self).spec_whois_queue());
            assert(self.whois_queue@ == kept@);
        }
        if need_whois.len() > 0 {
            self.send_whois(need_whois)
        } else {
            None
        }
    }

    /// Sweep the path table: a path whose local socket the host reports
    /// invalid, or that has been silent past expiration, is removed; a
    /// quiet-but-alive path gets a one-byte keepalive datagram, handed back
    /// for the runtime to emit after all locks are released.
    pub fn path_service_sweep<H: HostSystem>(&mut self, host: &H, time_ticks: i64) -> (keepalives:
        Vec<WireSend>)
        requires
            old(self).wf(),
            0 <= time_ticks <= TICKS_MAX,
        ensures
            final(self).wf(),
            same_identity(*old(self), *final(self)),
            gates_unchanged(*old(self), *final(self)),
            // only paths of the old table survive, unchanged, and never a
            // dead one
            forall|k: int|
                0 <= k < final(self).spec_paths().len() ==> path_from(
                    old(self).spec_paths(),
                    0,
                    time_ticks,
                    #[trigger] final(self).spec_paths()[k],
                ),
            // a dead path never survives, whatever the host answered
            forall|j: int|
                0 <= j < old(self).spec_paths().len() && (
                #[trigger] old(self).spec_paths()[j]).spec_service(time_ticks)
                    == PathServiceResult::Dead ==> !path_present(
                    final(self).spec_paths(),
                    old(self).spec_paths()[j],
                ),
            // a quiet path survives exactly when it is sent a keepalive
            // (both hinge on the host vouching for its socket)
            forall|j: int|
                0 <= j < old(self).spec_paths().len() && (
                #[trigger] old(self).spec_paths()[j]).spec_service(time_ticks)
                    == PathServiceResult::NeedsKeepalive ==> (path_present(
                    final(self).spec_paths(),
                    old(self).spec_paths()[j],
                ) <==> has_keepalive_for(keepalives@, old(self).spec_paths()[j])),
            // every keepalive goes to a surviving path that wants one
            forall|m: int|
                0 <= m < keepalives@.len() ==> keepalive_source(
                    final(self).spec_paths(),
                    time_ticks,
                    #[trigger] keepalives@[m],
                ),
            final(self).spec_peers() == old(self).spec_peers(),
            final(self).spec_root_sets() == old(self).spec_root_sets(),
            final(self).spec_roots() == old(self).spec_roots(),
            final(self).spec_best_root() == old(self).spec_best_root(),
            final(self).spec_online() == old(self).spec_online(),
            final(self).spec_whois_queue() == old(self).spec_whois_queue(),
            final(self).spec_sets_modified() == old(self).spec_sets_modified(),
            final(self).spec_this_node_in_root_sets() == old(self).spec_this_node_in_root_sets(),
    {
        let ghost old_paths = self.paths@;
        let mut pending: Vec<Path> = Vec::new();
        core::mem::swap(&mut pending, &mut self.paths);
        let mut kept: Vec<Path> = Vec::new();
        let mut keepalives: Vec<WireSend> = Vec::new();
        while pending.len() > 0
            invariant
                0 <= time_ticks <= TICKS_MAX,
                pending@ == old_paths.subrange(0, pending@.len() as int),
                pending@.len() <= old_paths.len(),
                paths_canonical(old_paths),
                forall|k: int|
                    0 <= k < kept@.len() ==> path_from(
                        old_paths,
                        pending@.len() as int,
                        time_ticks,
                        #[trigger] kept@[k],
                    ),
                forall|j: int|
                    pending@.len() <= j < old_paths.len() && (
                    #[trigger] old_paths[j]).spec_service(time_ticks) == PathServiceResult::Dead
                        ==> !path_present(kept@, old_paths[j]),
                forall|j: int|
                    pending@.len() <= j < old_paths.len() && (
                    #[trigger] old_paths[j]).spec_service(time_ticks)
                        == PathServiceResult::NeedsKeepalive ==> (path_present(
                        kept@,
                        old_paths[j],
                    ) <==> has_keepalive_for(keepalives@, old_paths[j])),
                forall|m: int|
                    0 <= m < keepalives@.len() ==> keepalive_source(
                        kept@,
                        time_ticks,
                        #[trigger] keepalives@[m],
                    ),
                paths_canonical(kept@),
            decreases pending@.len(),
        {
            let ghost pre_len = pending@.len() as int;
            let ghost pre_kept = kept@;
            let ghost pre_kas = keepalives@;
            let p = match pending.pop() {
                Some(p) => p,
                None => vstd::pervasive::unreached(),
            };
            proof {
                assert(p == old_paths[pre_len - 1]);
                assert(pending@ =~= old_paths.subrange(0, pending@.len() as int));
            }
            let mut keep = false;
            if host.local_socket_is_valid(p.local_socket()) {
                match p.service(time_ticks) {
                    PathServiceResult::Dead => {},
                    PathServiceResult::NeedsKeepalive => {
                        let mut data: Vec<u8> = Vec::new();
                        data.push((time_ticks % 251) as u8);
                        let w = WireSend {
                            endpoint: p.endpoint(),
                            local_socket: Some(p.local_socket()),
                            local_interface: Some(p.local_interface()),
                            data,
                            ttl: 0,
                        };
                        proof {
                            assert(is_keepalive_for(w, old_paths[pre_len - 1]));
                        }
                        keepalives.push(w);
                        keep = true;
                    },
                    PathServiceResult::Healthy => {
                        keep = true;
                    },
                }
            }
            if keep {
                proof {
                    assert forall|m: int, n: int| 0 <= m < n < pre_kept.push(p).len() implies !((
                    #[trigger] pre_kept.push(p)[m]).spec_endpoint() == (#[trigger] pre_kept.push(
                        p,
                    )[n]).spec_endpoint() && pre_kept.push(p)[m].spec_local_socket()
                        == pre_kept.push(p)[n].spec_local_socket()) by {
                        if n == pre_kept.len() as int {
                            assert(path_from(old_paths, pre_len, time_ticks, pre_kept[m]));
                            let j = choose|j: int|
                                pre_len <= j < old_paths.len() && old_paths[j] == pre_kept[m]
                                    && pre_kept[m].spec_service(time_ticks)
                                    != PathServiceResult::Dead;
                            assert(!(old_paths[j].spec_endpoint() == old_paths[
                                pre_len - 1
                            ].spec_endpoint() && old_paths[j].spec_local_socket() == old_paths[
                                pre_len - 1
                            ].spec_local_socket()));
                        }
                    }
                    assert(paths_canonical(pre_kept.push(p)));
                }
                kept.push(p);
            }
            proof {
                // survivors stay survivors and keepalives stay justified as
                // the table shrinks from the right
                assert forall|k: int| 0 <= k < kept@.len() implies path_from(
                    old_paths,
                    pending@.len() as int,
                    time_ticks,
                    #[trigger] kept@[k],
                ) by {
                    if keep && k == kept@.len() - 1 {
                        assert(old_paths[pre_len - 1] == kept@[k]);
                    } else {
                        assert(kept@[k] == pre_kept[k]);
                        assert(path_from(old_paths, pre_len, time_ticks, pre_kept[k]));
                        let j = choose|j: int|
                            pre_len <= j < old_paths.len() && old_paths[j] == pre_kept[k]
                                && pre_kept[k].spec_service(time_ticks) != PathServiceResult::Dead;
                        assert(pending@.len() <= j < old_paths.len() && old_paths[j] == kept@[k]
                            && kept@[k].spec_service(time_ticks) != PathServiceResult::Dead);
                    }
                }
                assert forall|j: int|
                    pending@.len() <= j < old_paths.len() && (
                    #[trigger] old_paths[j]).spec_service(time_ticks) == PathServiceResult::Dead
                        implies !path_present(kept@, old_paths[j]) by {
                    if path_present(kept@, old_paths[j]) {
                        let k = choose|k: int| 0 <= k < kept@.len() && kept@[k] == old_paths[j];
                        if keep && k == kept@.len() - 1 {
                            assert(kept@[k] == old_paths[pre_len - 1]);
                        } else {
                            assert(kept@[k] == pre_kept[k]);
                            assert(path_present(pre_kept, old_paths[j]));
                        }
                        assert(false);
                    }
                }
                assert forall|j: int|
                    pending@.len() <= j < old_paths.len() && (
                    #[trigger] old_paths[j]).spec_service(time_ticks)
                        == PathServiceResult::NeedsKeepalive implies (path_present(
                    kept@,
                    old_paths[j],
                ) <==> has_keepalive_for(keepalives@, old_paths[j])) by {
                    if j == pre_len - 1 {
                        if keep {
                            assert(kept@[kept@.len() - 1] == old_paths[j]);
                            assert(path_present(kept@, old_paths[j]));
                            assert(is_keepalive_for(
                                keepalives@[keepalives@.len() - 1],
                                old_paths[j],
                            ));
                            assert(has_keepalive_for(keepalives@, old_paths[j]));
                        } else {
                            if path_present(kept@, old_paths[j]) {
                                let k = choose|k: int|
                                    0 <= k < kept@.len() && kept@[k] == old_paths[j];
                                assert(path_from(old_paths, pre_len, time_ticks, pre_kept[k]));
                                let j2 = choose|j2: int|
                                    pre_len <= j2 < old_paths.len() && old_paths[j2] == pre_kept[k]
                                        && pre_kept[k].spec_service(time_ticks)
                                        != PathServiceResult::Dead;
                                assert(!(old_paths[j2].spec_endpoint() == old_paths[
                                    j
                                ].spec_endpoint() && old_paths[j2].spec_local_socket()
                                    == old_paths[j].spec_local_socket()));
                                assert(false);
                            }
                            if has_keepalive_for(keepalives@, old_paths[j]) {
                                let m = choose|m: int|
                                    0 <= m < keepalives@.len() && is_keepalive_for(
                                        keepalives@[m],
                                        old_paths[j],
                                    );
                                assert(keepalive_source(pre_kept, time_ticks, pre_kas[m]));
                                let j2 = choose|j2: int|
                                    0 <= j2 < pre_kept.len() && (
                                    #[trigger] pre_kept[j2]).spec_service(time_ticks)
                                        == PathServiceResult::NeedsKeepalive && is_keepalive_for(
                                        pre_kas[m],
                                        pre_kept[j2],
                                    );
                                assert(path_from(old_paths, pre_len, time_ticks, pre_kept[j2]));
                                let j3 = choose|j3: int|
                                    pre_len <= j3 < old_paths.len() && old_paths[j3] == pre_kept[
                                        j2
                                    ] && pre_kept[j2].spec_service(time_ticks)
                                        != PathServiceResult::Dead;
                                assert(!(old_paths[j3].spec_endpoint() == old_paths[
                                    j
                                ].spec_endpoint() && old_paths[j3].spec_local_socket()
                                    == old_paths[j].spec_local_socket()));
                                assert(false);
                            }
                        }
                    } else {
                        assert(path_present(pre_kept, old_paths[j]) <==> has_keepalive_for(
                            pre_kas,
                            old_paths[j],
                        ));
                        if path_present(pre_kept, old_paths[j]) {
                            let k = choose|k: int|
                                0 <= k < pre_kept.len() && pre_kept[k] == old_paths[j];
                            assert(kept@[k] == old_paths[j]);
                            assert(path_present(kept@, old_paths[j]));
                            let m = choose|m: int|
                                0 <= m < pre_kas.len() && is_keepalive_for(
                                    pre_kas[m],
                                    old_paths[j],
                                );
                            assert(is_keepalive_for(keepalives@[m], old_paths[j]));
                            assert(has_keepalive_for(keepalives@, old_paths[j]));
                        } else {
                            if path_present(kept@, old_paths[j]) {
                                let k = choose|k: int|
                                    0 <= k < kept@.len() && kept@[k] == old_paths[j];
                                if keep && k == kept@.len() - 1 {
                                    assert(old_paths[j] == old_paths[pre_len - 1]);
                                } else {
                                    assert(kept@[k] == pre_kept[k]);
                                    assert(path_present(pre_kept, old_paths[j]));
                                }
                                assert(false);
                            }
                            if has_keepalive_for(keepalives@, old_paths[j]) {
                                let m = choose|m: int|
                                    0 <= m < keepalives@.len() && is_keepalive_for(
                                        keepalives@[m],
                                        old_paths[j],
                                    );
                                if m < pre_kas.len() {
                                    assert(pre_kas[m] == keepalives@[m]);
                                    assert(has_keepalive_for(pre_kas, old_paths[j]));
                                } else {
                                    assert(is_keepalive_for(keepalives@[m], old_paths[
                                        pre_len - 1
                                    ]));
                                    assert(old_paths[j].spec_endpoint() == old_paths[
                                        pre_len - 1
                                    ].spec_endpoint() && old_paths[j].spec_local_socket()
                                        == old_paths[pre_len - 1].spec_local_socket());
                                }
                                assert(false);
                            }
                        }
                    }
                }
                assert forall|m: int| 0 <= m < keepalives@.len() implies keepalive_source(
                    kept@,
                    time_ticks,
                    #[trigger] keepalives@[m],
                ) by {
                    if m < pre_kas.len() {
                        assert(keepalive_source(pre_kept, time_ticks, pre_kas[m]));
                        let j2 = choose|j2: int|
                            0 <= j2 < pre_kept.len() && (#[trigger] pre_kept[j2]).spec_service(
                                time_ticks,
                            ) == PathServiceResult::NeedsKeepalive && is_keepalive_for(
                                pre_kas[m],
                                pre_kept[j2],
                            );
                        assert(kept@[j2] == pre_kept[j2]);
                        assert(is_keepalive_for(keepalives@[m], kept@[j2]));
                    } else {
                        assert(kept@[kept@.len() - 1] == old_paths[pre_len - 1]);
                        assert(is_keepalive_for(keepalives@[m], kept@[kept@.len() - 1]));
                    }
                }
            }
        }
        self.paths = kept;
        proof {
            assert(old_paths == old(self).spec_paths());
        }
        keepalives
    }

    /// Whether address `a` is listed under conflicting identities, or under
    /// an identity conflicting with the peer already seated at `a`.
    fn address_collides_exec(&self, a: Address) -> (r: bool)
        requires
            self.wf(),
        ensures
            r == address_collides(self.spec_root_sets(), self.spec_peers(), self.spec_identity(), a),
    {
        let ghost sets = self.roots.sets@;
        let mut first: Option<Identity> = None;
        let mut i: usize = 0;
        while i < self.roots.sets.len()
            invariant
                self.wf(),
                sets == self.roots.sets@,
                i <= sets.len(),
                match first {
                    Some(f) => member_occurrence(sets, self.spec_identity(), a, f) && forall|
                        i2: int,
                        j2: int,
                    |
                        0 <= i2 < i && 0 <= j2 < sets[i2].members@.len() && (
                        #[trigger] sets[i2].members@[j2]).identity.address == a && sets[
                            i2
                        ].members@[j2].identity != self.spec_identity() ==> sets[i2].members@[
                            j2
                        ].identity == f,
                    None => forall|i2: int, j2: int|
                        0 <= i2 < i && 0 <= j2 < sets[i2].members@.len() ==> !((
                        #[trigger] sets[i2].members@[j2]).identity.address == a && sets[
                            i2
                        ].members@[j2].identity != self.spec_identity()),
                },
            decreases sets.len() - i,
        {
            let mut j: usize = 0;
            while j < self.roots.sets[i].members.len()
                invariant
                    self.wf(),
                    sets == self.roots.sets@,
                    i < sets.len(),
                    j <= sets[i as int].members@.len(),
                    match first {
                        Some(f) => member_occurrence(sets, self.spec_identity(), a, f) && forall|
                            i2: int,
                            j2: int,
                        |
                            0 <= i2 < sets.len() && 0 <= j2 < sets[i2].members@.len() && (i2 < i
                                || (i2 == i && j2 < j)) && (
                            #[trigger] sets[i2].members@[j2]).identity.address == a && sets[
                                i2
                            ].members@[j2].identity != self.spec_identity() ==> sets[i2].members@[
                                j2
                            ].identity == f,
                        None => forall|i2: int, j2: int|
                            0 <= i2 < sets.len() && 0 <= j2 < sets[i2].members@.len() && (i2 < i
                                || (i2 == i && j2 < j)) ==> !((
                            #[trigger] sets[i2].members@[j2]).identity.address == a && sets[
                                i2
                            ].members@[j2].identity != self.spec_identity()),
                    },
                decreases sets[i as int].members@.len() - j,
            {
                let id = self.roots.sets[i].members[j].identity;
                if id.address == a && id != self.identity {
                    match first {
                        Some(f) => {
                            if id != f {
                                proof {
                                    assert(member_occurrence(sets, self.spec_identity(), a, id));
                                }
                                return true;
                            }
                        },
                        None => {
                            proof {
                                assert(member_occurrence(sets, self.spec_identity(), a, id));
                            }
                            first = Some(id);
                        },
                    }
                }
                j = j + 1;
            }
            i = i + 1;
        }
        match first {
            Some(f) => {
                let differs = match self.find_peer_index(a) {
                    Some(pi) => {
                        proof {
                            let k = choose|k: int|
                                0 <= k < self.peers@.len() && self.peers@[
                                    k
                                ].spec_identity().address == a;
                            assert(k == pi as int);
                        }
                        self.peers[pi].identity() != f
                    },
                    None => false,
                };
                if differs {
                    true
                } else {
                    proof {
                        assert forall|id1: Identity, id2: Identity|
                            member_occurrence(sets, self.spec_identity(), a, id1)
                                && member_occurrence(sets, self.spec_identity(), a, id2) implies id1
                            == id2 by {
                            let (i1, j1) = choose|i1: int, j1: int|
                                0 <= i1 < sets.len() && 0 <= j1 < sets[i1].members@.len() && (
                                #[trigger] sets[i1].members@[j1]).identity == id1 && id1.address
                                    == a && id1 != self.spec_identity();
                            let (i2, j2) = choose|i2: int, j2: int|
                                0 <= i2 < sets.len() && 0 <= j2 < sets[i2].members@.len() && (
                                #[trigger] sets[i2].members@[j2]).identity == id2 && id2.address
                                    == a && id2 != self.spec_identity();
                            assert(sets[i1].members@[j1].identity == f);
                            assert(sets[i2].members@[j2].identity == f);
                        }
                        assert forall|id1: Identity|
                            member_occurrence(sets, self.spec_identity(), a, id1)
                                && has_peer_with_address(self.peers@, a) implies peer_with_address(
                            self.peers@,
                            a,
                        ).spec_identity() == id1 by {
                            assert(id1 == f);
                        }
                    }
                    false
                }
            },
            None => {
                proof {
                    assert forall|id1: Identity|
                        !member_occurrence(sets, self.spec_identity(), a, id1) by {
                        if member_occurrence(sets, self.spec_identity(), a, id1) {
                            let (i1, j1) = choose|i1: int, j1: int|
                                0 <= i1 < sets.len() && 0 <= j1 < sets[i1].members@.len() && (
                                #[trigger] sets[i1].members@[j1]).identity == id1 && id1.address
                                    == a && id1 != self.spec_identity();
                            assert(false);
                        }
                    }
                }
                false
            },
        }
    }

    /// Whether this node's own identity is listed in some trusted set.
    fn sets_list_this_node(&self) -> (r: bool)
        ensures
            r == this_node_listed(self.spec_root_sets(), self.spec_identity()),
    {
        let ghost sets = self.roots.sets@;
        let mut i: usize = 0;
        while i < self.roots.sets.len()
            invariant
                sets == self.roots.sets@,
                i <= sets.len(),
                forall|i2: int, j2: int|
                    0 <= i2 < i && 0 <= j2 < sets[i2].members@.len() ==> (
                    #[trigger] sets[i2].members@[j2]).identity != self.spec_identity(),
            decreases sets.len() - i,
        {
            let mut j: usize = 0;
            while j < self.roots.sets[i].members.len()
                invariant
                    sets == self.roots.sets@,
                    i < sets.len(),
                    j <= sets[i as int].members@.len(),
                    forall|i2: int, j2: int|
                        0 <= i2 < sets.len() && 0 <= j2 < sets[i2].members@.len() && (i2 < i || (i2
                            == i && j2 < j)) ==> (#[trigger] sets[i2].members@[j2]).identity
                            != self.spec_identity(),
                decreases sets[i as int].members@.len() - j,
            {
                if self.roots.sets[i].members[j].identity == self.identity {
                    proof {
                        assert(this_node_listed(sets, self.spec_identity()));
                    }
                    return true;
                }
                j = j + 1;
            }
            i = i + 1;
        }
        proof {
            if this_node_listed(sets, self.spec_identity()) {
                let (i1, j1) = choose|i1: int, j1: int|
                    0 <= i1 < sets.len() && 0 <= j1 < sets[i1].members@.len() && (
                    #[trigger] sets[i1].members@[j1]).identity == self.spec_identity();
                assert(false);
            }
        }
        false
    }
    /// Rebuild the root peers from the trusted sets.
    ///
    /// Every non-self member with endpoints becomes a root unless its
    /// address is in collision (excluded, one warning per address) or its
    /// key material is unusable and no peer exists for it (skipped, one
    /// warning per address). Missing peers are created. If the resulting
    /// identities differ from the current roots the table is swapped and an
    /// `UpdatedRoots` event reports old and new; the best-root election is
    /// expected to follow in the same background cycle.
    #[verifier::rlimit(100)]
    pub fn rebuild_roots(&mut self, time_ticks: i64) -> (events: Vec<Event>)
        requires
            old(self).wf(),
            0 <= time_ticks <= TICKS_MAX,
        ensures
            final(self).wf(),
            same_identity(*old(self), *final(self)),
            gates_unchanged(*old(self), *final(self)),
            final(self).spec_root_sets() == old(self).spec_root_sets(),
            !final(self).spec_sets_modified(),
            final(self).spec_this_node_in_root_sets() == this_node_listed(
                old(self).spec_root_sets(),
                old(self).spec_identity(),
            ),
            final(self).spec_paths() == old(self).spec_paths(),
            final(self).spec_whois_queue() == old(self).spec_whois_queue(),
            final(self).spec_online() == old(self).spec_online(),
            final(self).spec_identity() == old(self).spec_identity(),
            // peers only grow, by constructible root members
            old(self).spec_peers().len() <= final(self).spec_peers().len(),
            forall|j: int|
                0 <= j < old(self).spec_peers().len() ==> final(self).spec_peers()[j] == old(self).spec_peers()[j],
            forall|j: int|
                old(self).spec_peers().len() <= j < final(self).spec_peers().len()
                    ==> Peer::spec_constructible(
                    (#[trigger] final(self).spec_peers()[j]).spec_identity(),
                ) && qualifying_identity(
                    old(self).spec_root_sets(),
                    old(self).spec_peers(),
                    old(self).spec_identity(),
                    final(self).spec_peers()[j].spec_identity(),
                ),
            // collision exclusion: a listed colliding address is warned
            // about and is in no root entry
            forall|a: Address|
                #[trigger] collision_at(
                    old(self).spec_root_sets(),
                    old(self).spec_peers(),
                    old(self).spec_identity(),
                    a,
                ) ==> has_collision_event(events@, a) && !is_root_address(
                    final(self).spec_roots(),
                    a,
                ) && final(self).spec_best_root() != Some(a),
            forall|a: Address|
                #[trigger] has_collision_event(events@, a) ==> collision_at(
                    old(self).spec_root_sets(),
                    old(self).spec_peers(),
                    old(self).spec_identity(),
                    a,
                ),
            // bad identities are warned about, and only they are
            forall|a: Address|
                #[trigger] bad_identity_occurrence(
                    old(self).spec_root_sets(),
                    old(self).spec_peers(),
                    old(self).spec_identity(),
                    a,
                ) ==> has_bad_identity_event(events@, a),
            forall|a: Address|
                #[trigger] has_bad_identity_event(events@, a) ==> bad_identity_occurrence(
                    old(self).spec_root_sets(),
                    old(self).spec_peers(),
                    old(self).spec_identity(),
                    a,
                ),
            // no event repeats: each warning is emitted once
            forall|m1: int, m2: int|
                0 <= m1 < m2 < events@.len() ==> (#[trigger] events@[m1]) != (
                #[trigger] events@[m2]),
            // only warnings and the rebuild report come out of a sync
            forall|m: int|
                0 <= m < events@.len() ==> ((#[trigger] events@[m]) matches Event::SecurityWarning(
                    w,
                ) || events@[m] matches Event::UpdatedRoots(o, n)),
            // the roots are swapped exactly when the qualifying identities
            // differ from the current ones, and the swap is reported
            ({
                if roots_ids_match(
                    old(self).spec_roots(),
                    old(self).spec_root_sets(),
                    old(self).spec_peers(),
                    old(self).spec_identity(),
                ) {
                    final(self).spec_roots() == old(self).spec_roots() && !has_updated_roots_event(
                        events@,
                    ) && final(self).spec_best_root() == old(self).spec_best_root()
                } else {
                    &&& forall|k: int|
                        0 <= k < final(self).spec_roots().len() ==> qualifying_occurrence(
                            old(self).spec_root_sets(),
                            old(self).spec_peers(),
                            old(self).spec_identity(),
                            (#[trigger] final(self).spec_roots()[k]).identity,
                            final(self).spec_roots()[k].endpoints@,
                        )
                    &&& forall|id: Identity|
                        #[trigger] qualifying_identity(
                            old(self).spec_root_sets(),
                            old(self).spec_peers(),
                            old(self).spec_identity(),
                            id,
                        ) ==> is_root_identity(final(self).spec_roots(), id)
                    &&& has_updated_roots_event(events@)
                }
            }),
            // the rebuild report carries the old and new identities exactly
            forall|m: int|
                0 <= m < events@.len() ==> ((#[trigger] events@[m]) matches Event::UpdatedRoots(
                    o,
                    n,
                ) ==> o@.len() == old(self).spec_roots().len() && (forall|k: int|
                    0 <= k < o@.len() ==> #[trigger] o@[k] == old(self).spec_roots()[k].identity)
                    && n@.len() == final(self).spec_roots().len() && (forall|k: int|
                    0 <= k < n@.len() ==> #[trigger] n@[k] == final(self).spec_roots()[
                        k
                    ].identity)),
    {
        let ghost gsets = self.roots.sets@;
        let ghost p0 = self.peers@;
        let ghost r0 = self.roots.roots@;
        let ghost me = self.spec_identity();
        let mut events: Vec<Event> = Vec::new();

        // collision warnings, one per colliding listed address
        let mut collision_addrs: Vec<Address> = Vec::new();
        let mut i: usize = 0;
        while i < self.roots.sets.len()
            invariant
                self.wf(),
                *self == *old(self),
                gsets == self.roots.sets@,
                p0 == self.peers@,
                me == self.spec_identity(),
                i <= gsets.len(),
                events@.len() == collision_addrs@.len(),
                forall|k: int|
                    0 <= k < collision_addrs@.len() ==> #[trigger] events@[k]
                        == Event::SecurityWarning(
                        SecurityWarningKind::AddressCollision(collision_addrs@[k]),
                    ),
                forall|k1: int, k2: int|
                    0 <= k1 < k2 < collision_addrs@.len() ==> (#[trigger] collision_addrs@[k1]) != (
                    #[trigger] collision_addrs@[k2]),
                forall|k: int|
                    0 <= k < collision_addrs@.len() ==> collision_at(
                        gsets,
                        p0,
                        me,
                        #[trigger] collision_addrs@[k],
                    ),
                forall|i2: int, j2: int|
                    0 <= i2 < i && 0 <= j2 < gsets[i2].members@.len() && (
                    #[trigger] gsets[i2].members@[j2]).identity != me && address_collides(
                        gsets,
                        p0,
                        me,
                        gsets[i2].members@[j2].identity.address,
                    ) ==> addr_in(collision_addrs@, gsets[i2].members@[j2].identity.address),
            decreases gsets.len() - i,
        {
            let mut j: usize = 0;
            while j < self.roots.sets[i].members.len()
                invariant
                    self.wf(),
                    *self == *old(self),
                    gsets == self.roots.sets@,
                    p0 == self.peers@,
                    me == self.spec_identity(),
                    i < gsets.len(),
                    j <= gsets[i as int].members@.len(),
                    events@.len() == collision_addrs@.len(),
                    forall|k: int|
                        0 <= k < collision_addrs@.len() ==> #[trigger] events@[k]
                            == Event::SecurityWarning(
                            SecurityWarningKind::AddressCollision(collision_addrs@[k]),
                        ),
                    forall|k1: int, k2: int|
                        0 <= k1 < k2 < collision_addrs@.len() ==> (
                        #[trigger] collision_addrs@[k1]) != (#[trigger] collision_addrs@[k2]),
                    forall|k: int|
                        0 <= k < collision_addrs@.len() ==> collision_at(
                            gsets,
                            p0,
                            me,
                            #[trigger] collision_addrs@[k],
                        ),
                    forall|i2: int, j2: int|
                        0 <= i2 < gsets.len() && 0 <= j2 < gsets[i2].members@.len() && (i2 < i || (
                        i2 == i && j2 < j)) && (#[trigger] gsets[i2].members@[j2]).identity != me
                            && address_collides(
                            gsets,
                            p0,
                            me,
                            gsets[i2].members@[j2].identity.address,
                        ) ==> addr_in(collision_addrs@, gsets[i2].members@[j2].identity.address),
                decreases gsets[i as int].members@.len() - j,
            {
                let id = self.roots.sets[i].members[j].identity;
                let ghost pre_ca = collision_addrs@;
                if id != self.identity {
                    if !contains_address(&collision_addrs, id.address) {
                        if self.address_collides_exec(id.address) {
                            proof {
                                assert(member_occurrence(gsets, me, id.address, id));
                                assert(collision_at(gsets, p0, me, id.address));
                            }
                            collision_addrs.push(id.address);
                            events.push(
                                Event::SecurityWarning(
                                    SecurityWarningKind::AddressCollision(id.address),
                                ),
                            );
                        }
                    }
                }
                j = j + 1;
                proof {
                    assert forall|x: Address| addr_in(pre_ca, x) implies addr_in(
                        collision_addrs@,
                        x,
                    ) by {
                        let k = choose|k: int| 0 <= k < pre_ca.len() && pre_ca[k] == x;
                        assert(collision_addrs@[k] == x);
                    }
                    assert forall|i2: int, j2: int|
                        0 <= i2 < gsets.len() && 0 <= j2 < gsets[i2].members@.len() && (i2 < i || (
                        i2 == i && j2 < j)) && (#[trigger] gsets[i2].members@[j2]).identity != me
                            && address_collides(
                            gsets,
                            p0,
                            me,
                            gsets[i2].members@[j2].identity.address,
                        ) implies addr_in(
                        collision_addrs@,
                        gsets[i2].members@[j2].identity.address,
                    ) by {
                        let aa = gsets[i2].members@[j2].identity.address;
                        if i2 == i as int && j2 == j - 1 {
                            if addr_in(pre_ca, aa) {
                                assert(addr_in(collision_addrs@, aa));
                            } else {
                                assert(collision_addrs@[collision_addrs@.len() - 1] == aa);
                            }
                        } else {
                            assert(addr_in(pre_ca, aa));
                            assert(addr_in(collision_addrs@, aa));
                        }
                    }
                }
            }
            i = i + 1;
        }
        let ghost n_coll = events@.len() as int;
        let ghost coll_list = collision_addrs@;
        proof {
            assert(n_coll == coll_list.len());
        }

        let in_sets = self.sets_list_this_node();

        // rebuild the root entries, creating peers as needed
        let mut new_roots: Vec<RootPeerEntry> = Vec::new();
        let mut bad_addrs: Vec<Address> = Vec::new();
        let mut bad_events: Vec<Event> = Vec::new();
        let mut i: usize = 0;
        while i < self.roots.sets.len()
            invariant
                self.wf(),
                gsets == self.roots.sets@,
                me == self.spec_identity(),
                self.paths@ == old(self).paths@,
                self.whois_queue@ == old(self).whois_queue@,
                self.roots.roots@ == r0,
                self.best_root == old(self).best_root,
                self.roots.online == old(self).roots.online,
                self.roots.this_node_in_root_sets == old(self).roots.this_node_in_root_sets,
                self.roots.sets_modified == old(self).roots.sets_modified,
                self.intervals == old(self).intervals,
                self.instance_id == old(self).instance_id,
                0 <= time_ticks <= TICKS_MAX,
                i <= gsets.len(),
                // peers only grow, by constructible qualifying identities
                p0.len() <= self.peers@.len(),
                p0 == self.peers@.subrange(0, p0.len() as int),
                forall|k: int|
                    p0.len() <= k < self.peers@.len() ==> Peer::spec_constructible(
                        (#[trigger] self.peers@[k]).spec_identity(),
                    ) && is_root_identity(new_roots@, self.peers@[k].spec_identity()),
                // the collision list is exactly the colliding listed addresses
                forall|k: int|
                    0 <= k < collision_addrs@.len() ==> collision_at(
                        gsets,
                        p0,
                        me,
                        #[trigger] collision_addrs@[k],
                    ),
                forall|i2: int, j2: int|
                    0 <= i2 < gsets.len() && 0 <= j2 < gsets[i2].members@.len() && (
                    #[trigger] gsets[i2].members@[j2]).identity != me && address_collides(
                        gsets,
                        p0,
                        me,
                        gsets[i2].members@[j2].identity.address,
                    ) ==> addr_in(collision_addrs@, gsets[i2].members@[j2].identity.address),
                // entries built so far are justified and canonical
                forall|k1: int, k2: int|
                    0 <= k1 < k2 < new_roots@.len() ==> (
                    #[trigger] new_roots@[k1]).identity.address != (
                    #[trigger] new_roots@[k2]).identity.address,
                forall|k: int| 0 <= k < new_roots@.len() ==> (#[trigger] new_roots@[k]).identity.wf(),
                forall|k: int|
                    0 <= k < new_roots@.len() ==> qualifying_occurrence(
                        gsets,
                        p0,
                        me,
                        (#[trigger] new_roots@[k]).identity,
                        new_roots@[k].endpoints@,
                    ),
                roots_backed(new_roots@, self.peers@),
                // every qualifying member scanned so far is an entry
                forall|i2: int, j2: int|
                    0 <= i2 < i && 0 <= j2 < gsets[i2].members@.len() && occ_qualifies(
                        gsets,
                        p0,
                        me,
                        i2,
                        j2,
                    ) ==> is_root_identity(
                        new_roots@,
                        (#[trigger] gsets[i2].members@[j2]).identity,
                    ),
                // bad identities scanned so far are recorded, once each
                bad_events@.len() == bad_addrs@.len(),
                forall|k: int|
                    0 <= k < bad_addrs@.len() ==> #[trigger] bad_events@[k]
                        == Event::SecurityWarning(
                        SecurityWarningKind::BadIdentity(bad_addrs@[k]),
                    ),
                forall|k1: int, k2: int|
                    0 <= k1 < k2 < bad_addrs@.len() ==> (#[trigger] bad_addrs@[k1]) != (
                    #[trigger] bad_addrs@[k2]),
                forall|k: int|
                    0 <= k < bad_addrs@.len() ==> bad_identity_occurrence(
                        gsets,
                        p0,
                        me,
                        #[trigger] bad_addrs@[k],
                    ),
                forall|i2: int, j2: int|
                    0 <= i2 < i && 0 <= j2 < gsets[i2].members@.len() && occ_bad(
                        gsets,
                        p0,
                        me,
                        i2,
                        j2,
                    ) ==> addr_in(bad_addrs@, (#[trigger] gsets[i2].members@[j2]).identity.address),
            decreases gsets.len() - i,
        {
            let mut j: usize = 0;
            while j < self.roots.sets[i].members.len()
                invariant
                    self.wf(),
                    gsets == self.roots.sets@,
                    me == self.spec_identity(),
                    self.paths@ == old(self).paths@,
                    self.whois_queue@ == old(self).whois_queue@,
                    self.roots.roots@ == r0,
                    self.best_root == old(self).best_root,
                    self.roots.online == old(self).roots.online,
                    self.roots.this_node_in_root_sets == old(self).roots.this_node_in_root_sets,
                    self.roots.sets_modified == old(self).roots.sets_modified,
                    self.intervals == old(self).intervals,
                    self.instance_id == old(self).instance_id,
                    0 <= time_ticks <= TICKS_MAX,
                    i < gsets.len(),
                    j <= gsets[i as int].members@.len(),
                    p0.len() <= self.peers@.len(),
                    p0 == self.peers@.subrange(0, p0.len() as int),
                    forall|k: int|
                        p0.len() <= k < self.peers@.len() ==> Peer::spec_constructible(
                            (#[trigger] self.peers@[k]).spec_identity(),
                        ) && is_root_identity(new_roots@, self.peers@[k].spec_identity()),
                    forall|k: int|
                        0 <= k < collision_addrs@.len() ==> collision_at(
                            gsets,
                            p0,
                            me,
                            #[trigger] collision_addrs@[k],
                        ),
                    forall|i2: int, j2: int|
                        0 <= i2 < gsets.len() && 0 <= j2 < gsets[i2].members@.len() && (
                        #[trigger] gsets[i2].members@[j2]).identity != me && address_collides(
                            gsets,
                            p0,
                            me,
                            gsets[i2].members@[j2].identity.address,
                        ) ==> addr_in(collision_addrs@, gsets[i2].members@[j2].identity.address),
                    forall|k1: int, k2: int|
                        0 <= k1 < k2 < new_roots@.len() ==> (
                        #[trigger] new_roots@[k1]).identity.address != (
                        #[trigger] new_roots@[k2]).identity.address,
                    forall|k: int|
                        0 <= k < new_roots@.len() ==> (#[trigger] new_roots@[k]).identity.wf(),
                    forall|k: int|
                        0 <= k < new_roots@.len() ==> qualifying_occurrence(
                            gsets,
                            p0,
                            me,
                            (#[trigger] new_roots@[k]).identity,
                            new_roots@[k].endpoints@,
                        ),
                    roots_backed(new_roots@, self.peers@),
                    forall|i2: int, j2: int|
                        0 <= i2 < gsets.len() && 0 <= j2 < gsets[i2].members@.len() && (i2 < i || (
                        i2 == i && j2 < j)) && occ_qualifies(gsets, p0, me, i2, j2)
                            ==> is_root_identity(
                            new_roots@,
                            (#[trigger] gsets[i2].members@[j2]).identity,
                        ),
                    bad_events@.len() == bad_addrs@.len(),
                    forall|k: int|
                        0 <= k < bad_addrs@.len() ==> #[trigger] bad_events@[k]
                            == Event::SecurityWarning(
                            SecurityWarningKind::BadIdentity(bad_addrs@[k]),
                        ),
                    forall|k1: int, k2: int|
                        0 <= k1 < k2 < bad_addrs@.len() ==> (#[trigger] bad_addrs@[k1]) != (
                        #[trigger] bad_addrs@[k2]),
                    forall|k: int|
                        0 <= k < bad_addrs@.len() ==> bad_identity_occurrence(
                            gsets,
                            p0,
                            me,
                            #[trigger] bad_addrs@[k],
                        ),
                    forall|i2: int, j2: int|
                        0 <= i2 < gsets.len() && 0 <= j2 < gsets[i2].members@.len() && (i2 < i || (
                        i2 == i && j2 < j)) && occ_bad(gsets, p0, me, i2, j2) ==> addr_in(
                            bad_addrs@,
                            (#[trigger] gsets[i2].members@[j2]).identity.address,
                        ),
                decreases gsets[i as int].members@.len() - j,
            {
                let m_identity = self.roots.sets[i].members[j].identity;
                let has_eps = self.roots.sets[i].members[j].endpoints.len() > 0;
                let ghost pre_roots_all = new_roots@;
                let ghost pre_bad = bad_addrs@;
                if m_identity != self.identity && has_eps && !contains_address(
                    &collision_addrs,
                    m_identity.address,
                ) {
                    proof {
                        // not listed as colliding, so it does not collide
                        assert(member_occurrence(gsets, me, m_identity.address, m_identity));
                        assert(!address_collides(gsets, p0, me, m_identity.address));
                    }
                    match root_entry_index(&new_roots, m_identity.address) {
                        Some(k) => {
                            proof {
                                // the existing entry carries this very
                                // identity: two identities at one address
                                // would be a collision
                                let e = new_roots@[k as int];
                                assert(qualifying_occurrence(
                                    gsets,
                                    p0,
                                    me,
                                    e.identity,
                                    e.endpoints@,
                                ));
                                if e.identity != m_identity {
                                    assert(member_occurrence(
                                        gsets,
                                        me,
                                        m_identity.address,
                                        e.identity,
                                    ));
                                    assert(address_collides(gsets, p0, me, m_identity.address));
                                    assert(false);
                                }
                                assert(is_root_identity(new_roots@, m_identity));
                                assert(!occ_bad(gsets, p0, me, i as int, j as int));
                            }
                        },
                        None => {
                            match self.find_peer_index(m_identity.address) {
                                Some(pi) => {
                                    proof {
                                        // the seated peer predates this
                                        // rebuild (peers created here always
                                        // have a root entry already) and
                                        // carries this very identity
                                        if pi as int >= p0.len() {
                                            assert(is_root_identity(
                                                new_roots@,
                                                self.peers@[pi as int].spec_identity(),
                                            ));
                                            let k2 = choose|k2: int|
                                                0 <= k2 < new_roots@.len() && new_roots@[
                                                    k2
                                                ].identity == self.peers@[
                                                    pi as int
                                                ].spec_identity();
                                            assert(false);
                                        }
                                        assert(self.peers@[pi as int] == p0[pi as int]);
                                        assert(has_peer_with_address(p0, m_identity.address));
                                        let kp = choose|kp: int|
                                            0 <= kp < p0.len() && p0[
                                                kp
                                            ].spec_identity().address == m_identity.address;
                                        assert(p0[kp] == self.peers@[kp]);
                                        assert(kp == pi as int);
                                        if peer_with_address(p0, m_identity.address).spec_identity()
                                            != m_identity {
                                            assert(address_collides(
                                                gsets,
                                                p0,
                                                me,
                                                m_identity.address,
                                            ));
                                            assert(false);
                                        }
                                        assert(self.peers@[pi as int].spec_identity()
                                            == m_identity);
                                    }
                                    let eps = clone_endpoints(
                                        &self.roots.sets[i].members[j].endpoints,
                                    );
                                    let ghost pre_roots = new_roots@;
                                    new_roots.push(RootPeerEntry { identity: m_identity, endpoints: eps });
                                    proof {
                                        assert(qualifying_occurrence(
                                            gsets,
                                            p0,
                                            me,
                                            m_identity,
                                            new_roots@[new_roots@.len() - 1].endpoints@,
                                        ));
                                        assert(m_identity.wf());
                                        assert(is_root_identity(new_roots@, m_identity));
                                        assert(peer_backs(self.peers@, m_identity));
                                        assert forall|r: int|
                                            0 <= r < new_roots@.len() implies peer_backs(
                                            self.peers@,
                                            (#[trigger] new_roots@[r]).identity,
                                        ) by {
                                            if r < pre_roots.len() {
                                                assert(new_roots@[r] == pre_roots[r]);
                                                assert(peer_backs(
                                                    self.peers@,
                                                    pre_roots[r].identity,
                                                ));
                                            }
                                        }
                                        assert(!occ_bad(gsets, p0, me, i as int, j as int));
                                    }
                                },
                                None => {
                                    proof {
                                        if has_peer_with_address(p0, m_identity.address) {
                                            let kp = choose|kp: int|
                                                0 <= kp < p0.len() && p0[
                                                    kp
                                                ].spec_identity().address == m_identity.address;
                                            assert(self.peers@[kp] == p0[kp]);
                                            assert(has_peer_with_address(
                                                self.peers@,
                                                m_identity.address,
                                            ));
                                            assert(false);
                                        }
                                    }
                                    match Peer::new(m_identity, time_ticks) {
                                        Some(p) => {
                                            let ghost pre_peers = self.peers@;
                                            let ghost pre_roots = new_roots@;
                                            self.peers.push(p);
                                            let eps = clone_endpoints(
                                                &self.roots.sets[i].members[j].endpoints,
                                            );
                                            new_roots.push(
                                                RootPeerEntry { identity: m_identity, endpoints: eps },
                                            );
                                            proof {
                                                assert(p0 =~= self.peers@.subrange(
                                                    0,
                                                    p0.len() as int,
                                                ));
                                                assert(peers_unique(self.peers@));
                                                assert(qualifying_occurrence(
                                                    gsets,
                                                    p0,
                                                    me,
                                                    m_identity,
                                                    new_roots@[new_roots@.len() - 1].endpoints@,
                                                ));
                                                assert(self.peers@[self.peers@.len()
                                                    - 1].spec_identity() == m_identity);
                                                assert(peer_backs(self.peers@, m_identity));
                                                assert forall|r: int|
                                                    0 <= r < new_roots@.len() implies peer_backs(
                                                    self.peers@,
                                                    (#[trigger] new_roots@[r]).identity,
                                                ) by {
                                                    if r < pre_roots.len() {
                                                        assert(new_roots@[r] == pre_roots[r]);
                                                        assert(peer_backs(
                                                            pre_peers,
                                                            pre_roots[r].identity,
                                                        ));
                                                        let kb = choose|kb: int|
                                                            0 <= kb < pre_peers.len() && (
                                                            #[trigger] pre_peers[
                                                                kb
                                                            ]).spec_identity() == pre_roots[
                                                                r
                                                            ].identity;
                                                        assert(self.peers@[kb] == pre_peers[kb]);
                                                    }
                                                }
                                                assert(roots_backed(new_roots@, self.peers@));
                                                assert(m_identity.wf());
                                                assert(is_root_identity(new_roots@, m_identity));
                                                assert(!occ_bad(gsets, p0, me, i as int, j as int));
                                                // roots stayed backed by the grown peer table
                                                assert forall|r: int|
                                                    0 <= r < self.roots.roots@.len() implies peer_backs(
                                                    self.peers@,
                                                    (#[trigger] self.roots.roots@[r]).identity,
                                                ) by {
                                                    assert(peer_backs(
                                                        pre_peers,
                                                        self.roots.roots@[r].identity,
                                                    ));
                                                    let kb = choose|kb: int|
                                                        0 <= kb < pre_peers.len() && (
                                                        #[trigger] pre_peers[kb]).spec_identity()
                                                            == self.roots.roots@[r].identity;
                                                    assert(self.peers@[kb] == pre_peers[kb]);
                                                }
                                            }
                                        },
                                        None => {
                                            proof {
                                                assert(occ_bad(gsets, p0, me, i as int, j as int));
                                            }
                                            if !contains_address(&bad_addrs, m_identity.address) {
                                                proof {
                                                    assert(bad_identity_occurrence(
                                                        gsets,
                                                        p0,
                                                        me,
                                                        m_identity.address,
                                                    ));
                                                }
                                                bad_addrs.push(m_identity.address);
                                                bad_events.push(
                                                    Event::SecurityWarning(
                                                        SecurityWarningKind::BadIdentity(
                                                            m_identity.address,
                                                        ),
                                                    ),
                                                );
                                                proof {
                                                    assert(bad_addrs@[bad_addrs@.len() - 1]
                                                        == m_identity.address);
                                                }
                                            } else {
                                                proof {
                                                    assert(addr_in(
                                                        bad_addrs@,
                                                        m_identity.address,
                                                    ));
                                                }
                                            }
                                        },
                                    }
                                },
                            }
                        },
                    }
                } else {
                    proof {
                        assert(!occ_qualifies(gsets, p0, me, i as int, j as int) || is_root_identity(
                            new_roots@,
                            gsets[i as int].members@[j as int].identity,
                        )) by {
                            if m_identity != me && has_eps {
                                assert(addr_in(collision_addrs@, m_identity.address));
                                let k = choose|k: int|
                                    0 <= k < collision_addrs@.len() && collision_addrs@[k]
                                        == m_identity.address;
                                assert(collision_at(gsets, p0, me, m_identity.address));
                                assert(!occ_qualifies(gsets, p0, me, i as int, j as int));
                            }
                        }
                        assert(!occ_bad(gsets, p0, me, i as int, j as int)) by {
                            if m_identity != me && has_eps {
                                assert(addr_in(collision_addrs@, m_identity.address));
                                let k = choose|k: int|
                                    0 <= k < collision_addrs@.len() && collision_addrs@[k]
                                        == m_identity.address;
                                assert(collision_at(gsets, p0, me, m_identity.address));
                            }
                        }
                    }
                }
                j = j + 1;
                proof {
                    assert forall|x: Identity| is_root_identity(pre_roots_all, x) implies is_root_identity(
                        new_roots@,
                        x,
                    ) by {
                        let k = choose|k: int|
                            0 <= k < pre_roots_all.len() && (#[trigger] pre_roots_all[k]).identity
                                == x;
                        assert(new_roots@[k] == pre_roots_all[k]);
                    }
                    assert forall|x: Address| addr_in(pre_bad, x) implies addr_in(
                        bad_addrs@,
                        x,
                    ) by {
                        let k = choose|k: int| 0 <= k < pre_bad.len() && pre_bad[k] == x;
                        assert(bad_addrs@[k] == x);
                    }
                    assert forall|i2: int, j2: int|
                        0 <= i2 < gsets.len() && 0 <= j2 < gsets[i2].members@.len() && (i2 < i || (
                        i2 == i && j2 < j)) && occ_qualifies(gsets, p0, me, i2, j2)
                            implies is_root_identity(
                        new_roots@,
                        (#[trigger] gsets[i2].members@[j2]).identity,
                    ) by {
                        if !(i2 == i as int && j2 == j - 1) {
                            assert(is_root_identity(
                                pre_roots_all,
                                gsets[i2].members@[j2].identity,
                            ));
                        }
                    }
                    assert forall|i2: int, j2: int|
                        0 <= i2 < gsets.len() && 0 <= j2 < gsets[i2].members@.len() && (i2 < i || (
                        i2 == i && j2 < j)) && occ_bad(gsets, p0, me, i2, j2) implies addr_in(
                        bad_addrs@,
                        (#[trigger] gsets[i2].members@[j2]).identity.address,
                    ) by {
                        if !(i2 == i as int && j2 == j - 1) {
                            assert(addr_in(pre_bad, gsets[i2].members@[j2].identity.address));
                        }
                    }
                }
            }
            i = i + 1;
        }

        // did the qualifying identities change?
        let mut unchanged = true;
        let mut k: usize = 0;
        while k < self.roots.roots.len()
            invariant
                self.roots.roots@ == r0,
                k <= r0.len(),
                unchanged == forall|k2: int|
                    0 <= k2 < k ==> is_root_identity(new_roots@, (#[trigger] r0[k2]).identity),
            decreases r0.len() - k,
        {
            if !entries_have_identity(&new_roots, self.roots.roots[k].identity) {
                unchanged = false;
            }
            k = k + 1;
        }
        let mut k: usize = 0;
        while k < new_roots.len()
            invariant
                self.roots.roots@ == r0,
                k <= new_roots@.len(),
                unchanged == ((forall|k2: int|
                    0 <= k2 < r0.len() ==> is_root_identity(
                        new_roots@,
                        (#[trigger] r0[k2]).identity,
                    )) && forall|k2: int|
                    0 <= k2 < k ==> is_root_identity(r0, (#[trigger] new_roots@[k2]).identity)),
            decreases new_roots@.len() - k,
        {
            if !entries_have_identity(&self.roots.roots, new_roots[k].identity) {
                unchanged = false;
            }
            k = k + 1;
        }
        let ghost n_bad = bad_events@.len() as int;
        let ghost bad_list = bad_addrs@;
        let ghost nr = new_roots@;
        events.append(&mut bad_events);
        proof {
            assert(events@.len() == n_coll + n_bad);
            assert(forall|k: int|
                0 <= k < n_coll ==> #[trigger] events@[k] == Event::SecurityWarning(
                    SecurityWarningKind::AddressCollision(coll_list[k]),
                ));
            assert(forall|k: int|
                0 <= k < n_bad ==> #[trigger] events@[n_coll + k] == Event::SecurityWarning(
                    SecurityWarningKind::BadIdentity(bad_list[k]),
                ));
        }
        proof {
            // exec comparison coincides with the identity-set comparison
            assert forall|id: Identity|
                #[trigger] qualifying_identity(gsets, p0, me, id) implies is_root_identity(
                new_roots@,
                id,
            ) by {
                let eps = choose|eps: Seq<Endpoint>| qualifying_occurrence(gsets, p0, me, id, eps);
                let (i2, j2) = choose|i2: int, j2: int|
                    0 <= i2 < gsets.len() && 0 <= j2 < gsets[i2].members@.len() && (
                    #[trigger] gsets[i2].members@[j2]).identity == id && gsets[i2].members@[
                        j2
                    ].endpoints@ == eps && id != me && eps.len() > 0 && !address_collides(
                        gsets,
                        p0,
                        me,
                        id.address,
                    ) && (has_peer_with_address(p0, id.address) || Peer::spec_constructible(id));
                assert(occ_qualifies(gsets, p0, me, i2, j2));
            }
            assert forall|k2: int|
                0 <= k2 < new_roots@.len() implies qualifying_identity(
                gsets,
                p0,
                me,
                (#[trigger] new_roots@[k2]).identity,
            ) by {
                assert(qualifying_occurrence(
                    gsets,
                    p0,
                    me,
                    new_roots@[k2].identity,
                    new_roots@[k2].endpoints@,
                ));
            }
            assert(unchanged == roots_ids_match(r0, gsets, p0, me)) by {
                if unchanged {
                    assert forall|k2: int|
                        0 <= k2 < r0.len() implies qualifying_identity(
                        gsets,
                        p0,
                        me,
                        (#[trigger] r0[k2]).identity,
                    ) by {
                        assert(is_root_identity(new_roots@, r0[k2].identity));
                        let kk = choose|kk: int|
                            0 <= kk < new_roots@.len() && (#[trigger] new_roots@[kk]).identity
                                == r0[k2].identity;
                        assert(qualifying_identity(gsets, p0, me, new_roots@[kk].identity));
                    }
                    assert forall|id: Identity|
                        #[trigger] qualifying_identity(gsets, p0, me, id) implies is_root_identity(
                        r0,
                        id,
                    ) by {
                        assert(is_root_identity(new_roots@, id));
                        let kk = choose|kk: int|
                            0 <= kk < new_roots@.len() && (#[trigger] new_roots@[kk]).identity
                                == id;
                        assert(is_root_identity(r0, new_roots@[kk].identity));
                    }
                } else {
                    if roots_ids_match(r0, gsets, p0, me) {
                        assert forall|k2: int|
                            0 <= k2 < r0.len() implies is_root_identity(
                            new_roots@,
                            (#[trigger] r0[k2]).identity,
                        ) by {
                            assert(qualifying_identity(gsets, p0, me, r0[k2].identity));
                        }
                        assert forall|k2: int|
                            0 <= k2 < new_roots@.len() implies is_root_identity(
                            r0,
                            (#[trigger] new_roots@[k2]).identity,
                        ) by {
                            assert(qualifying_identity(gsets, p0, me, new_roots@[k2].identity));
                        }
                        assert(false);
                    }
                }
            }
        }
        if !unchanged {
            let mut old_ids: Vec<Identity> = Vec::new();
            let mut k: usize = 0;
            while k < self.roots.roots.len()
                invariant
                    self.roots.roots@ == r0,
                    k <= r0.len(),
                    old_ids@.len() == k,
                    forall|k2: int| 0 <= k2 < k ==> #[trigger] old_ids@[k2] == r0[k2].identity,
                decreases r0.len() - k,
            {
                old_ids.push(self.roots.roots[k].identity);
                k = k + 1;
            }
            let mut new_ids: Vec<Identity> = Vec::new();
            let mut k: usize = 0;
            while k < new_roots.len()
                invariant
                    k <= new_roots@.len(),
                    new_ids@.len() == k,
                    forall|k2: int|
                        0 <= k2 < k ==> #[trigger] new_ids@[k2] == new_roots@[k2].identity,
                decreases new_roots@.len() - k,
            {
                new_ids.push(new_roots[k].identity);
                k = k + 1;
            }
            events.push(Event::UpdatedRoots(old_ids, new_ids));
            self.roots.roots = new_roots;
            match self.best_root {
                Some(a) => {
                    match root_entry_index(&self.roots.roots, a) {
                        Some(_) => {},
                        None => {
                            self.best_root = None;
                        },
                    }
                },
                None => {},
            }
        }
        self.roots.this_node_in_root_sets = in_sets;
        self.roots.sets_modified = false;
        proof {
            let fev = events@;
            let froots = self.roots.roots@;
            // where each kind of event sits
            assert(!unchanged ==> fev.len() == n_coll + n_bad + 1 && (fev[n_coll + n_bad] matches
                Event::UpdatedRoots(o, n)));
            assert(unchanged ==> fev.len() == n_coll + n_bad);
            // the final roots never hold a colliding or non-qualifying
            // identity
            assert forall|kk: int| 0 <= kk < froots.len() implies qualifying_identity(
                gsets,
                p0,
                me,
                (#[trigger] froots[kk]).identity,
            ) by {
                if unchanged {
                    assert(froots == r0);
                    assert(roots_ids_match(r0, gsets, p0, me));
                } else {
                    assert(froots == nr);
                    assert(qualifying_occurrence(
                        gsets,
                        p0,
                        me,
                        nr[kk].identity,
                        nr[kk].endpoints@,
                    ));
                }
            }
            // collision exclusion, forward
            assert forall|a: Address|
                #[trigger] collision_at(gsets, p0, me, a) implies has_collision_event(fev, a)
                && !is_root_address(froots, a) by {
                let id = choose|id: Identity| member_occurrence(gsets, me, a, id);
                let (i2, j2) = choose|i2: int, j2: int|
                    0 <= i2 < gsets.len() && 0 <= j2 < gsets[i2].members@.len() && (
                    #[trigger] gsets[i2].members@[j2]).identity == id && id.address == a && id
                        != me;
                assert(addr_in(coll_list, a));
                let k = choose|k: int| 0 <= k < coll_list.len() && coll_list[k] == a;
                assert(fev[k] == Event::SecurityWarning(
                    SecurityWarningKind::AddressCollision(a),
                ));
                assert(has_collision_event(fev, a));
                if self.best_root == Some(a) {
                    assert(is_root_address(froots, a));
                }
                if is_root_address(froots, a) {
                    let kk = choose|kk: int|
                        0 <= kk < froots.len() && (#[trigger] froots[kk]).identity.address == a;
                    assert(qualifying_identity(gsets, p0, me, froots[kk].identity));
                    let eps = choose|eps: Seq<Endpoint>|
                        qualifying_occurrence(gsets, p0, me, froots[kk].identity, eps);
                    let (i3, j3) = choose|i3: int, j3: int|
                        0 <= i3 < gsets.len() && 0 <= j3 < gsets[i3].members@.len() && (
                        #[trigger] gsets[i3].members@[j3]).identity == froots[kk].identity
                            && gsets[i3].members@[j3].endpoints@ == eps && froots[kk].identity
                            != me && eps.len() > 0 && !address_collides(
                            gsets,
                            p0,
                            me,
                            froots[kk].identity.address,
                        ) && (has_peer_with_address(p0, froots[kk].identity.address)
                            || Peer::spec_constructible(froots[kk].identity));
                    assert(false);
                }
            }
            // collision warnings, reverse: each one is justified
            assert forall|a: Address| #[trigger] has_collision_event(fev, a) implies collision_at(
                gsets,
                p0,
                me,
                a,
            ) by {
                let m = choose|m: int|
                    0 <= m < fev.len() && fev[m] == Event::SecurityWarning(
                        SecurityWarningKind::AddressCollision(a),
                    );
                if m < n_coll {
                    assert(fev[m] == Event::SecurityWarning(
                        SecurityWarningKind::AddressCollision(coll_list[m]),
                    ));
                    assert(coll_list[m] == a);
                    assert(collision_at(gsets, p0, me, coll_list[m]));
                } else if m < n_coll + n_bad {
                    assert(fev[m] == Event::SecurityWarning(
                        SecurityWarningKind::BadIdentity(bad_list[m - n_coll]),
                    ));
                    assert(false);
                } else {
                    assert(fev[m] matches Event::UpdatedRoots(o, n));
                    assert(false);
                }
            }
            // bad identities, forward
            assert forall|a: Address|
                #[trigger] bad_identity_occurrence(gsets, p0, me, a) implies has_bad_identity_event(
                fev,
                a,
            ) by {
                let (i2, j2) = choose|i2: int, j2: int|
                    0 <= i2 < gsets.len() && 0 <= j2 < gsets[i2].members@.len() && (
                    #[trigger] gsets[i2].members@[j2]).identity.address == a && gsets[i2].members@[
                        j2
                    ].identity != me && gsets[i2].members@[j2].endpoints@.len() > 0
                        && !address_collides(gsets, p0, me, a) && !has_peer_with_address(p0, a)
                        && !Peer::spec_constructible(gsets[i2].members@[j2].identity);
                assert(occ_bad(gsets, p0, me, i2, j2));
                assert(addr_in(bad_list, a));
                let k = choose|k: int| 0 <= k < bad_list.len() && bad_list[k] == a;
                assert(fev[n_coll + k] == Event::SecurityWarning(
                    SecurityWarningKind::BadIdentity(a),
                ));
                assert(has_bad_identity_event(fev, a));
            }
            // bad identities, reverse
            assert forall|a: Address|
                #[trigger] has_bad_identity_event(fev, a) implies bad_identity_occurrence(
                gsets,
                p0,
                me,
                a,
            ) by {
                let m = choose|m: int|
                    0 <= m < fev.len() && fev[m] == Event::SecurityWarning(
                        SecurityWarningKind::BadIdentity(a),
                    );
                if m < n_coll {
                    assert(fev[m] == Event::SecurityWarning(
                        SecurityWarningKind::AddressCollision(coll_list[m]),
                    ));
                    assert(false);
                } else if m < n_coll + n_bad {
                    assert(fev[m] == Event::SecurityWarning(
                        SecurityWarningKind::BadIdentity(bad_list[m - n_coll]),
                    ));
                    assert(bad_list[m - n_coll] == a);
                    assert(bad_identity_occurrence(gsets, p0, me, bad_list[m - n_coll]));
                } else {
                    assert(fev[m] matches Event::UpdatedRoots(o, n));
                    assert(false);
                }
            }
            // every event is a warning or the rebuild report
            assert forall|m: int| 0 <= m < fev.len() implies ((#[trigger] fev[m]) matches
                Event::SecurityWarning(w) || fev[m] matches Event::UpdatedRoots(o, n)) by {
                if m < n_coll {
                    assert(fev[m] == Event::SecurityWarning(
                        SecurityWarningKind::AddressCollision(coll_list[m]),
                    ));
                } else if m < n_coll + n_bad {
                    assert(fev[m] == Event::SecurityWarning(
                        SecurityWarningKind::BadIdentity(bad_list[m - n_coll]),
                    ));
                }
            }
            // no event repeats
            assert forall|m1: int, m2: int| 0 <= m1 < m2 < fev.len() implies (#[trigger] fev[m1])
                != (#[trigger] fev[m2]) by {
                if m2 < n_coll {
                    assert(coll_list[m1] != coll_list[m2]);
                } else if m2 < n_coll + n_bad {
                    if m1 >= n_coll {
                        assert(bad_list[m1 - n_coll] != bad_list[m2 - n_coll]);
                    }
                }
            }
            // the swap clause
            if unchanged {
                assert(!has_updated_roots_event(fev)) by {
                    if has_updated_roots_event(fev) {
                        let m = choose|m: int|
                            0 <= m < fev.len() && ((#[trigger] fev[m]) matches Event::UpdatedRoots(
                                o,
                                n,
                            ));
                        if m < n_coll {
                            assert(fev[m] == Event::SecurityWarning(
                                SecurityWarningKind::AddressCollision(coll_list[m]),
                            ));
                        } else {
                            assert(fev[m] == Event::SecurityWarning(
                                SecurityWarningKind::BadIdentity(bad_list[m - n_coll]),
                            ));
                        }
                        assert(false);
                    }
                }
            } else {
                assert(has_updated_roots_event(fev));
                assert forall|id: Identity|
                    #[trigger] qualifying_identity(gsets, p0, me, id) implies is_root_identity(
                    froots,
                    id,
                ) by {
                    assert(is_root_identity(nr, id));
                }
            }
        }
        events
    }

    /// One background scheduling tick, at a one-second cadence.
    ///
    /// Six interval gates are polled up front; the selected maintenance
    /// actions then run: root sync and best-root election, HELLOs to every
    /// declared root endpoint (more often while offline), the peer, path
    /// and WHOIS sweeps. Everything to be sent or reported is handed back;
    /// the caller reschedules after `interval_ms`.
    #[verifier::rlimit(100)]
    pub fn do_background_tasks<H: HostSystem>(&mut self, host: &H, time_ticks: i64) -> (r:
        BackgroundTaskResult)
        requires
            old(self).wf(),
            0 <= time_ticks <= TICKS_MAX,
        ensures
            final(self).wf(),
            same_identity(*old(self), *final(self)),
            // each gate latches the tick exactly when its cadence is due
            final(self).spec_root_sync_last() == if old(self).root_sync_due(time_ticks) {
                time_ticks
            } else {
                old(self).spec_root_sync_last()
            },
            final(self).spec_root_hello_last() == if old(self).root_hello_due(time_ticks) {
                time_ticks
            } else {
                old(self).spec_root_hello_last()
            },
            final(self).spec_root_spam_hello_last() == if old(self).root_spam_hello_due(
                time_ticks,
            ) {
                time_ticks
            } else {
                old(self).spec_root_spam_hello_last()
            },
            final(self).spec_peer_service_last() == if old(self).peer_service_due(time_ticks) {
                time_ticks
            } else {
                old(self).spec_peer_service_last()
            },
            final(self).spec_path_service_last() == if old(self).path_service_due(time_ticks) {
                time_ticks
            } else {
                old(self).spec_path_service_last()
            },
            final(self).spec_whois_retry_last() == if old(self).whois_retry_due(time_ticks) {
                time_ticks
            } else {
                old(self).spec_whois_retry_last()
            },
            r.interval_ms == 1000,
            // the trusted sets themselves never move during a tick
            final(self).spec_root_sets() == old(self).spec_root_sets(),
            // a tick reports online transitions, warnings and root swaps,
            // nothing else
            forall|m: int|
                0 <= m < r.events@.len() ==> ((#[trigger] r.events@[m]) matches Event::Online(b)
                    || r.events@[m] matches Event::SecurityWarning(w) || r.events@[m] matches
                    Event::UpdatedRoots(o, n)),
            // a tick without root sync elects nothing and reports nothing
            !old(self).root_sync_due(time_ticks) ==> final(self).spec_online() == old(self).spec_online() && final(self).spec_roots() == old(self).spec_roots() && final(self).spec_best_root() == old(self).spec_best_root() && r.events@.len() == 0 && final(self).spec_sets_modified() == old(self).spec_sets_modified() && final(self).spec_this_node_in_root_sets() == old(self).spec_this_node_in_root_sets(),
            // exactly one Online event per transition, none otherwise
            final(self).spec_online() != old(self).spec_online() ==> has_online_event(
                r.events@,
                final(self).spec_online(),
            ),
            final(self).spec_online() == old(self).spec_online() ==> forall|m: int|
                0 <= m < r.events@.len() ==> !((#[trigger] r.events@[m]) matches Event::Online(b)),
            forall|m: int|
                0 <= m < r.events@.len() ==> ((#[trigger] r.events@[m]) matches Event::Online(b)
                    ==> b == final(self).spec_online()),
            forall|m1: int, m2: int|
                0 <= m1 < m2 < r.events@.len() ==> !(((#[trigger] r.events@[m1]) matches
                Event::Online(b1)) && ((#[trigger] r.events@[m2]) matches Event::Online(b2))),
            // HELLOs go to every declared endpoint of every root, and only
            // to those; none when no HELLO cadence is due
            (old(self).root_hello_due(time_ticks) || (old(self).root_spam_hello_due(time_ticks)
                && !old(self).spec_online())) ==> (forall|m: int|
                0 <= m < r.hellos@.len() ==> hello_justified(
                    final(self).spec_roots(),
                    #[trigger] r.hellos@[m],
                )) && (forall|k: int, t: int|
                0 <= k < final(self).spec_roots().len() && 0 <= t < final(self).spec_roots()[
                    k
                ].endpoints@.len() ==> hello_present(
                    r.hellos@,
                    final(self).spec_roots()[k].identity.address,
                    #[trigger] final(self).spec_roots()[k].endpoints@[t],
                )),
            !(old(self).root_hello_due(time_ticks) || (old(self).root_spam_hello_due(time_ticks)
                && !old(self).spec_online())) ==> r.hellos@.len() == 0,
            // gated-off sweeps leave their tables alone
            !old(self).peer_service_due(time_ticks) && !old(self).root_sync_due(time_ticks)
                ==> final(self).spec_peers() == old(self).spec_peers(),
            !old(self).path_service_due(time_ticks) ==> final(self).spec_paths() == old(self).spec_paths() && r.keepalives@.len() == 0,
            !old(self).whois_retry_due(time_ticks) ==> final(self).spec_whois_queue() == old(self).spec_whois_queue() && r.whois is None,
            // root sync: the modified-sets flag is consumed, and a sync
            // with nothing pending rebuilds nothing and warns about
            // nothing
            old(self).root_sync_due(time_ticks) ==> !final(self).spec_sets_modified(),
            old(self).root_sync_due(time_ticks) && !old(self).spec_sets_modified() ==> final(self).spec_roots() == old(self).spec_roots() && final(self).spec_this_node_in_root_sets()
                == old(self).spec_this_node_in_root_sets() && (forall|m: int|
                0 <= m < r.events@.len() ==> ((#[trigger] r.events@[m]) matches Event::Online(b))),
            // root sync with pending modifications: the rebuild's law,
            // carried whole
            old(self).root_sync_due(time_ticks) && old(self).spec_sets_modified() ==> final(self).spec_this_node_in_root_sets() == this_node_listed(
                old(self).spec_root_sets(),
                old(self).spec_identity(),
            ),
            old(self).root_sync_due(time_ticks) && old(self).spec_sets_modified() ==> forall|
                a: Address,
            |
                #[trigger] collision_at(
                    old(self).spec_root_sets(),
                    old(self).spec_peers(),
                    old(self).spec_identity(),
                    a,
                ) ==> has_collision_event(r.events@, a) && !is_root_address(
                    final(self).spec_roots(),
                    a,
                ) && final(self).spec_best_root() != Some(a),
            old(self).root_sync_due(time_ticks) && old(self).spec_sets_modified() ==> forall|
                a: Address,
            |
                #[trigger] has_collision_event(r.events@, a) ==> collision_at(
                    old(self).spec_root_sets(),
                    old(self).spec_peers(),
                    old(self).spec_identity(),
                    a,
                ),
            old(self).root_sync_due(time_ticks) && old(self).spec_sets_modified() ==> forall|
                a: Address,
            |
                #[trigger] bad_identity_occurrence(
                    old(self).spec_root_sets(),
                    old(self).spec_peers(),
                    old(self).spec_identity(),
                    a,
                ) ==> has_bad_identity_event(r.events@, a),
            old(self).root_sync_due(time_ticks) && old(self).spec_sets_modified() ==> forall|
                a: Address,
            |
                #[trigger] has_bad_identity_event(r.events@, a) ==> bad_identity_occurrence(
                    old(self).spec_root_sets(),
                    old(self).spec_peers(),
                    old(self).spec_identity(),
                    a,
                ),
            old(self).root_sync_due(time_ticks) && old(self).spec_sets_modified() ==> (
            has_updated_roots_event(r.events@) <==> !roots_ids_match(
                old(self).spec_roots(),
                old(self).spec_root_sets(),
                old(self).spec_peers(),
                old(self).spec_identity(),
            )),
            old(self).root_sync_due(time_ticks) && old(self).spec_sets_modified() ==> forall|
                m: int,
            |
                0 <= m < r.events@.len() ==> ((#[trigger] r.events@[m]) matches
                Event::UpdatedRoots(o, n) ==> o@.len() == old(self).spec_roots().len() && (forall|
                    k: int,
                |
                    0 <= k < o@.len() ==> #[trigger] o@[k] == old(self).spec_roots()[k].identity)
                    && n@.len() == final(self).spec_roots().len() && (forall|k: int|
                    0 <= k < n@.len() ==> #[trigger] n@[k] == final(self).spec_roots()[
                        k
                    ].identity)),
            old(self).root_sync_due(time_ticks) && old(self).spec_sets_modified()
                && roots_ids_match(
                old(self).spec_roots(),
                old(self).spec_root_sets(),
                old(self).spec_peers(),
                old(self).spec_identity(),
            ) ==> final(self).spec_roots() == old(self).spec_roots(),
            old(self).root_sync_due(time_ticks) && old(self).spec_sets_modified()
                && !roots_ids_match(
                old(self).spec_roots(),
                old(self).spec_root_sets(),
                old(self).spec_peers(),
                old(self).spec_identity(),
            ) ==> (forall|k: int|
                0 <= k < final(self).spec_roots().len() ==> qualifying_occurrence(
                    old(self).spec_root_sets(),
                    old(self).spec_peers(),
                    old(self).spec_identity(),
                    (#[trigger] final(self).spec_roots()[k]).identity,
                    final(self).spec_roots()[k].endpoints@,
                )) && (forall|id2: Identity|
                #[trigger] qualifying_identity(
                    old(self).spec_root_sets(),
                    old(self).spec_peers(),
                    old(self).spec_identity(),
                    id2,
                ) ==> is_root_identity(final(self).spec_roots(), id2)),
            // the election settles online and best root against the
            // rebuilt tables
            old(self).root_sync_due(time_ticks) ==> (final(self).spec_best_root() is Some <==>
            final(self).max_root_reply() > 0),
            old(self).root_sync_due(time_ticks) ==> (final(self).spec_best_root() matches Some(a)
                ==> exists|i: int|
                0 <= i < final(self).spec_roots().len() && (#[trigger] final(self).spec_roots()[
                    i
                ]).identity.address == a && final(self).root_reply(i) == final(self).max_root_reply()),
            old(self).root_sync_due(time_ticks) ==> final(self).spec_online() == (final(self).max_root_reply() > 0 && time_ticks - final(self).max_root_reply() < 2
                * ROOT_HELLO_INTERVAL),
            // the peer sweep: live-or-root peers survive, nothing else
            old(self).peer_service_due(time_ticks) ==> (forall|j: int|
                0 <= j < old(self).spec_peers().len() && keep_peer(
                    #[trigger] old(self).spec_peers()[j],
                    final(self).spec_roots(),
                    time_ticks,
                ) ==> peer_present(final(self).spec_peers(), old(self).spec_peers()[j])) && (
            forall|k: int|
                0 <= k < final(self).spec_peers().len() ==> (peer_present(
                    old(self).spec_peers(),
                    #[trigger] final(self).spec_peers()[k],
                ) || qualifying_identity(
                    old(self).spec_root_sets(),
                    old(self).spec_peers(),
                    old(self).spec_identity(),
                    final(self).spec_peers()[k].spec_identity(),
                )) && keep_peer(
                    final(self).spec_peers()[k],
                    final(self).spec_roots(),
                    time_ticks,
                )),
            !old(self).peer_service_due(time_ticks) && old(self).root_sync_due(time_ticks)
                ==> old(self).spec_peers().len() <= final(self).spec_peers().len() && (forall|
                j: int,
            |
                0 <= j < old(self).spec_peers().len() ==> final(self).spec_peers()[j] == old(self).spec_peers()[j]) && (forall|j: int|
                old(self).spec_peers().len() <= j < final(self).spec_peers().len()
                    ==> Peer::spec_constructible(
                    (#[trigger] final(self).spec_peers()[j]).spec_identity(),
                ) && qualifying_identity(
                    old(self).spec_root_sets(),
                    old(self).spec_peers(),
                    old(self).spec_identity(),
                    final(self).spec_peers()[j].spec_identity(),
                )),
            // the path sweep: dead paths never survive, quiet survivors
            // get exactly one keepalive each
            old(self).path_service_due(time_ticks) ==> (forall|k: int|
                0 <= k < final(self).spec_paths().len() ==> path_from(
                    old(self).spec_paths(),
                    0,
                    time_ticks,
                    #[trigger] final(self).spec_paths()[k],
                )) && (forall|j: int|
                0 <= j < old(self).spec_paths().len() && (
                #[trigger] old(self).spec_paths()[j]).spec_service(time_ticks)
                    == PathServiceResult::Dead ==> !path_present(
                    final(self).spec_paths(),
                    old(self).spec_paths()[j],
                )) && (forall|j: int|
                0 <= j < old(self).spec_paths().len() && (
                #[trigger] old(self).spec_paths()[j]).spec_service(time_ticks)
                    == PathServiceResult::NeedsKeepalive ==> (path_present(
                    final(self).spec_paths(),
                    old(self).spec_paths()[j],
                ) <==> has_keepalive_for(r.keepalives@, old(self).spec_paths()[j]))) && (forall|
                m: int,
            |
                0 <= m < r.keepalives@.len() ==> keepalive_source(
                    final(self).spec_paths(),
                    time_ticks,
                    #[trigger] r.keepalives@[m],
                )),
            // the WHOIS retry sweep: entries past the budget are gone,
            // survivors are bumped and batched to the best root
            old(self).whois_retry_due(time_ticks) ==> (forall|j: int|
                0 <= j < old(self).spec_whois_queue().len() && (
                #[trigger] old(self).spec_whois_queue()[j]).retry_count <= WHOIS_RETRY_COUNT_MAX
                    ==> whois_present_bumped(
                    final(self).spec_whois_queue(),
                    old(self).spec_whois_queue()[j],
                )) && (forall|k: int|
                0 <= k < final(self).spec_whois_queue().len() ==> whois_from(
                    old(self).spec_whois_queue(),
                    0,
                    #[trigger] final(self).spec_whois_queue()[k],
                )),
            old(self).whois_retry_due(time_ticks) && final(self).spec_whois_queue().len() > 0
                ==> match final(self).spec_best_root() {
                Some(root) => r.whois matches Some(w) && w.root == root && w.addresses@.len()
                    == final(self).spec_whois_queue().len() && (forall|k: int|
                    0 <= k < final(self).spec_whois_queue().len() ==> #[trigger] w.addresses@[k]
                        == final(self).spec_whois_queue()[k].address),
                None => r.whois is None,
            },
            old(self).whois_retry_due(time_ticks) && final(self).spec_whois_queue().len() == 0
                ==> r.whois is None,
    {
        let root_sync = self.intervals.root_sync.gate(time_ticks);
        let root_hello = self.intervals.root_hello.gate(time_ticks);
        let mut root_spam_hello = self.intervals.root_spam_hello.gate(time_ticks);
        let peer_service = self.intervals.peer_service.gate(time_ticks);
        let path_service = self.intervals.path_service.gate(time_ticks);
        let whois_queue_retry = self.intervals.whois_queue_retry.gate(time_ticks);

        // contact roots more often only while offline
        if root_spam_hello {
            root_spam_hello = !self.is_online();
        }

        let mut events: Vec<Event> = Vec::new();
        let ghost mut s_sync: Node = *self;
        let ghost mut s_elect: Node = *self;
        let ghost mut n_sync_events: int = 0;
        let ghost mut sev_all: Seq<Event> = Seq::empty();
        if root_sync {
            if self.roots.sets_modified {
                let mut sync_events = self.rebuild_roots(time_ticks);
                let ghost sev = sync_events@;
                events.append(&mut sync_events);
                proof {
                    assert(events@ == sev);
                }
            }
            proof {
                s_sync = *self;
                n_sync_events = events@.len() as int;
                sev_all = events@;
                assert(forall|m: int|
                    0 <= m < events@.len() ==> !((#[trigger] events@[m]) matches Event::Online(
                        b,
                    )));
            }
            match self.update_best_root(time_ticks) {
                Some(ev) => {
                    let ghost b = self.spec_online();
                    events.push(ev);
                    proof {
                        assert(events@[events@.len() - 1] == Event::Online(b));
                        assert(has_online_event(events@, b));
                    }
                },
                None => {},
            }
            proof {
                s_elect = *self;
                // above the rebuild's report there is at most the
                // election's one Online event
                assert(forall|m: int|
                    n_sync_events <= m < events@.len() ==> ((#[trigger] events@[m]) matches
                    Event::Online(b)));
                // the election never reseats a non-root as best
                assert(match self.best_root {
                    Some(b) => is_root_address(self.roots.roots@, b),
                    None => true,
                });
            }
        }

        let mut hellos: Vec<HelloDirective> = Vec::new();
        if root_hello || root_spam_hello {
            let ghost roots_now = self.roots.roots@;
            let mut k: usize = 0;
            while k < self.roots.roots.len()
                invariant
                    roots_now == self.roots.roots@,
                    k <= roots_now.len(),
                    forall|m: int|
                        0 <= m < hellos@.len() ==> hello_justified(
                            roots_now,
                            #[trigger] hellos@[m],
                        ),
                    forall|k2: int, t2: int|
                        0 <= k2 < k && 0 <= t2 < roots_now[k2].endpoints@.len() ==> hello_present(
                            hellos@,
                            roots_now[k2].identity.address,
                            #[trigger] roots_now[k2].endpoints@[t2],
                        ),
                decreases roots_now.len() - k,
            {
                let mut t: usize = 0;
                while t < self.roots.roots[k].endpoints.len()
                    invariant
                        roots_now == self.roots.roots@,
                        k < roots_now.len(),
                        t <= roots_now[k as int].endpoints@.len(),
                        forall|m: int|
                            0 <= m < hellos@.len() ==> hello_justified(
                                roots_now,
                                #[trigger] hellos@[m],
                            ),
                        forall|k2: int, t2: int|
                            0 <= k2 < roots_now.len() && 0 <= t2 < roots_now[k2].endpoints@.len()
                                && (k2 < k || (k2 == k && t2 < t)) ==> hello_present(
                                hellos@,
                                roots_now[k2].identity.address,
                                #[trigger] roots_now[k2].endpoints@[t2],
                            ),
                    decreases roots_now[k as int].endpoints@.len() - t,
                {
                    let ghost pre_hellos = hellos@;
                    let h = HelloDirective {
                        root: self.roots.roots[k].identity.address,
                        endpoint: self.roots.roots[k].endpoints[t],
                    };
                    proof {
                        assert(hello_justified(roots_now, h));
                    }
                    hellos.push(h);
                    t = t + 1;
                    proof {
                        assert forall|k2: int, t2: int|
                            0 <= k2 < roots_now.len() && 0 <= t2 < roots_now[k2].endpoints@.len()
                                && (k2 < k || (k2 == k && t2 < t)) implies hello_present(
                            hellos@,
                            roots_now[k2].identity.address,
                            #[trigger] roots_now[k2].endpoints@[t2],
                        ) by {
                            if k2 == k as int && t2 == t - 1 {
                                assert(hellos@[hellos@.len() - 1] == HelloDirective {
                                    root: roots_now[k2].identity.address,
                                    endpoint: roots_now[k2].endpoints@[t2],
                                });
                            } else {
                                assert(hello_present(
                                    pre_hellos,
                                    roots_now[k2].identity.address,
                                    roots_now[k2].endpoints@[t2],
                                ));
                                let m = choose|m: int|
                                    0 <= m < pre_hellos.len() && pre_hellos[m] == HelloDirective {
                                        root: roots_now[k2].identity.address,
                                        endpoint: roots_now[k2].endpoints@[t2],
                                    };
                                assert(hellos@[m] == pre_hellos[m]);
                            }
                        }
                    }
                }
                k = k + 1;
            }
        }

        if peer_service {
            self.peer_service_sweep(time_ticks);
        }

        let keepalives: Vec<WireSend> = if path_service {
            self.path_service_sweep(host, time_ticks)
        } else {
            Vec::new()
        };

        let whois: Option<WhoisRequest> = if whois_queue_retry {
            let ghost mid = *self;
            let w = self.whois_retry_sweep();
            proof {
                let fin = *self;
                assert(mid.spec_whois_queue() == old(self).spec_whois_queue());
                assert(forall|j: int|
                    0 <= j < mid.spec_whois_queue().len() && (
                    #[trigger] mid.spec_whois_queue()[j]).retry_count <= WHOIS_RETRY_COUNT_MAX
                        ==> whois_present_bumped(
                        fin.spec_whois_queue(),
                        mid.spec_whois_queue()[j],
                    ));
                assert(forall|k: int|
                    0 <= k < fin.spec_whois_queue().len() ==> whois_from(
                        mid.spec_whois_queue(),
                        0,
                        #[trigger] fin.spec_whois_queue()[k],
                    ));
            }
            w
        } else {
            None
        };

        proof {
            let cur = *self;
            if root_sync {
                assert(s_elect.wf());
                assert(cur.spec_roots() == s_elect.spec_roots());
                // every remaining peer was already seated when the
                // election ran
                assert forall|k: int| 0 <= k < cur.spec_peers().len() implies peer_present(
                    s_elect.spec_peers(),
                    #[trigger] cur.spec_peers()[k],
                ) by {
                    if !peer_service {
                        assert(cur.spec_peers()[k] == s_elect.spec_peers()[k]);
                    }
                }
                // so every root's reply reads the same now as then
                assert forall|i: int| 0 <= i < cur.spec_roots().len() implies #[trigger] cur.root_reply(
                    i,
                ) == s_elect.root_reply(i) by {
                    let a = cur.spec_roots()[i].identity.address;
                    assert(peer_backs(cur.spec_peers(), cur.spec_roots()[i].identity));
                    let kb = choose|kb: int|
                        0 <= kb < cur.spec_peers().len() && (#[trigger] cur.spec_peers()[
                            kb
                        ]).spec_identity() == cur.spec_roots()[i].identity;
                    assert(has_peer_with_address(cur.spec_peers(), a));
                    lemma_peer_lookup_stable(s_elect.spec_peers(), cur.spec_peers(), a);
                }
                lemma_election_stable(cur, s_elect, cur.spec_roots().len() as int);
                // and the same then as when the election computed it
                assert(s_elect.spec_roots() == s_sync.spec_roots());
                assert(s_elect.spec_peers() == s_sync.spec_peers());
                assert forall|i: int|
                    0 <= i < s_elect.spec_roots().len() implies #[trigger] s_elect.root_reply(i)
                    == s_sync.root_reply(i) by {}
                lemma_election_stable(s_elect, s_sync, s_elect.spec_roots().len() as int);
                assert(cur.max_root_reply() == s_sync.max_root_reply());
                assert(cur.spec_best_root() == s_elect.spec_best_root());
                assert(cur.spec_online() == s_elect.spec_online());
                // best root carries over from the election's law
                match cur.spec_best_root() {
                    Some(a) => {
                        let i = choose|i: int|
                            0 <= i < s_sync.spec_roots().len() && (#[trigger] s_sync.spec_roots()[
                                i
                            ]).identity.address == a && s_sync.root_reply(i)
                                == s_sync.max_root_reply();
                        assert(cur.spec_roots()[i].identity.address == a && cur.root_reply(i)
                            == cur.max_root_reply());
                    },
                    None => {},
                }
                // events: below the election's entry everything is the
                // rebuild's report
                assert(forall|m: int| 0 <= m < n_sync_events ==> #[trigger] events@[m] == sev_all[m]);
                if old(self).spec_sets_modified() {
                    assert forall|a: Address|
                        #[trigger] collision_at(
                            old(self).spec_root_sets(),
                            old(self).spec_peers(),
                            old(self).spec_identity(),
                            a,
                        ) implies has_collision_event(events@, a) && !is_root_address(
                        cur.spec_roots(),
                        a,
                    ) && cur.spec_best_root() != Some(a) by {
                        assert(has_collision_event(sev_all, a));
                        let m = choose|m: int|
                            0 <= m < sev_all.len() && sev_all[m] == Event::SecurityWarning(
                                SecurityWarningKind::AddressCollision(a),
                            );
                        assert(events@[m] == Event::SecurityWarning(
                            SecurityWarningKind::AddressCollision(a),
                        ));
                        assert(has_collision_event(events@, a));
                        if cur.spec_best_root() == Some(a) {
                            assert(is_root_address(cur.spec_roots(), a));
                            assert(false);
                        }
                    }
                    assert forall|a: Address|
                        #[trigger] has_collision_event(events@, a) implies collision_at(
                        old(self).spec_root_sets(),
                        old(self).spec_peers(),
                        old(self).spec_identity(),
                        a,
                    ) by {
                        let m = choose|m: int|
                            0 <= m < events@.len() && events@[m] == Event::SecurityWarning(
                                SecurityWarningKind::AddressCollision(a),
                            );
                        if m >= n_sync_events {
                            assert(events@[m] matches Event::Online(b));
                            assert(false);
                        }
                        assert(sev_all[m] == events@[m]);
                        assert(has_collision_event(sev_all, a));
                    }
                    assert forall|a: Address|
                        #[trigger] bad_identity_occurrence(
                            old(self).spec_root_sets(),
                            old(self).spec_peers(),
                            old(self).spec_identity(),
                            a,
                        ) implies has_bad_identity_event(events@, a) by {
                        assert(has_bad_identity_event(sev_all, a));
                        let m = choose|m: int|
                            0 <= m < sev_all.len() && sev_all[m] == Event::SecurityWarning(
                                SecurityWarningKind::BadIdentity(a),
                            );
                        assert(events@[m] == Event::SecurityWarning(
                            SecurityWarningKind::BadIdentity(a),
                        ));
                        assert(has_bad_identity_event(events@, a));
                    }
                    assert forall|a: Address|
                        #[trigger] has_bad_identity_event(events@, a) implies bad_identity_occurrence(
                        old(self).spec_root_sets(),
                        old(self).spec_peers(),
                        old(self).spec_identity(),
                        a,
                    ) by {
                        let m = choose|m: int|
                            0 <= m < events@.len() && events@[m] == Event::SecurityWarning(
                                SecurityWarningKind::BadIdentity(a),
                            );
                        if m >= n_sync_events {
                            assert(events@[m] matches Event::Online(b));
                            assert(false);
                        }
                        assert(sev_all[m] == events@[m]);
                        assert(has_bad_identity_event(sev_all, a));
                    }
                    assert(has_updated_roots_event(events@) <==> has_updated_roots_event(
                        sev_all,
                    )) by {
                        if has_updated_roots_event(events@) {
                            let m = choose|m: int|
                                0 <= m < events@.len() && ((#[trigger] events@[m]) matches
                                Event::UpdatedRoots(o, n));
                            if m >= n_sync_events {
                                assert(events@[m] matches Event::Online(b));
                                assert(false);
                            }
                            assert(sev_all[m] == events@[m]);
                            assert(has_updated_roots_event(sev_all));
                        }
                        if has_updated_roots_event(sev_all) {
                            let m = choose|m: int|
                                0 <= m < sev_all.len() && ((#[trigger] sev_all[m]) matches
                                Event::UpdatedRoots(o, n));
                            assert(events@[m] == sev_all[m]);
                            assert(has_updated_roots_event(events@));
                        }
                    }
                }
            }
        }
        BackgroundTaskResult { interval_ms: 1000, events, hellos, keepalives, whois }
    }

    /// Record that the peer at `from` answered one of our HELLOs; feeds
    /// the best-root election. The embedding calls this when the upper
    /// layer recognizes a HELLO reply.
    pub fn record_hello_reply(&mut self, from: Address, time_ticks: i64)
        requires
            old(self).wf(),
            0 <= time_ticks <= TICKS_MAX,
        ensures
            final(self).wf(),
            same_identity(*old(self), *final(self)),
            gates_unchanged(*old(self), *final(self)),
            final(self).spec_peers().len() == old(self).spec_peers().len(),
            has_peer_with_address(old(self).spec_peers(), from) ==> exists|j: int|
                0 <= j < old(self).spec_peers().len() && old(self).spec_peers()[
                    j
                ].spec_identity().address == from && final(self).spec_peers() == old(self).spec_peers().update(j, (#[trigger] final(self).spec_peers()[j]))
                    && final(self).spec_peers()[j].spec_identity() == old(self).spec_peers()[
                    j
                ].spec_identity() && final(self).spec_peers()[j].spec_last_hello_reply()
                    == time_ticks,
            !has_peer_with_address(old(self).spec_peers(), from) ==> final(self).spec_peers()
                == old(self).spec_peers(),
            final(self).spec_paths() == old(self).spec_paths(),
            final(self).spec_root_sets() == old(self).spec_root_sets(),
            final(self).spec_roots() == old(self).spec_roots(),
            final(self).spec_best_root() == old(self).spec_best_root(),
            final(self).spec_online() == old(self).spec_online(),
            final(self).spec_whois_queue() == old(self).spec_whois_queue(),
            final(self).spec_sets_modified() == old(self).spec_sets_modified(),
            final(self).spec_this_node_in_root_sets() == old(self).spec_this_node_in_root_sets(),
    {
        match self.find_peer_index(from) {
            Some(j) => {
                let ghost pre_peers = self.peers@;
                self.peers[j].record_hello_reply(time_ticks);
                proof {
                    assert forall|a: int, b: int| 0 <= a < b < self.peers@.len() implies (
                    #[trigger] self.peers@[a]).spec_identity().address != (
                    #[trigger] self.peers@[b]).spec_identity().address by {
                        assert(pre_peers[a].spec_identity() == self.peers@[a].spec_identity());
                        assert(pre_peers[b].spec_identity() == self.peers@[b].spec_identity());
                    }
                    assert(peers_unique(self.peers@));
                    assert forall|ri: int| 0 <= ri < self.roots.roots@.len() implies peer_backs(
                        self.peers@,
                        (#[trigger] self.roots.roots@[ri]).identity,
                    ) by {
                        assert(peer_backs(pre_peers, self.roots.roots@[ri].identity));
                        let kb = choose|kb: int|
                            0 <= kb < pre_peers.len() && (#[trigger] pre_peers[
                                kb
                            ]).spec_identity() == self.roots.roots@[ri].identity;
                        assert(self.peers@[kb].spec_identity() == self.roots.roots@[ri].identity);
                    }
                    assert(self.peers@[j as int].spec_identity().address == from);
                    assert(self.peers@ =~= pre_peers.update(j as int, self.peers@[j as int]));
                }
            },
            None => {},
        }
    }

    /// Dispatch one inbound datagram.
    ///
    /// A v2 datagram is handed back untouched. A legacy v1 datagram is
    /// parsed; traffic for this node canonicalizes its arrival path, goes
    /// through that path's reassembler when fragmented, and is delivered to
    /// the inner protocol (or queued behind a WHOIS lookup when the source
    /// is unknown). Traffic for another node has its hop nibble raised in
    /// place and is forwarded over the destination peer's direct path, or
    /// dropped at the hop limit or for want of a route.
    #[verifier::rlimit(100)]
    pub fn handle_incoming_physical_packet<I: InnerProtocol>(
        &mut self,
        inner: &I,
        source_endpoint: &Endpoint,
        source_local_socket: LocalSocket,
        source_local_interface: LocalInterface,
        data: Vec<u8>,
        time_ticks: i64,
    ) -> (r: IngressResult)
        requires
            old(self).wf(),
            0 <= time_ticks <= TICKS_MAX,
        ensures
            final(self).wf(),
            same_identity(*old(self), *final(self)),
            gates_unchanged(*old(self), *final(self)),
            // ingress never touches the trust state
            final(self).spec_root_sets() == old(self).spec_root_sets(),
            final(self).spec_roots() == old(self).spec_roots(),
            final(self).spec_best_root() == old(self).spec_best_root(),
            final(self).spec_online() == old(self).spec_online(),
            final(self).spec_sets_modified() == old(self).spec_sets_modified(),
            final(self).spec_this_node_in_root_sets() == old(self).spec_this_node_in_root_sets(),
            // and never adds, removes or re-identifies a peer
            final(self).spec_peers().len() == old(self).spec_peers().len(),
            forall|k: int|
                0 <= k < old(self).spec_peers().len() ==> (#[trigger] final(self).spec_peers()[
                    k
                ]).spec_identity() == old(self).spec_peers()[k].spec_identity(),
            // the v2 discriminator is honored before anything else
            spec_is_v2(data@) ==> r == IngressResult::V2Packet && final(self).spec_paths() == old(self).spec_paths() && final(self).spec_peers() == old(self).spec_peers() && final(self).spec_whois_queue() == old(self).spec_whois_queue(),
            // malformed v1 datagrams are dropped without effect
            !spec_is_v2(data@) && (data@.len() < FRAGMENT_HEADER_SIZE || !address_value_valid(
                spec_dest_value(data@),
            )) ==> r == IngressResult::DroppedMalformed && final(self).spec_paths() == old(self).spec_paths() && final(self).spec_peers() == old(self).spec_peers() && final(self).spec_whois_queue() == old(self).spec_whois_queue(),
            // forwarding: the hop limit is final
            v1_ok(data@) && spec_dest_value(data@) != old(self).spec_identity().address.value()
                && !v1_parseable(data@) ==> r == IngressResult::DroppedMalformed && final(self).spec_paths() == old(self).spec_paths() && final(self).spec_peers() == old(self).spec_peers() && final(self).spec_whois_queue() == old(self).spec_whois_queue(),
            v1_ok(data@) && spec_dest_value(data@) != old(self).spec_identity().address.value()
                && v1_parseable(data@) && v1_hops(data@) >= FORWARD_MAX_HOPS ==> r
                == IngressResult::DroppedHopLimit && final(self).spec_paths() == old(self).spec_paths() && final(self).spec_peers() == old(self).spec_peers() && final(self).spec_whois_queue() == old(self).spec_whois_queue(),
            v1_ok(data@) && spec_dest_value(data@) != old(self).spec_identity().address.value()
                && v1_parseable(data@) && v1_hops(data@) < FORWARD_MAX_HOPS ==> final(self).spec_peers() == old(self).spec_peers() && final(self).spec_paths() == old(self).spec_paths(),
            v1_ok(data@) && spec_dest_value(data@) != old(self).spec_identity().address.value()
                && v1_parseable(data@) && v1_hops(data@) < FORWARD_MAX_HOPS && !(
            has_peer_with_value(old(self).spec_peers(), spec_dest_value(data@))
                && peer_with_value(old(self).spec_peers(), spec_dest_value(data@)).spec_best_path()
                is Some) ==> r == IngressResult::DroppedNoRoute,
            v1_ok(data@) && spec_dest_value(data@) != old(self).spec_identity().address.value()
                && v1_parseable(data@) && v1_hops(data@) < FORWARD_MAX_HOPS
                && has_peer_with_value(old(self).spec_peers(), spec_dest_value(data@))
                && peer_with_value(old(self).spec_peers(), spec_dest_value(data@)).spec_best_path()
                is Some ==> ((r matches IngressResult::Forwarded(w) ==> (peer_with_value(
                old(self).spec_peers(),
                spec_dest_value(data@),
            ).spec_best_path() matches Some(pp) ==> w.endpoint == pp.endpoint && w.local_socket
                == Some(pp.local_socket) && w.local_interface == Some(pp.local_interface)) && w.ttl
                == 0 && w.data@ == data@.update(
                spec_hops_index(data@),
                (data@[spec_hops_index(data@)] & 0xf0) | (((v1_hops(data@) + 1) as u8) & 0x0f),
            )) && r is Forwarded),
            // traffic for this node always touches its canonical path
            v1_ok(data@) && spec_dest_value(data@) == old(self).spec_identity().address.value()
                ==> path_touched(
                final(self).spec_paths(),
                *source_endpoint,
                source_local_socket,
                time_ticks,
            ) && final(self).spec_roots() == old(self).spec_roots() && final(self).spec_best_root() == old(self).spec_best_root() && final(self).spec_online() == old(self).spec_online(),
            // a complete packet is delivered, or queued behind a lookup
            v1_ok(data@) && spec_dest_value(data@) == old(self).spec_identity().address.value()
                && !spec_is_fragment(data@) && data@.len() >= PACKET_HEADER_SIZE
                && address_value_valid(spec_src_value(data@)) && has_peer_with_value(
                old(self).spec_peers(),
                spec_src_value(data@),
            ) ==> r == IngressResult::DeliveredToSelf,
            v1_ok(data@) && spec_dest_value(data@) == old(self).spec_identity().address.value()
                && !spec_is_fragment(data@) && data@.len() >= PACKET_HEADER_SIZE
                && address_value_valid(spec_src_value(data@)) && !has_peer_with_value(
                old(self).spec_peers(),
                spec_src_value(data@),
            ) ==> (r matches IngressResult::WhoisQueued(q)) && (exists|k: int|
                0 <= k < final(self).spec_whois_queue().len() && (
                #[trigger] final(self).spec_whois_queue()[k]).address.value() == spec_src_value(data@) && final(self).spec_whois_queue()[k].waiting_packets@.len() > 0 && final(self).spec_whois_queue()[k].waiting_packets@.last().data@ == data@ && final(self).spec_whois_queue()[k].waiting_packets@.last().endpoint == *source_endpoint
                    && final(self).spec_whois_queue()[k].waiting_packets@.last().local_socket
                    == source_local_socket && final(self).spec_whois_queue()[
                    k
                ].waiting_packets@.last().local_interface == source_local_interface),
            v1_ok(data@) && spec_dest_value(data@) == old(self).spec_identity().address.value()
                && !spec_is_fragment(data@) && (data@.len() < PACKET_HEADER_SIZE
                || !address_value_valid(spec_src_value(data@))) ==> r
                == IngressResult::DroppedMalformed,
            v1_ok(data@) && spec_dest_value(data@) == old(self).spec_identity().address.value()
                && spec_is_fragment(data@) ==> (r == IngressResult::FragmentStored || r
                == IngressResult::DeliveredToSelf || (r matches IngressResult::WhoisQueued(q)) || r
                == IngressResult::DroppedMalformed),
            // a fragment with a bad ordinal or count is dropped untouched
            v1_ok(data@) && spec_dest_value(data@) == old(self).spec_identity().address.value()
                && spec_is_fragment(data@) && !Fragged::<Vec<u8>, 16>::accepts(
                spec_fragment_no(data@),
                spec_total_fragments(data@),
            ) ==> r == IngressResult::DroppedMalformed,
            // an accepted fragment feeds the canonical path's reassembler,
            // which moves by its own law; the message is stored exactly
            // until it completes, and a completed message is passed on
            v1_ok(data@) && spec_dest_value(data@) == old(self).spec_identity().address.value()
                && spec_is_fragment(data@) && Fragged::<Vec<u8>, 16>::accepts(
                spec_fragment_no(data@),
                spec_total_fragments(data@),
            ) ==> forall|j: int|
                path_matches(
                    old(self).spec_paths(),
                    j,
                    *source_endpoint,
                    source_local_socket,
                ) ==> ({
                    let pre = (#[trigger] old(self).spec_paths()[j]).spec_fragged();
                    let pid = spec_packet_id(data@);
                    let no = spec_fragment_no(data@);
                    let total = spec_total_fragments(data@);
                    let done = pre.completes(pid, data, no, total);
                    &&& (r == IngressResult::FragmentStored <==> !done)
                    &&& forall|i: int|
                        path_matches(
                            final(self).spec_paths(),
                            i,
                            *source_endpoint,
                            source_local_socket,
                        ) ==> (#[trigger] final(self).spec_paths()[i]).spec_fragged().spec_counter()
                            == pid && (if done {
                            final(self).spec_paths()[i].spec_fragged().slots() =~= empty_slots()
                        } else {
                            final(self).spec_paths()[i].spec_fragged().slots() == pre.slots_after(
                                pid,
                                data,
                                no,
                            )
                        })
                    &&& done ==> completion_outcome(
                        r,
                        Seq::new(total as nat, |t: int| pre.slots_after(pid, data, no)[t]->0),
                        old(self).spec_peers(),
                        final(self).spec_whois_queue(),
                        *source_endpoint,
                        source_local_socket,
                        source_local_interface,
                    )
                }),
            // an accepted fragment that creates its path starts a fresh
            // assembly there
            v1_ok(data@) && spec_dest_value(data@) == old(self).spec_identity().address.value()
                && spec_is_fragment(data@) && Fragged::<Vec<u8>, 16>::accepts(
                spec_fragment_no(data@),
                spec_total_fragments(data@),
            ) && !(exists|j: int|
                path_matches(
                    old(self).spec_paths(),
                    j,
                    *source_endpoint,
                    source_local_socket,
                )) ==> ({
                let pid = spec_packet_id(data@);
                let no = spec_fragment_no(data@);
                let total = spec_total_fragments(data@);
                &&& (r == IngressResult::FragmentStored <==> total != 1)
                &&& forall|i: int|
                    path_matches(
                        final(self).spec_paths(),
                        i,
                        *source_endpoint,
                        source_local_socket,
                    ) ==> (#[trigger] final(self).spec_paths()[i]).spec_fragged().spec_counter()
                        == pid && (if total == 1 {
                        final(self).spec_paths()[i].spec_fragged().slots() =~= empty_slots()
                    } else {
                        final(self).spec_paths()[i].spec_fragged().slots() =~= empty_slots().update(
                            no as int,
                            Some(data),
                        )
                    })
                &&& total == 1 ==> completion_outcome(
                    r,
                    seq![data],
                    old(self).spec_peers(),
                    final(self).spec_whois_queue(),
                    *source_endpoint,
                    source_local_socket,
                    source_local_interface,
                )
            }),
    {
        if is_v2(&data) {
            return IngressResult::V2Packet;
        }
        if data.len() < FRAGMENT_HEADER_SIZE {
            return IngressResult::DroppedMalformed;
        }
        let dest = match parse_dest(&data) {
            Some(d) => d,
            None => {
                return IngressResult::DroppedMalformed;
            },
        };
        if dest == self.identity.address {
            let pi = self.canonical_path(
                source_endpoint,
                source_local_socket,
                source_local_interface,
                time_ticks,
            );
            let ghost pre_paths = self.paths@;
            self.paths[pi].log_receive_anything(time_ticks);
            proof {
                assert forall|a: int, b: int| 0 <= a < b < self.paths@.len() implies !((
                #[trigger] self.paths@[a]).spec_endpoint() == (
                #[trigger] self.paths@[b]).spec_endpoint() && self.paths@[a].spec_local_socket()
                    == self.paths@[b].spec_local_socket()) by {
                    assert(pre_paths[a].spec_endpoint() == self.paths@[a].spec_endpoint()
                        && pre_paths[a].spec_local_socket() == self.paths@[a].spec_local_socket());
                    assert(pre_paths[b].spec_endpoint() == self.paths@[b].spec_endpoint()
                        && pre_paths[b].spec_local_socket() == self.paths@[b].spec_local_socket());
                }
                assert(paths_canonical(self.paths@));
                assert(path_matches(self.paths@, pi as int, *source_endpoint, source_local_socket));
                assert(path_touched(
                    self.paths@,
                    *source_endpoint,
                    source_local_socket,
                    time_ticks,
                ));
            }
            if is_fragment(&data) {
                let pid = packet_id(&data);
                let no = fragment_no(&data);
                let total = total_fragments(&data);
                if !(no < total && (total as usize) <= 16) {
                    return IngressResult::DroppedMalformed;
                }
                let ghost gdata = data;
                let ghost pre_frag = self.paths@[pi as int].spec_fragged();
                let ghost done = pre_frag.completes(pid, gdata, no, total);
                proof {
                    // the reassembler we feed is the one the ensures speak
                    // of: the old path's on a hit, a fresh one on a miss
                    if exists|j: int|
                        path_matches(
                            old(self).spec_paths(),
                            j,
                            *source_endpoint,
                            source_local_socket,
                        ) {
                        assert forall|j: int|
                            path_matches(
                                old(self).spec_paths(),
                                j,
                                *source_endpoint,
                                source_local_socket,
                            ) implies (#[trigger] old(self).spec_paths()[j]).spec_fragged()
                            == pre_frag by {
                            lemma_canonical_path_unique(
                                old(self).spec_paths(),
                                *source_endpoint,
                                source_local_socket,
                                j,
                                pi as int,
                            );
                        }
                    } else {
                        assert(pre_frag.spec_counter() == 0);
                        assert(pre_frag.slots() =~= empty_slots());
                        // a fresh assembly completes exactly for a
                        // one-fragment message
                        if total == 1 {
                            assert(pre_frag.slots_after(pid, gdata, no)[0] is Some);
                            assert(done);
                        } else {
                            let miss: int = if no == 0 {
                                1
                            } else {
                                0
                            };
                            assert(pre_frag.slots_after(pid, gdata, no)[miss] is None);
                            assert(!done);
                        }
                    }
                }
                let ghost pre_paths2 = self.paths@;
                let assembled = self.paths[pi].receive_fragment(pid, no, total, data);
                proof {
                    assert forall|a: int, b: int| 0 <= a < b < self.paths@.len() implies !((
                    #[trigger] self.paths@[a]).spec_endpoint() == (
                    #[trigger] self.paths@[b]).spec_endpoint() && self.paths@[
                        a
                    ].spec_local_socket() == self.paths@[b].spec_local_socket()) by {
                        assert(pre_paths2[a].spec_endpoint() == self.paths@[a].spec_endpoint()
                            && pre_paths2[a].spec_local_socket() == self.paths@[
                            a
                        ].spec_local_socket());
                        assert(pre_paths2[b].spec_endpoint() == self.paths@[b].spec_endpoint()
                            && pre_paths2[b].spec_local_socket() == self.paths@[
                            b
                        ].spec_local_socket());
                    }
                    assert(paths_canonical(self.paths@));
                    assert(self.paths@[pi as int].spec_last_receive() == time_ticks);
                    assert(path_touched(
                        self.paths@,
                        *source_endpoint,
                        source_local_socket,
                        time_ticks,
                    ));
                    // the final table still answers the key only at pi, and
                    // that path's reassembler moved by the reassembly law
                    assert forall|i: int|
                        path_matches(
                            self.paths@,
                            i,
                            *source_endpoint,
                            source_local_socket,
                        ) implies (#[trigger] self.paths@[i]).spec_fragged().spec_counter() == pid
                        && (if done {
                        self.paths@[i].spec_fragged().slots() =~= empty_slots()
                    } else {
                        self.paths@[i].spec_fragged().slots() == pre_frag.slots_after(
                            pid,
                            gdata,
                            no,
                        )
                    }) by {
                        lemma_canonical_path_unique(
                            self.paths@,
                            *source_endpoint,
                            source_local_socket,
                            i,
                            pi as int,
                        );
                    }
                }
                match assembled {
                    Some(packet) => {
                        proof {
                            assert(done);
                            assert(packet@ == Seq::new(
                                total as nat,
                                |t: int| pre_frag.slots_after(pid, gdata, no)[t]->0,
                            ));
                            assert(packet@.len() == total);
                            if !(exists|j: int|
                                path_matches(
                                    old(self).spec_paths(),
                                    j,
                                    *source_endpoint,
                                    source_local_socket,
                                )) {
                                // fresh assembly: the whole message is the
                                // one fragment just filed
                                assert(pre_frag.slots_after(pid, gdata, no)[0] == Some(gdata));
                                assert(packet@ =~= seq![gdata]);
                            }
                        }
                        let frags = packet.as_ref();
                        if frags.len() == 0 || frags[0].len() < PACKET_HEADER_SIZE {
                            proof {
                                assert(frags@[0]@.len() < PACKET_HEADER_SIZE);
                                assert(completion_outcome(
                                    IngressResult::DroppedMalformed,
                                    packet@,
                                    old(self).spec_peers(),
                                    self.whois_queue@,
                                    *source_endpoint,
                                    source_local_socket,
                                    source_local_interface,
                                ));
                            }
                            return IngressResult::DroppedMalformed;
                        }
                        let src = match parse_src(&frags[0]) {
                            Some(a) => a,
                            None => {
                                proof {
                                    assert(!address_value_valid(spec_src_value(frags@[0]@)));
                                    assert(completion_outcome(
                                        IngressResult::DroppedMalformed,
                                        packet@,
                                        old(self).spec_peers(),
                                        self.whois_queue@,
                                        *source_endpoint,
                                        source_local_socket,
                                        source_local_interface,
                                    ));
                                }
                                return IngressResult::DroppedMalformed;
                            },
                        };
                        let verb = frags[0][19] & 0x1f;
                        let payload = assemble_v1_payload(frags);
                        proof {
                            assert(payload@ == spec_v1_payload(packet@, packet@.len() as int));
                        }
                        match self.find_peer_index(src) {
                            Some(j) => {
                                proof {
                                    assert(self.peers@[j as int].spec_identity().address.value()
                                        == src.value());
                                    assert(has_peer_with_value(
                                        old(self).spec_peers(),
                                        spec_src_value(frags@[0]@),
                                    ));
                                }
                                let ghost pre_peers = self.peers@;
                                self.peers[j].record_receive(
                                    *source_endpoint,
                                    source_local_socket,
                                    source_local_interface,
                                    time_ticks,
                                );
                                proof {
                                    assert forall|a: int, b: int|
                                        0 <= a < b < self.peers@.len() implies (
                                    #[trigger] self.peers@[a]).spec_identity().address != (
                                    #[trigger] self.peers@[b]).spec_identity().address by {
                                        assert(pre_peers[a].spec_identity() == self.peers@[
                                            a
                                        ].spec_identity());
                                        assert(pre_peers[b].spec_identity() == self.peers@[
                                            b
                                        ].spec_identity());
                                    }
                                    assert(peers_unique(self.peers@));
                                    assert forall|ri: int|
                                        0 <= ri < self.roots.roots@.len() implies peer_backs(
                                        self.peers@,
                                        (#[trigger] self.roots.roots@[ri]).identity,
                                    ) by {
                                        assert(peer_backs(
                                            pre_peers,
                                            self.roots.roots@[ri].identity,
                                        ));
                                        let kb = choose|kb: int|
                                            0 <= kb < pre_peers.len() && (#[trigger] pre_peers[
                                                kb
                                            ]).spec_identity() == self.roots.roots@[ri].identity;
                                        assert(self.peers@[kb].spec_identity()
                                            == self.roots.roots@[ri].identity);
                                    }
                                }
                                let _ = inner.handle_packet(
                                    &self.peers[j],
                                    &self.paths[pi],
                                    verb,
                                    &payload,
                                );
                                proof {
                                    assert(completion_outcome(
                                        IngressResult::DeliveredToSelf,
                                        packet@,
                                        old(self).spec_peers(),
                                        self.whois_queue@,
                                        *source_endpoint,
                                        source_local_socket,
                                        source_local_interface,
                                    ));
                                }
                                IngressResult::DeliveredToSelf
                            },
                            None => {
                                proof {
                                    if has_peer_with_value(self.peers@, src.value()) {
                                        let k = choose|k: int|
                                            0 <= k < self.peers@.len() && self.peers@[
                                                k
                                            ].spec_identity().address.value() == src.value();
                                        lemma_address_eq(
                                            self.peers@[k].spec_identity().address,
                                            src,
                                        );
                                        assert(false);
                                    }
                                }
                                let ghost pre_q = self.whois_queue@;
                                let wp = WaitingPacket {
                                    data: payload,
                                    endpoint: *source_endpoint,
                                    local_socket: source_local_socket,
                                    local_interface: source_local_interface,
                                };
                                let ghost gwp = wp;
                                let req = self.whois(src, Some(wp));
                                proof {
                                    assert(whois_queued_for(self.whois_queue@, src.value()));
                                    // the assembled payload, with its
                                    // arrival path, is the newest packet
                                    // waiting on the source's lookup
                                    if exists|i: int|
                                        0 <= i < pre_q.len() && (#[trigger] pre_q[i]).address
                                            == src {
                                        let i = choose|i: int|
                                            0 <= i < pre_q.len() && (#[trigger] pre_q[i]).address
                                                == src;
                                        assert(self.whois_queue@[i].waiting_packets@
                                            == ring_push(pre_q[i].waiting_packets@, gwp));
                                        assert(self.whois_queue@[i].waiting_packets@.last()
                                            == gwp);
                                        assert(self.whois_queue@[i].address.value()
                                            == spec_src_value(frags@[0]@));
                                    } else {
                                        let k = pre_q.len() as int;
                                        assert(self.whois_queue@[k].waiting_packets@ == Seq::<
                                            WaitingPacket,
                                        >::empty().push(gwp));
                                        assert(self.whois_queue@[k].waiting_packets@.last()
                                            == gwp);
                                        assert(self.whois_queue@[k].address.value()
                                            == spec_src_value(frags@[0]@));
                                    }
                                    assert(completion_outcome(
                                        IngressResult::WhoisQueued(req),
                                        packet@,
                                        old(self).spec_peers(),
                                        self.whois_queue@,
                                        *source_endpoint,
                                        source_local_socket,
                                        source_local_interface,
                                    ));
                                }
                                IngressResult::WhoisQueued(req)
                            },
                        }
                    },
                    None => {
                        proof {
                            assert(!done);
                        }
                        IngressResult::FragmentStored
                    },
                }
            } else {
                if data.len() < PACKET_HEADER_SIZE {
                    return IngressResult::DroppedMalformed;
                }
                let src = match parse_src(&data) {
                    Some(a) => a,
                    None => {
                        return IngressResult::DroppedMalformed;
                    },
                };
                let verb = data[19] & 0x1f;
                match self.find_peer_index(src) {
                    Some(j) => {
                        proof {
                            let k = choose|k: int|
                                0 <= k < self.peers@.len() && self.peers@[
                                    k
                                ].spec_identity().address.value() == src.value();
                            assert(has_peer_with_value(self.peers@, src.value()));
                        }
                        let ghost pre_peers = self.peers@;
                        self.peers[j].record_receive(
                            *source_endpoint,
                            source_local_socket,
                            source_local_interface,
                            time_ticks,
                        );
                        proof {
                            assert forall|a: int, b: int| 0 <= a < b < self.peers@.len() implies (
                            #[trigger] self.peers@[a]).spec_identity().address != (
                            #[trigger] self.peers@[b]).spec_identity().address by {
                                assert(pre_peers[a].spec_identity() == self.peers@[
                                    a
                                ].spec_identity());
                                assert(pre_peers[b].spec_identity() == self.peers@[
                                    b
                                ].spec_identity());
                            }
                            assert(peers_unique(self.peers@));
                            assert forall|ri: int|
                                0 <= ri < self.roots.roots@.len() implies peer_backs(
                                self.peers@,
                                (#[trigger] self.roots.roots@[ri]).identity,
                            ) by {
                                assert(peer_backs(pre_peers, self.roots.roots@[ri].identity));
                                let kb = choose|kb: int|
                                    0 <= kb < pre_peers.len() && (#[trigger] pre_peers[
                                        kb
                                    ]).spec_identity() == self.roots.roots@[ri].identity;
                                assert(self.peers@[kb].spec_identity() == self.roots.roots@[
                                    ri
                                ].identity);
                            }
                        }
                        let _ = inner.handle_packet(&self.peers[j], &self.paths[pi], verb, &data);
                        IngressResult::DeliveredToSelf
                    },
                    None => {
                        proof {
                            if has_peer_with_value(self.peers@, src.value()) {
                                let k = choose|k: int|
                                    0 <= k < self.peers@.len() && self.peers@[
                                        k
                                    ].spec_identity().address.value() == src.value();
                                lemma_address_eq(self.peers@[k].spec_identity().address, src);
                                assert(false);
                            }
                        }
                        let ghost pre_q = self.whois_queue@;
                        let wp = WaitingPacket {
                            data,
                            endpoint: *source_endpoint,
                            local_socket: source_local_socket,
                            local_interface: source_local_interface,
                        };
                        let ghost gwp = wp;
                        let req = self.whois(src, Some(wp));
                        proof {
                            assert(whois_queued_for(self.whois_queue@, src.value()));
                            // the packet waits on the lookup with its
                            // arrival path
                            if exists|i: int|
                                0 <= i < pre_q.len() && (#[trigger] pre_q[i]).address == src {
                                let i = choose|i: int|
                                    0 <= i < pre_q.len() && (#[trigger] pre_q[i]).address == src;
                                assert(self.whois_queue@[i].waiting_packets@ == ring_push(
                                    pre_q[i].waiting_packets@,
                                    gwp,
                                ));
                                assert(self.whois_queue@[i].waiting_packets@.last() == gwp);
                                assert(self.whois_queue@[i].address.value() == spec_src_value(
                                    gwp.data@,
                                ));
                            } else {
                                let k = pre_q.len() as int;
                                assert(self.whois_queue@[k].waiting_packets@ == Seq::<
                                    WaitingPacket,
                                >::empty().push(gwp));
                                assert(self.whois_queue@[k].waiting_packets@.last() == gwp);
                                assert(self.whois_queue@[k].address.value() == spec_src_value(
                                    gwp.data@,
                                ));
                            }
                        }
                        IngressResult::WhoisQueued(req)
                    },
                }
            }
        } else {
            proof {
                if dest.value() == self.identity.address.value() {
                    lemma_address_eq(dest, self.identity.address);
                    assert(false);
                }
            }
            if !is_fragment(&data) && data.len() < PACKET_HEADER_SIZE {
                return IngressResult::DroppedMalformed;
            }
            let mut data = data;
            let hops = increment_hops(&mut data);
            if hops > FORWARD_MAX_HOPS {
                return IngressResult::DroppedHopLimit;
            }
            match self.find_peer_index(dest) {
                Some(j) => {
                    proof {
                        assert(self.peers@[j as int].spec_identity().address.value()
                            == dest.value());
                        assert(has_peer_with_value(self.peers@, dest.value()));
                        let k = choose|k: int|
                            0 <= k < self.peers@.len() && self.peers@[
                                k
                            ].spec_identity().address.value() == dest.value();
                        lemma_address_eq(self.peers@[k].spec_identity().address, dest);
                        assert(k == j as int);
                        assert(peer_with_value(self.peers@, dest.value()) == self.peers@[
                            j as int
                        ]);
                    }
                    match self.peers[j].direct_path() {
                        Some(pp) => {
                            IngressResult::Forwarded(
                                WireSend {
                                    endpoint: pp.endpoint,
                                    local_socket: Some(pp.local_socket),
                                    local_interface: Some(pp.local_interface),
                                    data,
                                    ttl: 0,
                                },
                            )
                        },
                        None => IngressResult::DroppedNoRoute,
                    }
                },
                None => {
                    proof {
                        if has_peer_with_value(self.peers@, dest.value()) {
                            let k = choose|k: int|
                                0 <= k < self.peers@.len() && self.peers@[
                                    k
                                ].spec_identity().address.value() == dest.value();
                            lemma_address_eq(self.peers@[k].spec_identity().address, dest);
                            assert(false);
                        }
                    }
                    IngressResult::DroppedNoRoute
                },
            }
        }
    }
}

/// The carried payload of an assembled v1 message: everything after the
/// packet header in the first fragment, after the fragment header in each
/// later one.
pub open spec fn spec_v1_payload(frags: Seq<Vec<u8>>, n: int) -> Seq<u8>
    decreases n,
{
    if n <= 0 {
        Seq::empty()
    } else {
        spec_v1_payload(frags, n - 1) + spec_payload_region(
            frags[n - 1]@,
            if n - 1 == 0 {
                PACKET_HEADER_SIZE as int
            } else {
                FRAGMENT_HEADER_SIZE as int
            },
        )
    }
}

/// The bytes after a header of `hdr` bytes (empty if the data is shorter).
pub open spec fn spec_payload_region(d: Seq<u8>, hdr: int) -> Seq<u8> {
    if d.len() >= hdr {
        d.subrange(hdr, d.len() as int)
    } else {
        Seq::empty()
    }
}

/// Concatenate the payload regions of an assembled v1 message.
fn assemble_v1_payload(frags: &Vec<Vec<u8>>) -> (r: Vec<u8>)
    ensures
        r@ == spec_v1_payload(frags@, frags@.len() as int),
{
    let mut out: Vec<u8> = Vec::new();
    let mut i: usize = 0;
    while i < frags.len()
        invariant
            i <= frags@.len(),
            out@ == spec_v1_payload(frags@, i as int),
        decreases frags@.len() - i,
    {
        let hdr: usize = if i == 0 {
            PACKET_HEADER_SIZE
        } else {
            FRAGMENT_HEADER_SIZE
        };
        let f = &frags[i];
        if f.len() >= hdr {
            let mut k: usize = hdr;
            let ghost base = out@;
            while k < f.len()
                invariant
                    hdr <= k <= f@.len(),
                    f == &frags@[i as int],
                    hdr <= f@.len(),
                    out@ =~= base + f@.subrange(hdr as int, k as int),
                decreases f@.len() - k,
            {
                out.push(f[k]);
                proof {
                    assert(out@ =~= base + f@.subrange(hdr as int, k + 1));
                }
                k = k + 1;
            }
            proof {
                assert(out@ =~= base + spec_payload_region(frags@[i as int]@, hdr as int));
            }
        } else {
            proof {
                assert(out@ =~= out@ + spec_payload_region(frags@[i as int]@, hdr as int));
            }
        }
        i = i + 1;
    }
    out
}

/// Whether `a` occurs in the vector.
fn contains_address(v: &Vec<Address>, a: Address) -> (r: bool)
    ensures
        r == addr_in(v@, a),
{
    let mut k: usize = 0;
    while k < v.len()
        invariant
            k <= v@.len(),
            forall|m: int| 0 <= m < k ==> v@[m] != a,
        decreases v@.len() - k,
    {
        if v[k] == a {
            return true;
        }
        k = k + 1;
    }
    false
}

/// The index of the entry whose identity has address `a`, if any.
fn root_entry_index(entries: &Vec<RootPeerEntry>, a: Address) -> (r: Option<usize>)
    ensures
        match r {
            Some(k) => 0 <= k < entries@.len() && entries@[k as int].identity.address == a,
            None => forall|m: int|
                0 <= m < entries@.len() ==> (#[trigger] entries@[m]).identity.address != a,
        },
{
    let mut k: usize = 0;
    while k < entries.len()
        invariant
            k <= entries@.len(),
            forall|m: int| 0 <= m < k ==> (#[trigger] entries@[m]).identity.address != a,
        decreases entries@.len() - k,
    {
        if entries[k].identity.address == a {
            return Some(k);
        }
        k = k + 1;
    }
    None
}

/// Whether some entry carries exactly identity `id`.
fn entries_have_identity(entries: &Vec<RootPeerEntry>, id: Identity) -> (r: bool)
    ensures
        r == is_root_identity(entries@, id),
{
    let mut k: usize = 0;
    while k < entries.len()
        invariant
            k <= entries@.len(),
            forall|m: int| 0 <= m < k ==> (#[trigger] entries@[m]).identity != id,
        decreases entries@.len() - k,
    {
        if entries[k].identity == id {
            return true;
        }
        k = k + 1;
    }
    false
}

/// A copied endpoint list.
fn clone_endpoints(v: &Vec<Endpoint>) -> (r: Vec<Endpoint>)
    ensures
        r@ == v@,
{
    let mut out: Vec<Endpoint> = Vec::new();
    let mut k: usize = 0;
    while k < v.len()
        invariant
            k <= v@.len(),
            out@ =~= v@.subrange(0, k as int),
        decreases v@.len() - k,
    {
        out.push(v[k]);
        k = k + 1;
    }
    proof {
        assert(out@ =~= v@);
    }
    out
}

/// Whether a datagram is a well-addressed legacy v1 frame.
pub open spec fn v1_ok(d: Seq<u8>) -> bool {
    !spec_is_v2(d) && d.len() >= FRAGMENT_HEADER_SIZE && address_value_valid(spec_dest_value(d))
}

/// Whether a v1 frame's hop nibble can be found: it is a trailing fragment
/// or long enough to hold a full packet header.
pub open spec fn v1_parseable(d: Seq<u8>) -> bool {
    spec_is_fragment(d) || d.len() >= PACKET_HEADER_SIZE
}

/// The hop count a v1 frame arrives with.
pub open spec fn v1_hops(d: Seq<u8>) -> u8 {
    spec_hops_of(d[spec_hops_index(d)])
}

/// Whether some peer's address has numeric value `v`.
pub open spec fn has_peer_with_value(peers: Seq<Peer>, v: u64) -> bool {
    exists|j: int| 0 <= j < peers.len() && peers[j].spec_identity().address.value() == v
}

/// The peer whose address has numeric value `v` (meaningful under
/// `has_peer_with_value` and address uniqueness).
pub open spec fn peer_with_value(peers: Seq<Peer>, v: u64) -> Peer {
    peers[choose|j: int| 0 <= j < peers.len() && peers[j].spec_identity().address.value() == v]
}

/// Whether some queued lookup is for the address with numeric value `v`.
pub open spec fn whois_queued_for(q: Seq<WhoisQueueItem>, v: u64) -> bool {
    exists|j: int| 0 <= j < q.len() && (#[trigger] q[j]).address.value() == v
}

/// Whether the path table holds a path for (`ep`, `ls`) whose last
/// reception is `t`.
pub open spec fn path_touched(paths: Seq<Path>, ep: Endpoint, ls: LocalSocket, t: i64) -> bool {
    exists|i: int| path_matches(paths, i, ep, ls) && (#[trigger] paths[i]).spec_last_receive() == t
}

/// The slot contents of an idle reassembler.
pub open spec fn empty_slots() -> Seq<Option<Vec<u8>>> {
    Seq::new(16, |j: int| None::<Vec<u8>>)
}

/// What the dispatcher hands on once a v1 message reassembles, given the
/// pieces in fragment order, the peer table at entry and the final lookup
/// queue: the source is read from the first piece's packet header; a
/// malformed header drops the message; a known source is delivered to the
/// inner protocol; an unknown source leaves the assembled payload as the
/// newest packet waiting on its lookup.
pub open spec fn completion_outcome(
    r: IngressResult,
    frags: Seq<Vec<u8>>,
    peers0: Seq<Peer>,
    q_final: Seq<WhoisQueueItem>,
    ep: Endpoint,
    ls: LocalSocket,
    li: LocalInterface,
) -> bool {
    let frag0 = frags[0];
    if frag0@.len() < PACKET_HEADER_SIZE || !address_value_valid(spec_src_value(frag0@)) {
        r == IngressResult::DroppedMalformed
    } else if has_peer_with_value(peers0, spec_src_value(frag0@)) {
        r == IngressResult::DeliveredToSelf
    } else {
        (r matches IngressResult::WhoisQueued(w)) && exists|k: int|
            0 <= k < q_final.len() && (#[trigger] q_final[k]).address.value() == spec_src_value(
                frag0@,
            ) && q_final[k].waiting_packets@.len() > 0 && q_final[k].waiting_packets@.last().data@
                == spec_v1_payload(frags, frags.len() as int)
            && q_final[k].waiting_packets@.last().endpoint == ep
            && q_final[k].waiting_packets@.last().local_socket == ls
            && q_final[k].waiting_packets@.last().local_interface == li
    }
}

/// What became of one inbound datagram.
#[derive(PartialEq, Debug)]
pub enum IngressResult {
    /// Byte [8] carries the v2 sentinel: the datagram belongs to the
    /// forward-secure transport, outside this core.
    V2Packet,
    /// Too short, or a reserved address field: dropped silently.
    DroppedMalformed,
    /// A fragment was stored; its message is not complete yet.
    FragmentStored,
    /// A complete message was handed to the inner protocol.
    DeliveredToSelf,
    /// The source is unknown; an identity lookup was queued (with the
    /// request to send if this was the first ask).
    WhoisQueued(Option<WhoisRequest>),
    /// The datagram was re-addressed toward another node: send this.
    Forwarded(WireSend),
    /// A forward would exceed the hop limit: dropped silently.
    DroppedHopLimit,
    /// No peer or no usable path toward the destination: dropped.
    DroppedNoRoute,
}

/// Looking a peer up by address answers the same record in a table and in
/// any duplicate-free super-table holding it.
proof fn lemma_peer_lookup_stable(peers1: Seq<Peer>, peers2: Seq<Peer>, a: Address)
    requires
        peers_unique(peers1),
        forall|k: int| 0 <= k < peers2.len() ==> peer_present(peers1, #[trigger] peers2[k]),
        has_peer_with_address(peers2, a),
    ensures
        has_peer_with_address(peers1, a),
        peer_with_address(peers2, a) == peer_with_address(peers1, a),
{
    let k2 = choose|k2: int|
        0 <= k2 < peers2.len() && peers2[k2].spec_identity().address == a;
    assert(peer_present(peers1, peers2[k2]));
    let k1 = choose|k1: int| 0 <= k1 < peers1.len() && peers1[k1] == peers2[k2];
    assert(has_peer_with_address(peers1, a));
    let c2 = choose|c2: int|
        0 <= c2 < peers2.len() && peers2[c2].spec_identity().address == a;
    assert(peer_present(peers1, peers2[c2]));
    let d1 = choose|d1: int| 0 <= d1 < peers1.len() && peers1[d1] == peers2[c2];
    let c1 = choose|c1: int|
        0 <= c1 < peers1.len() && peers1[c1].spec_identity().address == a;
    assert(peers1[d1].spec_identity().address == a);
    assert(d1 == c1);
}

/// The best-root election reads only the root entries and the peers that
/// back them, so two states that agree there elect alike.
proof fn lemma_election_stable(n1: Node, n2: Node, n: int)
    requires
        n1.spec_roots() == n2.spec_roots(),
        0 <= n <= n1.spec_roots().len(),
        forall|i: int| 0 <= i < n ==> n1.root_reply(i) == n2.root_reply(i),
    ensures
        n1.max_reply_upto(n) == n2.max_reply_upto(n),
    decreases n,
{
    if n > 0 {
        lemma_election_stable(n1, n2, n - 1);
    }
}

/// What one background tick hands back to the embedding runtime: the fixed
/// reschedule interval, the events to report, the HELLOs and keepalives to
/// send, and at most one WHOIS request.
pub struct BackgroundTaskResult {
    pub interval_ms: i64,
    pub events: Vec<Event>,
    pub hellos: Vec<HelloDirective>,
    pub keepalives: Vec<WireSend>,
    pub whois: Option<WhoisRequest>,
}

/// Whether `events` reports the online state changing to `b`.
pub open spec fn has_online_event(events: Seq<Event>, b: bool) -> bool {
    exists|m: int| 0 <= m < events.len() && events[m] == Event::Online(b)
}

/// Whether `h` probes a declared endpoint of one of the roots.
pub open spec fn hello_justified(roots: Seq<RootPeerEntry>, h: HelloDirective) -> bool {
    exists|k: int, t: int|
        0 <= k < roots.len() && 0 <= t < roots[k].endpoints@.len() && roots[k].identity.address
            == h.root && (#[trigger] roots[k].endpoints@[t]) == h.endpoint
}

/// Whether `hellos` probes root `a` at endpoint `e`.
pub open spec fn hello_present(hellos: Seq<HelloDirective>, a: Address, e: Endpoint) -> bool {
    exists|m: int|
        0 <= m < hellos.len() && hellos[m] == HelloDirective { root: a, endpoint: e }
}

/// A peer survives the sweep if its service check passes or it is a root.
pub open spec fn keep_peer(p: Peer, roots: Seq<RootPeerEntry>, time_ticks: i64) -> bool {
    p.spec_service(time_ticks) || is_root_identity(roots, p.spec_identity())
}

/// Whether the peer record `p` appears in `peers`.
pub open spec fn peer_present(peers: Seq<Peer>, p: Peer) -> bool {
    exists|k: int| 0 <= k < peers.len() && peers[k] == p
}

/// Whether `p` is one of the first `n` entries of `peers` and survives the
/// sweep at `time_ticks`.
pub open spec fn peer_kept_from(
    peers: Seq<Peer>,
    n: int,
    roots: Seq<RootPeerEntry>,
    time_ticks: i64,
    p: Peer,
) -> bool {
    exists|j: int| 0 <= j < n && peers[j] == p && keep_peer(p, roots, time_ticks)
}

/// `b` is `a` with one more retry and everything else unchanged.
pub open spec fn whois_bumped(a: WhoisQueueItem, b: WhoisQueueItem) -> bool {
    b.address == a.address && b.waiting_packets@ == a.waiting_packets@ && b.retry_count
        == a.retry_count + 1
}

/// Whether the path record `p` appears in `paths`.
pub open spec fn path_present(paths: Seq<Path>, p: Path) -> bool {
    exists|k: int| 0 <= k < paths.len() && paths[k] == p
}

/// Whether `p` is one of the entries of `paths` at index `lo` or beyond and
/// is not classified dead at `time_ticks`.
pub open spec fn path_from(paths: Seq<Path>, lo: int, time_ticks: i64, p: Path) -> bool {
    exists|j: int|
        lo <= j < paths.len() && paths[j] == p && p.spec_service(time_ticks)
            != PathServiceResult::Dead
}

/// Whether `w` is a keepalive datagram for path `p`: a one-byte payload on
/// exactly that path's endpoint, socket and interface, with default TTL.
pub open spec fn is_keepalive_for(w: WireSend, p: Path) -> bool {
    &&& w.endpoint == p.spec_endpoint()
    &&& w.local_socket == Some(p.spec_local_socket())
    &&& w.local_interface == Some(p.spec_local_interface())
    &&& w.data@.len() == 1
    &&& w.ttl == 0
}

/// Whether `sends` holds a keepalive for path `p`.
pub open spec fn has_keepalive_for(sends: Seq<WireSend>, p: Path) -> bool {
    exists|m: int| 0 <= m < sends.len() && is_keepalive_for(sends[m], p)
}

/// Whether `w` is a keepalive for some path of `paths` that wants one.
pub open spec fn keepalive_source(paths: Seq<Path>, time_ticks: i64, w: WireSend) -> bool {
    exists|j: int|
        0 <= j < paths.len() && (#[trigger] paths[j]).spec_service(time_ticks)
            == PathServiceResult::NeedsKeepalive && is_keepalive_for(w, paths[j])
}

/// Whether a bumped copy of `e` appears in `q`.
pub open spec fn whois_present_bumped(q: Seq<WhoisQueueItem>, e: WhoisQueueItem) -> bool {
    exists|k: int| 0 <= k < q.len() && whois_bumped(e, q[k])
}

/// Whether `e2` is the bumped copy of some entry of `q` at index `lo` or
/// beyond that was within the retry budget.
pub open spec fn whois_from(q: Seq<WhoisQueueItem>, lo: int, e2: WhoisQueueItem) -> bool {
    exists|j: int|
        lo <= j < q.len() && (#[trigger] q[j]).retry_count <= WHOIS_RETRY_COUNT_MAX
            && whois_bumped(q[j], e2)
}

/// Whether identity `id` (not this node's own) is listed at address `a` as
/// a member of some trusted set.
pub open spec fn member_occurrence(
    sets: Seq<RootSet>,
    self_id: Identity,
    a: Address,
    id: Identity,
) -> bool {
    exists|i: int, j: int|
        0 <= i < sets.len() && 0 <= j < sets[i].members@.len() && (
        #[trigger] sets[i].members@[j]).identity == id && id.address == a && id != self_id
}

/// Whether address `a` is in collision: two trusted sets list it under
/// different identities, or a set lists it under an identity that differs
/// from the peer already seated at that address.
pub open spec fn address_collides(
    sets: Seq<RootSet>,
    peers: Seq<Peer>,
    self_id: Identity,
    a: Address,
) -> bool {
    ||| exists|id1: Identity, id2: Identity|
        member_occurrence(sets, self_id, a, id1) && member_occurrence(sets, self_id, a, id2)
            && id1 != id2
    ||| exists|id1: Identity|
        member_occurrence(sets, self_id, a, id1) && has_peer_with_address(peers, a)
            && peer_with_address(peers, a).spec_identity() != id1
}

/// Whether some trusted set lists identity `id` with exactly the endpoint
/// list `eps`, and that listing makes `id` a root: not this node itself,
/// collision-free, with endpoints, and backed by an existing peer or by
/// usable key material.
pub open spec fn qualifying_occurrence(
    sets: Seq<RootSet>,
    peers: Seq<Peer>,
    self_id: Identity,
    id: Identity,
    eps: Seq<Endpoint>,
) -> bool {
    exists|i: int, j: int|
        0 <= i < sets.len() && 0 <= j < sets[i].members@.len() && (
        #[trigger] sets[i].members@[j]).identity == id && sets[i].members@[j].endpoints@ == eps
            && id != self_id && eps.len() > 0 && !address_collides(sets, peers, self_id, id.address)
            && (has_peer_with_address(peers, id.address) || Peer::spec_constructible(id))
}

/// Whether some listing makes `id` a root.
pub open spec fn qualifying_identity(
    sets: Seq<RootSet>,
    peers: Seq<Peer>,
    self_id: Identity,
    id: Identity,
) -> bool {
    exists|eps: Seq<Endpoint>| qualifying_occurrence(sets, peers, self_id, id, eps)
}

/// Whether a set lists `id` at address `a` in a way that asks for a root
/// but whose key material is unusable: a bad-identity warning.
pub open spec fn bad_identity_occurrence(
    sets: Seq<RootSet>,
    peers: Seq<Peer>,
    self_id: Identity,
    a: Address,
) -> bool {
    exists|i: int, j: int|
        0 <= i < sets.len() && 0 <= j < sets[i].members@.len() && (
        #[trigger] sets[i].members@[j]).identity.address == a && sets[i].members@[j].identity
            != self_id && sets[i].members@[j].endpoints@.len() > 0 && !address_collides(
            sets,
            peers,
            self_id,
            a,
        ) && !has_peer_with_address(peers, a) && !Peer::spec_constructible(
            sets[i].members@[j].identity,
        )
}

/// Whether address `a` is in `v`.
pub open spec fn addr_in(v: Seq<Address>, a: Address) -> bool {
    exists|k: int| 0 <= k < v.len() && v[k] == a
}

/// Whether the member at position (`i`, `j`) of `sets` makes its identity
/// a root, judged against the peer table `peers`.
pub open spec fn occ_qualifies(
    sets: Seq<RootSet>,
    peers: Seq<Peer>,
    self_id: Identity,
    i: int,
    j: int,
) -> bool {
    let m = sets[i].members@[j];
    &&& m.identity != self_id
    &&& !address_collides(sets, peers, self_id, m.identity.address)
    &&& m.endpoints@.len() > 0
    &&& (has_peer_with_address(peers, m.identity.address) || Peer::spec_constructible(m.identity))
}

/// Whether the member at position (`i`, `j`) triggers a bad-identity
/// warning: it asks for a root, no peer is seated at its address, and its
/// key material is unusable.
pub open spec fn occ_bad(
    sets: Seq<RootSet>,
    peers: Seq<Peer>,
    self_id: Identity,
    i: int,
    j: int,
) -> bool {
    let m = sets[i].members@[j];
    &&& m.identity != self_id
    &&& !address_collides(sets, peers, self_id, m.identity.address)
    &&& m.endpoints@.len() > 0
    &&& !has_peer_with_address(peers, m.identity.address)
    &&& !Peer::spec_constructible(m.identity)
}

/// Whether this node's own identity is listed in some trusted set.
pub open spec fn this_node_listed(sets: Seq<RootSet>, self_id: Identity) -> bool {
    exists|i: int, j: int|
        0 <= i < sets.len() && 0 <= j < sets[i].members@.len() && (
        #[trigger] sets[i].members@[j]).identity == self_id
}

/// Whether address `a` both collides and is actually listed by a set.
pub open spec fn collision_at(
    sets: Seq<RootSet>,
    peers: Seq<Peer>,
    self_id: Identity,
    a: Address,
) -> bool {
    address_collides(sets, peers, self_id, a) && exists|id: Identity|
        member_occurrence(sets, self_id, a, id)
}

/// Whether `events` warns about an address collision at `a`.
pub open spec fn has_collision_event(events: Seq<Event>, a: Address) -> bool {
    exists|m: int|
        0 <= m < events.len() && events[m] == Event::SecurityWarning(
            SecurityWarningKind::AddressCollision(a),
        )
}

/// Whether `events` warns about a bad identity at `a`.
pub open spec fn has_bad_identity_event(events: Seq<Event>, a: Address) -> bool {
    exists|m: int|
        0 <= m < events.len() && events[m] == Event::SecurityWarning(
            SecurityWarningKind::BadIdentity(a),
        )
}

/// Whether `events` reports that the root list was rebuilt.
pub open spec fn has_updated_roots_event(events: Seq<Event>) -> bool {
    exists|m: int| 0 <= m < events.len() && ((#[trigger] events[m]) matches Event::UpdatedRoots(o, n))
}

/// Whether the current root entries carry exactly the qualifying
/// identities (the rebuilt table is then no change).
pub open spec fn roots_ids_match(
    roots: Seq<RootPeerEntry>,
    sets: Seq<RootSet>,
    peers: Seq<Peer>,
    self_id: Identity,
) -> bool {
    &&& forall|k: int|
        0 <= k < roots.len() ==> qualifying_identity(
            sets,
            peers,
            self_id,
            (#[trigger] roots[k]).identity,
        )
    &&& forall|id: Identity|
        qualifying_identity(sets, peers, self_id, id) ==> is_root_identity(roots, id)
}

} // verus!
