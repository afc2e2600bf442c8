//! Canonicalized physical paths: one record per (endpoint, local socket)
//! pair, carrying receive recency and this path's fragment reassembler.

use vstd::prelude::*;
use crate::endpoint::{Endpoint, LocalInterface, LocalSocket};
use crate::fragged::{Assembled, Fragged};
use crate::gate::TICKS_MAX;
use crate::protocol::{PATH_EXPIRATION_TIME, PATH_KEEPALIVE_INTERVAL};

verus! {

/// Verdict of the periodic path service sweep on one path.
#[derive(Clone, Copy, PartialEq, Eq, Structural, Debug)]
pub enum PathServiceResult {
    /// The path is healthy.
    Healthy,
    /// The path has been silent too long and should be removed.
    Dead,
    /// The path is quiet but alive and should receive a keepalive.
    NeedsKeepalive,
}

/// A canonicalized (endpoint, local socket) pair with its reassembly state.
pub struct Path {
    endpoint: Endpoint,
    local_socket: LocalSocket,
    local_interface: LocalInterface,
    create_time_ticks: i64,
    last_receive_time_ticks: i64,
    fragmented_packets: Fragged<Vec<u8>, 16>,
}

impl Path {
    /// The remote endpoint this path leads to.
    pub closed spec fn spec_endpoint(&self) -> Endpoint {
        self.endpoint
    }

    /// The local socket this path arrives on.
    pub closed spec fn spec_local_socket(&self) -> LocalSocket {
        self.local_socket
    }

    /// The local interface this path arrives on.
    pub closed spec fn spec_local_interface(&self) -> LocalInterface {
        self.local_interface
    }

    /// The remote endpoint this path leads to.
    pub fn endpoint(&self) -> (r: Endpoint)
        ensures
            r == self.spec_endpoint(),
    {
        self.endpoint
    }

    /// The local socket this path arrives on.
    pub fn local_socket(&self) -> (r: LocalSocket)
        ensures
            r == self.spec_local_socket(),
    {
        self.local_socket
    }

    /// The local interface this path arrives on.
    pub fn local_interface(&self) -> (r: LocalInterface)
        ensures
            r == self.spec_local_interface(),
    {
        self.local_interface
    }

    /// When this path last received anything.
    pub closed spec fn spec_last_receive(&self) -> i64 {
        self.last_receive_time_ticks
    }

    /// When this path was created.
    pub closed spec fn spec_created(&self) -> i64 {
        self.create_time_ticks
    }

    /// This path's reassembler.
    pub closed spec fn spec_fragged(&self) -> Fragged<Vec<u8>, 16> {
        self.fragmented_packets
    }

    pub open spec fn wf(&self) -> bool {
        &&& 0 <= self.spec_created() <= TICKS_MAX
        &&& 0 <= self.spec_last_receive() <= TICKS_MAX
        &&& self.spec_fragged().wf()
    }

    /// A fresh path for a newly observed (endpoint, local socket) pair.
    pub fn new(
        endpoint: Endpoint,
        local_socket: LocalSocket,
        local_interface: LocalInterface,
        time_ticks: i64,
    ) -> (r: Path)
        requires
            0 <= time_ticks <= TICKS_MAX,
        ensures
            r.wf(),
            r.spec_endpoint() == endpoint,
            r.spec_local_socket() == local_socket,
            r.spec_local_interface() == local_interface,
            r.spec_created() == time_ticks,
            r.spec_last_receive() == time_ticks,
            r.spec_fragged().spec_counter() == 0,
            r.spec_fragged().slots() =~= Seq::new(16, |j: int| None::<Vec<u8>>),
    {
        Path {
            endpoint,
            local_socket,
            local_interface,
            create_time_ticks: time_ticks,
            last_receive_time_ticks: time_ticks,
            fragmented_packets: Fragged::new(),
        }
    }

    /// Record that something was received on this path.
    pub fn log_receive_anything(&mut self, time_ticks: i64)
        requires
            old(self).wf(),
            0 <= time_ticks <= TICKS_MAX,
        ensures
            final(self).wf(),
            final(self).spec_last_receive() == time_ticks,
            final(self).spec_endpoint() == old(self).spec_endpoint(),
            final(self).spec_local_socket() == old(self).spec_local_socket(),
            final(self).spec_local_interface() == old(self).spec_local_interface(),
            final(self).spec_created() == old(self).spec_created(),
            final(self).spec_fragged() == old(self).spec_fragged(),
    {
        self.last_receive_time_ticks = time_ticks;
    }

    /// Hand a received fragment to this path's reassembler, keyed by the
    /// packet id; returns the whole message when it completes.
    pub fn receive_fragment(
        &mut self,
        packet_id: u64,
        fragment_no: u8,
        fragment_count: u8,
        packet: Vec<u8>,
    ) -> (r: Option<Assembled<Vec<u8>>>)
        requires
            old(self).wf(),
        ensures
            final(self).wf(),
            final(self).spec_endpoint() == old(self).spec_endpoint(),
            final(self).spec_local_socket() == old(self).spec_local_socket(),
            final(self).spec_local_interface() == old(self).spec_local_interface(),
            final(self).spec_created() == old(self).spec_created(),
            final(self).spec_last_receive() == old(self).spec_last_receive(),
            !Fragged::<Vec<u8>, 16>::accepts(fragment_no, fragment_count) ==> r is None
                && final(self).spec_fragged() == old(self).spec_fragged(),
            Fragged::<Vec<u8>, 16>::accepts(fragment_no, fragment_count) && old(self).spec_fragged().completes(packet_id, packet, fragment_no, fragment_count) ==> (r
                matches Some(a) && a@ == Seq::new(
                fragment_count as nat,
                |j: int|
                    old(self).spec_fragged().slots_after(packet_id, packet, fragment_no)[j]->0,
            )),
            Fragged::<Vec<u8>, 16>::accepts(fragment_no, fragment_count) && !old(self).spec_fragged().completes(packet_id, packet, fragment_no, fragment_count) ==> r
                is None,
            // how the reassembler itself moves on
            Fragged::<Vec<u8>, 16>::accepts(fragment_no, fragment_count) ==> final(self).spec_fragged().spec_counter() == packet_id,
            Fragged::<Vec<u8>, 16>::accepts(fragment_no, fragment_count) && old(self).spec_fragged().completes(packet_id, packet, fragment_no, fragment_count) ==> final(self).spec_fragged().slots() =~= Seq::new(16, |j: int| None::<Vec<u8>>),
            Fragged::<Vec<u8>, 16>::accepts(fragment_no, fragment_count) && !old(self).spec_fragged().completes(packet_id, packet, fragment_no, fragment_count) ==> final(self).spec_fragged().slots() == old(self).spec_fragged().slots_after(
                packet_id,
                packet,
                fragment_no,
            ),
    {
        self.fragmented_packets.assemble(packet_id, packet, fragment_no, fragment_count)
    }

    /// What the sweep decides: `Dead` after long silence,
    /// `NeedsKeepalive` after `PATH_KEEPALIVE_INTERVAL`, `Healthy` while
    /// traffic is recent.
    pub fn service(&self, time_ticks: i64) -> (r: PathServiceResult)
        requires
            self.wf(),
            0 <= time_ticks <= TICKS_MAX,
        ensures
            r == self.spec_service(time_ticks),
    {
        if time_ticks - self.last_receive_time_ticks > PATH_EXPIRATION_TIME {
            PathServiceResult::Dead
        } else if time_ticks - self.last_receive_time_ticks >= PATH_KEEPALIVE_INTERVAL {
            PathServiceResult::NeedsKeepalive
        } else {
            PathServiceResult::Healthy
        }
    }

    /// What `service` answers at `time_ticks`.
    pub open spec fn spec_service(&self, time_ticks: i64) -> PathServiceResult {
        if time_ticks - self.spec_last_receive() > PATH_EXPIRATION_TIME {
            PathServiceResult::Dead
        } else if time_ticks - self.spec_last_receive() >= PATH_KEEPALIVE_INTERVAL {
            PathServiceResult::NeedsKeepalive
        } else {
            PathServiceResult::Healthy
        }
    }
}

} // verus!
