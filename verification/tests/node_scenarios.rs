use vl1_core::address::{Address, Identity};
use vl1_core::endpoint::{Endpoint, LocalInterface, LocalSocket};
use vl1_core::event::Event;
use vl1_core::host::HostSystem;
use vl1_core::node::{IngressResult, Node};
use vl1_core::rootset::{RootSet, RootSetMember};

struct TestHost;

impl HostSystem for TestHost {
    fn event(&self, _event: Event) {}

    fn local_socket_is_valid(&self, _socket: LocalSocket) -> bool {
        true
    }

    fn wire_send(
        &self,
        _endpoint: &Endpoint,
        _local_socket: Option<LocalSocket>,
        _local_interface: Option<LocalInterface>,
        _data: &[u8],
        _packet_ttl: u8,
    ) {
    }

    fn time_ticks(&self) -> i64 {
        0
    }

    fn time_clock(&self) -> i64 {
        0
    }
}

fn ident(addr: u64, fp: u64) -> Identity {
    Identity { address: Address::new(addr).unwrap(), key_fingerprint: fp, keys_valid: true }
}

fn bad_ident(addr: u64, fp: u64) -> Identity {
    Identity { address: Address::new(addr).unwrap(), key_fingerprint: fp, keys_valid: false }
}

fn member(id: Identity, eps: Vec<Endpoint>) -> RootSetMember {
    RootSetMember { identity: id, endpoints: eps }
}

fn ep(n: u128) -> Endpoint {
    Endpoint::IpUdp { ip: n, port: 9993 }
}

fn new_node(addr: u64) -> Node {
    Node::new(ident(addr, 0x1000 + addr), [7u8; 16])
}

fn v1_packet(dest: Address, src: Address, hops: u8, verb: u8, payload: &[u8]) -> Vec<u8> {
    let mut d = vec![0u8; 20];
    d[0..8].copy_from_slice(&[1, 2, 3, 4, 5, 6, 7, 8]);
    d[8..13].copy_from_slice(&dest.to_bytes());
    d[13..18].copy_from_slice(&src.to_bytes());
    d[18] = hops & 0x0f;
    d[19] = verb;
    d.extend_from_slice(payload);
    d
}

fn v1_fragment(dest: Address, no: u8, total: u8, payload: &[u8]) -> Vec<u8> {
    let mut d = vec![0u8; 16];
    d[0..8].copy_from_slice(&[1, 2, 3, 4, 5, 6, 7, 8]);
    d[8..13].copy_from_slice(&dest.to_bytes());
    d[13] = 0xff;
    d[14] = (total << 4) | (no & 0x0f);
    d[15] = 0;
    d.extend_from_slice(payload);
    d
}

fn online_events(events: &[Event]) -> Vec<bool> {
    let mut out = Vec::new();
    for e in events {
        if let Event::Online(b) = e {
            out.push(*b);
        }
    }
    out
}

#[test]
fn s1_bootstrap_offline_then_online() {
    let mut node = new_node(0x01_0000_0001);
    let root = ident(0x02_0000_0002, 77);
    let set = RootSet {
        name: "core".to_string(),
        revision: 1,
        members: vec![member(root, vec![ep(1), ep(2)])],
    };
    assert!(!node.has_roots_defined());
    assert!(node.init_default_roots(set));
    assert!(node.has_roots_defined());

    // first sync tick: the root is adopted but has never answered
    let r = node.do_background_tasks(&TestHost, 1000);
    assert_eq!(r.interval_ms, 1000);
    assert!(!node.is_online());
    assert!(online_events(&r.events).is_empty());
    assert!(node.peer(root.address).is_some(), "root peer was created");
    assert!(node.best_root().is_none());

    // a HELLO reply arrives; the next tick goes online, exactly once
    node.record_hello_reply(root.address, 1500);
    let r = node.do_background_tasks(&TestHost, 2000);
    assert_eq!(online_events(&r.events), vec![true]);
    assert!(node.is_online());
    let best = node.best_root().expect("the replying root is elected");
    assert_eq!(best.identity(), root);

    // no transition, no event
    let r = node.do_background_tasks(&TestHost, 3000);
    assert!(online_events(&r.events).is_empty());
    assert!(node.is_online());
}

#[test]
fn s2_root_rotation_from_the_wire() {
    let mut node = new_node(0x01_0000_0001);
    let m1 = ident(0x02_0000_0002, 11);
    let m2 = ident(0x03_0000_0003, 22);
    let v1 = RootSet {
        name: "core".to_string(),
        revision: 1,
        members: vec![member(m1, vec![ep(1)])],
    };
    assert!(node.add_update_root_set(v1));
    let r = node.do_background_tasks(&TestHost, 1000);
    let mut updated = 0;
    for e in &r.events {
        if let Event::UpdatedRoots(old, new) = e {
            updated += 1;
            assert!(old.is_empty());
            assert_eq!(new.len(), 1);
            assert_eq!(new[0], m1);
        }
    }
    assert_eq!(updated, 1);

    // a current member rotates the set to revision 2
    let v2 = RootSet {
        name: "core".to_string(),
        revision: 2,
        members: vec![member(m2, vec![ep(9)])],
    };
    node.remote_update_root_set(&m1, v2);
    let r = node.do_background_tasks(&TestHost, 2000);
    let mut updated = 0;
    for e in &r.events {
        if let Event::UpdatedRoots(old, new) = e {
            updated += 1;
            assert_eq!(old.len(), 1);
            assert_eq!(old[0], m1);
            assert_eq!(new.len(), 1);
            assert_eq!(new[0], m2);
        }
    }
    assert_eq!(updated, 1);

    // a wire update for an unknown set name is rejected without effect
    let stranger = RootSet {
        name: "edge".to_string(),
        revision: 9,
        members: vec![member(ident(0x04_0000_0004, 33), vec![ep(3)])],
    };
    node.remote_update_root_set(&m2, stranger);
    assert_eq!(node.root_sets().len(), 1);
    assert_eq!(node.root_sets()[0].name, "core");
    let r = node.do_background_tasks(&TestHost, 3000);
    for e in &r.events {
        assert!(!matches!(e, Event::UpdatedRoots(_, _)));
    }
}

#[test]
fn p5_only_the_administrator_adds_sets() {
    let mut node = new_node(0x01_0000_0001);
    let m1 = ident(0x02_0000_0002, 11);
    let base = RootSet {
        name: "core".to_string(),
        revision: 1,
        members: vec![member(m1, vec![ep(1)])],
    };
    assert!(node.add_update_root_set(base));
    assert_eq!(node.root_sets().len(), 1);

    // from the wire: never a new set
    let newcomer = RootSet {
        name: "edge".to_string(),
        revision: 1,
        members: vec![member(ident(0x05_0000_0005, 44), vec![ep(2)])],
    };
    node.remote_update_root_set(&m1, newcomer);
    assert_eq!(node.root_sets().len(), 1);

    // from the administrator: a new set is fine
    let newcomer = RootSet {
        name: "edge".to_string(),
        revision: 1,
        members: vec![member(ident(0x05_0000_0005, 44), vec![ep(2)])],
    };
    assert!(node.add_update_root_set(newcomer));
    assert_eq!(node.root_sets().len(), 2);

    // a stale revision replaces nothing
    let stale = RootSet { name: "core".to_string(), revision: 1, members: vec![] };
    assert!(!node.add_update_root_set(stale));
}

#[test]
fn s3_address_collision_is_excluded_and_warned_once() {
    let mut node = new_node(0x01_0000_0001);
    let colliding_addr: u64 = 0xaa_bbcc_ddee;
    let c1 = ident(colliding_addr, 1);
    let c2 = ident(colliding_addr, 2);
    let good = ident(0x06_0000_0006, 3);
    let set_a = RootSet {
        name: "a".to_string(),
        revision: 1,
        members: vec![member(c1, vec![ep(1)]), member(good, vec![ep(2)])],
    };
    let set_b = RootSet {
        name: "b".to_string(),
        revision: 1,
        members: vec![member(c2, vec![ep(3)])],
    };
    assert!(node.add_update_root_set(set_a));
    assert!(node.add_update_root_set(set_b));
    let r = node.do_background_tasks(&TestHost, 1000);

    let mut collision_warnings = 0;
    for e in &r.events {
        if let Event::SecurityWarning(w) = e {
            if let vl1_core::event::SecurityWarningKind::AddressCollision(a) = w {
                collision_warnings += 1;
                assert_eq!(a.to_u64(), colliding_addr);
            }
        }
    }
    assert_eq!(collision_warnings, 1, "exactly one warning for the address");

    // neither colliding identity became a root; the good one did
    for e in &r.events {
        if let Event::UpdatedRoots(_, new) = e {
            assert_eq!(new.len(), 1);
            assert_eq!(new[0], good);
        }
    }
    assert!(node.peer(c1.address).is_none());

    // best-root election falls back to the remaining root
    node.record_hello_reply(good.address, 1200);
    node.do_background_tasks(&TestHost, 2000);
    assert_eq!(node.best_root().unwrap().identity(), good);
}

#[test]
fn bad_identity_is_warned_and_skipped() {
    let mut node = new_node(0x01_0000_0001);
    let lame = bad_ident(0x07_0000_0007, 9);
    let good = ident(0x06_0000_0006, 3);
    let set = RootSet {
        name: "core".to_string(),
        revision: 1,
        members: vec![member(lame, vec![ep(1)]), member(good, vec![ep(2)])],
    };
    assert!(node.add_update_root_set(set));
    let r = node.do_background_tasks(&TestHost, 1000);
    let mut bad_warnings = 0;
    for e in &r.events {
        if let Event::SecurityWarning(vl1_core::event::SecurityWarningKind::BadIdentity(a)) = e {
            bad_warnings += 1;
            assert_eq!(*a, lame.address);
        }
    }
    assert_eq!(bad_warnings, 1);
    for e in &r.events {
        if let Event::UpdatedRoots(_, new) = e {
            assert_eq!(new.len(), 1);
            assert_eq!(new[0], good);
        }
    }
}

#[test]
fn s5_whois_saturation_and_retry_expiry() {
    let mut node = new_node(0x01_0000_0001);
    let me = Address::new(0x01_0000_0001).unwrap();
    let unknown = ident(0x08_0000_0008, 1);
    let sock = LocalSocket { id: 1 };
    let ifc = LocalInterface { id: 1 };

    // 65 packets from an unresolved source: the oldest is dropped
    for k in 0..65u8 {
        let pkt = v1_packet(me, unknown.address, 0, 1, &[k]);
        let r = node.handle_incoming_physical_packet(
            &vl1_core::host::DummyInnerProtocol,
            &ep(5),
            sock,
            ifc,
            pkt,
            100,
        );
        assert!(matches!(r, IngressResult::WhoisQueued(_)));
    }
    let waiting = node.resolve_whois(unknown, 200);
    assert_eq!(waiting.len(), 64);
    // the first queued packet is now the one tagged 1; tag 0 was evicted
    assert_eq!(waiting[0].data[20], 1);
    assert_eq!(waiting[63].data[20], 64);
    // each waiting packet remembers the path it arrived on
    assert_eq!(waiting[0].endpoint, ep(5));
    assert_eq!(waiting[0].local_socket, sock);

    // an entry that never resolves is discarded after the retry budget
    let unknown2 = ident(0x09_0000_0009, 2);
    let pkt = v1_packet(me, unknown2.address, 0, 1, &[0xEE]);
    node.handle_incoming_physical_packet(
        &vl1_core::host::DummyInnerProtocol,
        &ep(5),
        sock,
        ifc,
        pkt,
        300,
    );
    // retry sweeps: counts 1 -> 2 -> 3 -> 4, then over the limit
    for t in [1000i64, 2000, 3000, 4000, 5000] {
        node.do_background_tasks(&TestHost, t);
    }
    let waiting = node.resolve_whois(unknown2, 6000);
    assert!(waiting.is_empty(), "expired lookup dropped its packets");
}

#[test]
fn s6_forward_respects_the_hop_limit() {
    let mut node = new_node(0x01_0000_0001);
    let me = Address::new(0x01_0000_0001).unwrap();
    let remote = ident(0x0a_0000_000a, 5);
    let other = ident(0x0b_0000_000b, 6);
    let sock = LocalSocket { id: 1 };
    let ifc = LocalInterface { id: 2 };

    // make the remote peer known and teach the node its path
    assert!(node.resolve_whois(remote, 50).is_empty());
    let from_remote = v1_packet(me, remote.address, 0, 1, b"hi");
    let r = node.handle_incoming_physical_packet(
        &vl1_core::host::DummyInnerProtocol,
        &ep(77),
        sock,
        ifc,
        from_remote,
        100,
    );
    assert_eq!(r, IngressResult::DeliveredToSelf);

    // one below the limit: forwarded with the hop nibble raised
    let pkt = v1_packet(remote.address, other.address, 6, 1, b"via");
    let r = node.handle_incoming_physical_packet(
        &vl1_core::host::DummyInnerProtocol,
        &ep(78),
        sock,
        ifc,
        pkt,
        200,
    );
    match r {
        IngressResult::Forwarded(w) => {
            assert_eq!(w.endpoint, ep(77));
            assert_eq!(w.local_socket, Some(sock));
            assert_eq!(w.data[18] & 0x0f, 7);
        },
        other => panic!("expected a forward, got {:?}", other),
    }

    // at the limit: dropped
    let pkt = v1_packet(remote.address, other.address, 7, 1, b"via");
    let r = node.handle_incoming_physical_packet(
        &vl1_core::host::DummyInnerProtocol,
        &ep(78),
        sock,
        ifc,
        pkt,
        300,
    );
    assert_eq!(r, IngressResult::DroppedHopLimit);

    // no peer for the destination: dropped for want of a route
    let pkt = v1_packet(other.address, remote.address, 0, 1, b"via");
    let r = node.handle_incoming_physical_packet(
        &vl1_core::host::DummyInnerProtocol,
        &ep(78),
        sock,
        ifc,
        pkt,
        400,
    );
    assert_eq!(r, IngressResult::DroppedNoRoute);
}

#[test]
fn ingress_classification() {
    let mut node = new_node(0x01_0000_0001);
    let me = Address::new(0x01_0000_0001).unwrap();
    let sock = LocalSocket { id: 1 };
    let ifc = LocalInterface { id: 1 };

    // v2 sentinel wins over everything
    let mut d = v1_packet(me, Address::new(0x02_0000_0002).unwrap(), 0, 1, b"");
    d[8] = 0xff;
    let r = node.handle_incoming_physical_packet(
        &vl1_core::host::DummyInnerProtocol,
        &ep(1),
        sock,
        ifc,
        d,
        100,
    );
    assert_eq!(r, IngressResult::V2Packet);

    // runts are dropped
    let r = node.handle_incoming_physical_packet(
        &vl1_core::host::DummyInnerProtocol,
        &ep(1),
        sock,
        ifc,
        vec![0u8; 10],
        100,
    );
    assert_eq!(r, IngressResult::DroppedMalformed);

    // a trailing fragment for this node is stored
    let d = v1_fragment(me, 1, 3, b"x");
    let r = node.handle_incoming_physical_packet(
        &vl1_core::host::DummyInnerProtocol,
        &ep(1),
        sock,
        ifc,
        d,
        100,
    );
    assert_eq!(r, IngressResult::FragmentStored);
}

#[test]
fn p1_canonical_paths_are_stable() {
    let mut node = new_node(0x01_0000_0001);
    let s1 = LocalSocket { id: 1 };
    let s2 = LocalSocket { id: 2 };
    let i1 = LocalInterface { id: 1 };
    let a = node.canonical_path(&ep(1), s1, i1, 100);
    let b = node.canonical_path(&ep(1), s1, i1, 200);
    assert_eq!(a, b, "one path object per (endpoint, socket) pair");
    let c = node.canonical_path(&ep(1), s2, i1, 300);
    assert_ne!(a, c);
    let d = node.canonical_path(&ep(2), s1, i1, 400);
    assert_ne!(a, d);
    assert_eq!(node.canonical_path(&ep(1), s1, i1, 500), a);
}

#[test]
fn peers_expire_but_roots_are_pinned() {
    let mut node = new_node(0x01_0000_0001);
    let root = ident(0x02_0000_0002, 1);
    let passerby = ident(0x03_0000_0003, 2);
    let set = RootSet {
        name: "core".to_string(),
        revision: 1,
        members: vec![member(root, vec![ep(1)])],
    };
    assert!(node.add_update_root_set(set));
    node.do_background_tasks(&TestHost, 1000);
    assert!(node.resolve_whois(passerby, 1000).is_empty());
    assert!(node.peer(passerby.address).is_some());
    assert!(node.peer(root.address).is_some());

    // far past the expiration threshold, the idle peer is gone and the
    // idle root is still there
    node.do_background_tasks(&TestHost, 700_000);
    assert!(node.peer(passerby.address).is_none());
    assert!(node.peer(root.address).is_some());
}

#[test]
fn this_node_is_root_follows_membership() {
    let mut node = new_node(0x01_0000_0001);
    assert!(!node.this_node_is_root());
    let set = RootSet {
        name: "core".to_string(),
        revision: 1,
        members: vec![member(node.identity(), vec![ep(1)])],
    };
    assert!(node.add_update_root_set(set));
    node.do_background_tasks(&TestHost, 1000);
    assert!(node.this_node_is_root());
}
