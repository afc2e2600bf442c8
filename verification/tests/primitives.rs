use vl1_core::address::Address;
use vl1_core::gate::IntervalGate;
use vl1_core::protocol::{
    fragment_no, increment_hops, is_fragment, is_v2, packet_id, parse_dest, parse_src,
    total_fragments,
};
use vl1_core::sessionid::SessionId;

#[test]
fn session_id_round_trip_small() {
    let sid = SessionId::new(1);
    let b = sid.as_bytes();
    assert_eq!(SessionId::new_from_bytes(&b), Some(sid));
}

#[test]
fn session_id_round_trip_max() {
    let sid = SessionId::new(SessionId::MAX);
    let b = sid.as_bytes();
    assert_eq!(b, [0xff, 0xff, 0xff, 0xff, 0xff, 0xff]);
    assert_eq!(SessionId::new_from_bytes(&b), Some(sid));
}

#[test]
fn session_id_round_trip_mixed() {
    for v in [2u64, 0x1234, 0xdead_beef, 0x8000_0000_0001, 0xfffe_dcba_9876] {
        let sid = SessionId::new(v);
        assert_eq!(u64::from(sid), v);
        assert_eq!(SessionId::new_from_bytes(&sid.as_bytes()), Some(sid));
    }
}

#[test]
fn session_id_bytes_are_little_endian() {
    let sid = SessionId::new(0x0102_0304_0506);
    assert_eq!(sid.as_bytes(), [0x06, 0x05, 0x04, 0x03, 0x02, 0x01]);
}

#[test]
fn session_id_zero_bytes_rejected() {
    assert_eq!(SessionId::new_from_bytes(&[0; 6]), None);
    assert_eq!(SessionId::new_from_u64_le(0), None);
    // only the low 48 bits count
    assert_eq!(SessionId::new_from_u64_le(0xffff_0000_0000_0000), None);
}

#[test]
fn session_id_from_entropy_in_range() {
    for e in [0u64, 1, SessionId::MAX - 1, SessionId::MAX, u64::MAX] {
        let sid = SessionId::new_from_entropy(e);
        let v = u64::from(sid);
        assert!(v >= 1 && v <= SessionId::MAX);
    }
}

#[test]
fn address_round_trip() {
    let a = Address::new(0x01_0203_0405).unwrap();
    let b = a.to_bytes();
    assert_eq!(b, [0x01, 0x02, 0x03, 0x04, 0x05]);
    assert_eq!(Address::from_bytes_fixed(&b), Some(a));
}

#[test]
fn address_reserved_values_rejected() {
    assert!(Address::new(0).is_none());
    assert!(Address::new(0x100_0000_0000).is_none());
    assert!(Address::new(0xff_0000_0001).is_none());
    assert!(Address::from_bytes_fixed(&[0xff, 1, 2, 3, 4]).is_none());
    assert!(Address::from_bytes_fixed(&[0, 0, 0, 0, 0]).is_none());
}

fn sample_packet() -> Vec<u8> {
    let mut d = vec![0u8; 24];
    // packet id
    d[0..8].copy_from_slice(&[1, 2, 3, 4, 5, 6, 7, 8]);
    // dest aa:bb:cc:dd:ee
    d[8..13].copy_from_slice(&[0xaa, 0xbb, 0xcc, 0xdd, 0xee]);
    // src 01:02:03:04:05
    d[13..18].copy_from_slice(&[0x01, 0x02, 0x03, 0x04, 0x05]);
    d[18] = 0x03; // hops 3
    d[19] = 0x01; // verb
    d
}

#[test]
fn header_accessors() {
    let d = sample_packet();
    assert!(!is_v2(&d));
    assert!(!is_fragment(&d));
    assert_eq!(packet_id(&d), 0x0102030405060708);
    assert_eq!(parse_dest(&d).unwrap().to_u64(), 0xaa_bbcc_ddee);
    assert_eq!(parse_src(&d).unwrap().to_u64(), 0x01_0203_0405);
}

#[test]
fn v2_sentinel_detected() {
    let mut d = sample_packet();
    d[8] = 0xff;
    assert!(is_v2(&d));
}

#[test]
fn fragment_header_accessors() {
    let mut d = vec![0u8; 16];
    d[0..8].copy_from_slice(&[9, 9, 9, 9, 9, 9, 9, 9]);
    d[8..13].copy_from_slice(&[0xaa, 0xbb, 0xcc, 0xdd, 0xee]);
    d[13] = 0xff; // fragment indicator
    d[14] = 0x32; // total 3, ordinal 2
    d[15] = 0x01; // hops 1
    assert!(is_fragment(&d));
    assert_eq!(fragment_no(&d), 2);
    assert_eq!(total_fragments(&d), 3);
}

#[test]
fn increment_hops_on_packet() {
    let mut d = sample_packet();
    let h = increment_hops(&mut d);
    assert_eq!(h, 4);
    assert_eq!(d[18] & 0x0f, 4);
}

#[test]
fn increment_hops_on_fragment() {
    let mut d = vec![0u8; 16];
    d[13] = 0xff;
    d[15] = 0x06;
    let h = increment_hops(&mut d);
    assert_eq!(h, 7);
    assert_eq!(d[15] & 0x0f, 7);
}

#[test]
fn interval_gate_latches() {
    let mut g = IntervalGate::new(1000);
    assert!(!g.gate(0));
    assert!(!g.gate(999));
    assert!(g.gate(1000));
    assert!(!g.gate(1500));
    assert!(g.gate(2000));
    assert!(g.gate(3500));
    assert!(!g.gate(4000));
}
