use vl1_core::endpoint::{Endpoint, LocalInterface, LocalSocket};
use vl1_core::fragged::Fragged;
use vl1_core::path::Path;

fn frag(tag: u8) -> Vec<u8> {
    vec![tag, tag, tag]
}

#[test]
fn completeness_out_of_order() {
    // three fragments with one counter, any permutation: assembled exactly
    // once, on the last one, in fragment-number order
    let mut f: Fragged<Vec<u8>, 16> = Fragged::new();
    assert!(f.assemble(7, frag(2), 2, 3).is_none());
    assert!(f.assemble(7, frag(0), 0, 3).is_none());
    let a = f.assemble(7, frag(1), 1, 3).expect("third fragment completes");
    let parts = a.as_ref();
    assert_eq!(parts.len(), 3);
    assert_eq!(parts[0], frag(0));
    assert_eq!(parts[1], frag(1));
    assert_eq!(parts[2], frag(2));
    // after completion the slots are empty: the same fragment again does
    // not produce a second assembly
    assert!(f.assemble(7, frag(1), 1, 3).is_none());
}

#[test]
fn completeness_every_permutation_of_three() {
    let perms: [[u8; 3]; 6] = [
        [0, 1, 2],
        [0, 2, 1],
        [1, 0, 2],
        [1, 2, 0],
        [2, 0, 1],
        [2, 1, 0],
    ];
    for perm in perms {
        let mut f: Fragged<Vec<u8>, 16> = Fragged::new();
        let mut results = 0;
        for (step, &no) in perm.iter().enumerate() {
            match f.assemble(99, frag(no), no, 3) {
                Some(a) => {
                    results += 1;
                    assert_eq!(step, 2, "assembled only on the last fragment");
                    let parts = a.as_ref();
                    assert_eq!(parts.len(), 3);
                    for j in 0..3u8 {
                        assert_eq!(parts[j as usize], frag(j));
                    }
                },
                None => assert!(step < 2),
            }
        }
        assert_eq!(results, 1);
    }
}

#[test]
fn redelivery_overwrites_within_one_counter() {
    let mut f: Fragged<Vec<u8>, 16> = Fragged::new();
    assert!(f.assemble(5, frag(9), 0, 2).is_none());
    assert!(f.assemble(5, frag(7), 0, 2).is_none()); // overwrite slot 0
    let a = f.assemble(5, frag(1), 1, 2).unwrap();
    assert_eq!(a.as_ref()[0], frag(7));
    assert_eq!(a.as_ref()[1], frag(1));
}

#[test]
fn counter_change_drops_held_fragments() {
    let mut f: Fragged<Vec<u8>, 16> = Fragged::new();
    assert!(f.assemble(1, frag(0), 0, 2).is_none());
    // new counter: the held fragment of counter 1 is dropped
    assert!(f.assemble(2, frag(4), 0, 2).is_none());
    // completing counter 2 needs only counter-2 fragments
    let a = f.assemble(2, frag(5), 1, 2).unwrap();
    assert_eq!(a.as_ref().len(), 2);
    assert_eq!(a.as_ref()[0], frag(4));
    assert_eq!(a.as_ref()[1], frag(5));
}

#[test]
fn invalid_ordinals_rejected() {
    let mut f: Fragged<Vec<u8>, 16> = Fragged::new();
    assert!(f.assemble(1, frag(0), 2, 2).is_none()); // ordinal >= count
    assert!(f.assemble(1, frag(0), 0, 17).is_none()); // count > capacity
    // the reassembler is unaffected: a normal exchange still works
    assert!(f.assemble(1, frag(0), 0, 2).is_none());
    assert!(f.assemble(1, frag(1), 1, 2).is_some());
}

#[test]
fn single_fragment_message() {
    let mut f: Fragged<Vec<u8>, 16> = Fragged::new();
    let a = f.assemble(3, frag(8), 0, 1).unwrap();
    assert_eq!(a.as_ref().len(), 1);
}

#[test]
fn path_reassembly_out_of_order() {
    // the S-series fragment scenario, on a path's own reassembler
    let mut p = Path::new(
        Endpoint::IpUdp { ip: 10, port: 9993 },
        LocalSocket { id: 1 },
        LocalInterface { id: 1 },
        0,
    );
    let pid: u64 = 0x0102030405060708;
    assert!(p.receive_fragment(pid, 2, 3, frag(2)).is_none());
    assert!(p.receive_fragment(pid, 0, 3, frag(0)).is_none());
    let a = p.receive_fragment(pid, 1, 3, frag(1)).expect("completes on third");
    assert_eq!(a.as_ref().len(), 3);
    assert_eq!(a.as_ref()[0], frag(0));
    assert_eq!(a.as_ref()[1], frag(1));
    assert_eq!(a.as_ref()[2], frag(2));
    // a re-delivery under the same packet id starts over quietly, and a
    // new packet id as counter resets cleanly
    assert!(p.receive_fragment(pid, 1, 3, frag(1)).is_none());
    let pid2: u64 = 0x1111111111111111;
    assert!(p.receive_fragment(pid2, 0, 2, frag(4)).is_none());
    let a2 = p.receive_fragment(pid2, 1, 2, frag(5)).unwrap();
    assert_eq!(a2.as_ref().len(), 2);
}
