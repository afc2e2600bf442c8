//! 48-bit session identifier with a little-endian, nonzero six-byte wire form.

use vstd::prelude::*;

verus! {

/// 48-bit session ID (the most significant 16 bits of the u64 are always zero).
///
/// Value 0 is the reserved NONE marker and is never a valid `SessionId`;
/// value `0xffff_ffff_ffff` is reserved on the wire as the session-init
/// sentinel but is still a representable ID.
#[derive(Clone, Copy, PartialEq, Eq, Structural, Hash, Debug)]
pub struct SessionId {
    v: u64,
}

/// The little-endian six-byte form of a 48-bit value.
pub open spec fn session_id_le_bytes(v: u64) -> Seq<u8> {
    seq![
        (v & 0xff) as u8,
        ((v >> 8) & 0xff) as u8,
        ((v >> 16) & 0xff) as u8,
        ((v >> 24) & 0xff) as u8,
        ((v >> 32) & 0xff) as u8,
        ((v >> 40) & 0xff) as u8,
    ]
}

/// The 48-bit value read little-endian from six bytes.
pub open spec fn session_id_from_le_bytes(b: Seq<u8>) -> u64
    recommends
        b.len() == 6,
{
    ((b[0] as u64) | ((b[1] as u64) << 8) | ((b[2] as u64) << 16) | ((b[3] as u64) << 24) | ((
    b[4] as u64) << 32) | ((b[5] as u64) << 40)) as u64
}

impl SessionId {
    /// Size of a session ID on the wire, in bytes.
    pub const SIZE: usize = 6;

    /// The reserved "no session" value; never a valid `SessionId`.
    pub const NONE: u64 = 0;

    /// Largest representable session ID value.
    pub const MAX: u64 = 0xffff_ffff_ffff;

    /// The numeric value of this session ID.
    pub closed spec fn value(self) -> u64 {
        self.v
    }

    /// Every session ID holds a value in `[1, MAX]`.
    pub open spec fn wf(self) -> bool {
        1 <= self.value() <= Self::MAX
    }

    /// Create a new session ID from a nonzero value no larger than `MAX`.
    pub fn new(i: u64) -> (r: SessionId)
        requires
            1 <= i <= Self::MAX,
        ensures
            r.value() == i,
            r.wf(),
    {
        SessionId { v: i }
    }

    /// Map an arbitrary word of entropy uniformly-enough onto `[1, MAX]`.
    ///
    /// The embedding runtime supplies the entropy; any value is accepted.
    pub fn new_from_entropy(e: u64) -> (r: SessionId)
        ensures
            r.value() as int == e as int % (Self::MAX - 1) as int + 1,
            r.wf(),
    {
        SessionId { v: (e % (Self::MAX - 1)) + 1 }
    }

    /// Decode a six-byte little-endian form; `None` iff the value is zero.
    pub fn new_from_bytes(b: &[u8; 6]) -> (r: Option<SessionId>)
        ensures
            session_id_from_le_bytes(b@) == 0 <==> r is None,
            r matches Some(sid) ==> sid.value() == session_id_from_le_bytes(b@) && sid.wf(),
    {
        let w: u64 = (b[0] as u64) | ((b[1] as u64) << 8) | ((b[2] as u64) << 16) | ((b[3]
            as u64) << 24) | ((b[4] as u64) << 32) | ((b[5] as u64) << 40);
        proof {
            let b0 = b@[0];
            let b1 = b@[1];
            let b2 = b@[2];
            let b3 = b@[3];
            let b4 = b@[4];
            let b5 = b@[5];
            assert(((b0 as u64) | ((b1 as u64) << 8) | ((b2 as u64) << 16) | ((b3 as u64) << 24)
                | ((b4 as u64) << 32) | ((b5 as u64) << 40)) & 0xffff_ffff_ffffu64 == ((b0 as u64)
                | ((b1 as u64) << 8) | ((b2 as u64) << 16) | ((b3 as u64) << 24) | ((b4 as u64)
                << 32) | ((b5 as u64) << 40))) by (bit_vector);
        }
        Self::new_from_u64_le(w)
    }

    /// Create from a u64 whose low 48 bits carry the value; `None` iff they are zero.
    pub fn new_from_u64_le(i: u64) -> (r: Option<SessionId>)
        ensures
            i & Self::MAX == 0 <==> r is None,
            r matches Some(sid) ==> sid.value() == i & Self::MAX && sid.wf(),
    {
        let v: u64 = i & Self::MAX;
        proof {
            assert(i & 0xffff_ffff_ffffu64 <= 0xffff_ffff_ffffu64) by (bit_vector);
        }
        if v == 0 {
            None
        } else {
            Some(SessionId { v })
        }
    }

    /// This session ID as a little-endian six-byte array.
    pub fn as_bytes(&self) -> (r: [u8; 6])
        ensures
            r@ == session_id_le_bytes(self.value()),
    {
        let v = self.v;
        let r: [u8; 6] = [
            (v & 0xff) as u8,
            ((v >> 8) & 0xff) as u8,
            ((v >> 16) & 0xff) as u8,
            ((v >> 24) & 0xff) as u8,
            ((v >> 32) & 0xff) as u8,
            ((v >> 40) & 0xff) as u8,
        ];
        proof {
            assert(r@ =~= session_id_le_bytes(self.value()));
        }
        r
    }

    /// The numeric value, for display or storage.
    pub fn to_u64(&self) -> (r: u64)
        ensures
            r == self.value(),
    {
        self.v
    }
}

impl From<SessionId> for u64 {
    /// The numeric value of the session ID.
    fn from(sid: SessionId) -> (r: u64) {
        sid.v
    }
}

impl vstd::std_specs::convert::FromSpecImpl<SessionId> for u64 {
    open spec fn obeys_from_spec() -> bool {
        true
    }

    open spec fn from_spec(sid: SessionId) -> u64 {
        sid.value()
    }
}

/// Round trip: encoding any valid session ID value to its six little-endian
/// bytes and decoding them again yields the same value, and the decode
/// succeeds.
pub proof fn lemma_session_id_round_trip(v: u64)
    requires
        1 <= v <= SessionId::MAX,
    ensures
        session_id_from_le_bytes(session_id_le_bytes(v)) == v,
{
    let b = session_id_le_bytes(v);
    let b0 = b[0];
    let b1 = b[1];
    let b2 = b[2];
    let b3 = b[3];
    let b4 = b[4];
    let b5 = b[5];
    assert(b0 == (v & 0xff) as u8 && b1 == ((v >> 8) & 0xff) as u8 && b2 == ((v >> 16) & 0xff) as u8
        && b3 == ((v >> 24) & 0xff) as u8 && b4 == ((v >> 32) & 0xff) as u8 && b5 == ((v >> 40)
        & 0xff) as u8);
    assert(v <= 0xffff_ffff_ffffu64 ==> ((((v & 0xff) as u8) as u64) | ((((v >> 8) & 0xff) as u8)
        as u64) << 8 | ((((v >> 16) & 0xff) as u8) as u64) << 16 | ((((v >> 24) & 0xff) as u8)
        as u64) << 24 | ((((v >> 32) & 0xff) as u8) as u64) << 32 | ((((v >> 40) & 0xff) as u8)
        as u64) << 40) == v) by (bit_vector);
}

} // verus!
