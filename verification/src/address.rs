//! 40-bit node addresses and the identities they are derived from.

use vstd::prelude::*;

verus! {

/// Largest 40-bit address value.
pub const ADDRESS_MAX: u64 = 0xff_ffff_ffff;

/// Addresses whose most significant byte is this value are reserved: on the
/// wire that byte doubles as the fragment indicator.
pub const ADDRESS_RESERVED_PREFIX: u8 = 0xff;

/// A 40-bit node address, the primary key of the peer table.
///
/// Zero is reserved as "no address" and the `0xff` prefix is reserved for
/// wire framing, so neither is ever a valid `Address`.
#[derive(Clone, Copy, PartialEq, Eq, Structural, Hash, Debug)]
pub struct Address {
    v: u64,
}

/// Which 40-bit words denote a usable address.
pub open spec fn address_value_valid(v: u64) -> bool {
    1 <= v <= ADDRESS_MAX && (v >> 32) != ADDRESS_RESERVED_PREFIX as u64
}

/// The 40-bit value read big-endian from five bytes.
pub open spec fn address_from_be_bytes(b: Seq<u8>) -> u64
    recommends
        b.len() == 5,
{
    (((b[0] as u64) << 32) | ((b[1] as u64) << 24) | ((b[2] as u64) << 16) | ((b[3] as u64) << 8)
        | (b[4] as u64)) as u64
}

impl Address {
    /// The numeric value of this address.
    pub closed spec fn value(self) -> u64 {
        self.v
    }

    /// Every address is nonzero, 40-bit, and outside the reserved prefix.
    pub open spec fn wf(self) -> bool {
        address_value_valid(self.value())
    }

    /// Build an address from its numeric value; `None` for reserved values.
    pub fn new(v: u64) -> (r: Option<Address>)
        ensures
            address_value_valid(v) <==> (r matches Some(a) && a.value() == v && a.wf()),
            !address_value_valid(v) ==> r is None,
    {
        if 1 <= v && v <= ADDRESS_MAX && (v >> 32) != ADDRESS_RESERVED_PREFIX as u64 {
            Some(Address { v })
        } else {
            None
        }
    }

    /// Read an address from its five-byte big-endian wire form; `None` for
    /// the reserved values.
    pub fn from_bytes_fixed(b: &[u8; 5]) -> (r: Option<Address>)
        ensures
            address_value_valid(address_from_be_bytes(b@)) <==> (r matches Some(a) && a.value()
                == address_from_be_bytes(b@) && a.wf()),
            !address_value_valid(address_from_be_bytes(b@)) ==> r is None,
    {
        let v: u64 = ((b[0] as u64) << 32) | ((b[1] as u64) << 24) | ((b[2] as u64) << 16) | ((b[3]
            as u64) << 8) | (b[4] as u64);
        proof {
            let b0 = b@[0];
            let b1 = b@[1];
            let b2 = b@[2];
            let b3 = b@[3];
            let b4 = b@[4];
            assert((((b0 as u64) << 32) | ((b1 as u64) << 24) | ((b2 as u64) << 16) | ((b3 as u64)
                << 8) | (b4 as u64)) <= 0xff_ffff_ffffu64) by (bit_vector);
        }
        Self::new(v)
    }

    /// Whether this address is a usable (non-reserved) value.
    pub fn is_valid(self) -> (r: bool)
        ensures
            r == self.wf(),
    {
        1 <= self.v && self.v <= ADDRESS_MAX && (self.v >> 32) != ADDRESS_RESERVED_PREFIX as u64
    }

    /// The numeric value of this address.
    pub fn to_u64(self) -> (r: u64)
        ensures
            r == self.value(),
    {
        self.v
    }

    /// This address in its five-byte big-endian wire form.
    pub fn to_bytes(self) -> (r: [u8; 5])
        requires
            self.wf(),
        ensures
            r@.len() == 5,
            address_from_be_bytes(r@) == self.value(),
    {
        let v = self.v;
        let r: [u8; 5] = [
            ((v >> 32) & 0xff) as u8,
            ((v >> 24) & 0xff) as u8,
            ((v >> 16) & 0xff) as u8,
            ((v >> 8) & 0xff) as u8,
            (v & 0xff) as u8,
        ];
        proof {
            assert(v <= 0xff_ffff_ffffu64 ==> (((((v >> 32) & 0xff) as u8) as u64) << 32 | ((((v
                >> 24) & 0xff) as u8) as u64) << 24 | ((((v >> 16) & 0xff) as u8) as u64) << 16
                | ((((v >> 8) & 0xff) as u8) as u64) << 8 | (((v & 0xff) as u8) as u64))
                == v) by (bit_vector);
            assert(address_from_be_bytes(r@) == self.value());
        }
        r
    }
}

/// Two addresses with the same numeric value are the same address.
pub proof fn lemma_address_eq(a: Address, b: Address)
    requires
        a.value() == b.value(),
    ensures
        a == b,
{
}

/// A long-lived node identity: the address derived from the node's public
/// key, a stand-in for the key material itself, and whether that material
/// passes the external validity checks (key derivation and agreement are
/// outside this library's scope).
#[derive(Clone, Copy, PartialEq, Eq, Structural, Hash, Debug)]
pub struct Identity {
    /// The 40-bit address derived from the public key.
    pub address: Address,
    /// Stands for the identity's public key material.
    pub key_fingerprint: u64,
    /// Whether the key material is usable for agreement; identities that
    /// fail the external check cannot back a peer.
    pub keys_valid: bool,
}

impl Identity {
    /// An identity usable as a peer's.
    pub open spec fn wf(self) -> bool {
        self.address.wf()
    }
}

} // verus!
