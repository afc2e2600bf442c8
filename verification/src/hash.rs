//! SHA-512/384 digests (through OpenSSL) and HMAC built on top of them.
//!
//! The two digest primitives are trusted calls into the `openssl` crate;
//! the streaming hashers and the HMAC construction around them are verified.

use vstd::prelude::*;

verus! {

/// Size of a SHA-512 digest in bytes.
pub const SHA512_HASH_SIZE: usize = 64;

/// Size of a SHA-384 digest in bytes.
pub const SHA384_HASH_SIZE: usize = 48;

/// Size of an HMAC-SHA-512 tag in bytes.
pub const HMAC_SHA512_SIZE: usize = 64;

/// Size of an HMAC-SHA-384 tag in bytes.
pub const HMAC_SHA384_SIZE: usize = 48;

/// Input block size of SHA-512 and SHA-384, in bytes.
pub const SHA512_BLOCK_SIZE: usize = 128;

/// The SHA-512 digest of a byte sequence.
pub uninterp spec fn sha512_of(b: Seq<u8>) -> Seq<u8>;

/// The SHA-384 digest of a byte sequence.
pub uninterp spec fn sha384_of(b: Seq<u8>) -> Seq<u8>;

/// Relies on openssl::sha::sha512: the digest depends on the input alone
/// and is 64 bytes.
#[verifier::external_body]
fn sha512_digest(b: &[u8]) -> (r: [u8; 64])
    ensures
        r@ == sha512_of(b@),
{
    openssl::sha::sha512(b)
}

/// Relies on openssl::sha::sha384: the digest depends on the input alone
/// and is 48 bytes.
#[verifier::external_body]
fn sha384_digest(b: &[u8]) -> (r: [u8; 48])
    ensures
        r@ == sha384_of(b@),
{
    openssl::sha::sha384(b)
}

/// `k` zero-padded on the right to `n` bytes.
pub open spec fn zero_pad_to(k: Seq<u8>, n: nat) -> Seq<u8>
    recommends
        k.len() <= n,
{
    k + Seq::new((n - k.len()) as nat, |i: int| 0u8)
}

/// Every byte of `k` xor-ed with `x`.
pub open spec fn xor_all(k: Seq<u8>, x: u8) -> Seq<u8> {
    Seq::new(k.len(), |i: int| k[i] ^ x)
}

/// The HMAC key block: an over-long key is first hashed, then the key is
/// zero-padded to the hash's input block size.
pub open spec fn hmac_sha512_key_block(key: Seq<u8>) -> Seq<u8> {
    let k0 = if key.len() > SHA512_BLOCK_SIZE {
        sha512_of(key)
    } else {
        key
    };
    zero_pad_to(k0, SHA512_BLOCK_SIZE as nat)
}

/// HMAC-SHA-512 given an already prepared key block.
pub open spec fn hmac_sha512_from_block(block: Seq<u8>, msg: Seq<u8>) -> Seq<u8> {
    sha512_of(xor_all(block, 0x5c) + sha512_of(xor_all(block, 0x36) + msg))
}

/// HMAC-SHA-512 of a message under a key.
pub open spec fn hmac_sha512_spec(key: Seq<u8>, msg: Seq<u8>) -> Seq<u8> {
    hmac_sha512_from_block(hmac_sha512_key_block(key), msg)
}

/// The HMAC key block for SHA-384 (same 128-byte input block size).
pub open spec fn hmac_sha384_key_block(key: Seq<u8>) -> Seq<u8> {
    let k0 = if key.len() > SHA512_BLOCK_SIZE {
        sha384_of(key)
    } else {
        key
    };
    zero_pad_to(k0, SHA512_BLOCK_SIZE as nat)
}

/// HMAC-SHA-384 given an already prepared key block.
pub open spec fn hmac_sha384_from_block(block: Seq<u8>, msg: Seq<u8>) -> Seq<u8> {
    sha384_of(xor_all(block, 0x5c) + sha384_of(xor_all(block, 0x36) + msg))
}

/// HMAC-SHA-384 of a message under a key.
pub open spec fn hmac_sha384_spec(key: Seq<u8>, msg: Seq<u8>) -> Seq<u8> {
    hmac_sha384_from_block(hmac_sha384_key_block(key), msg)
}

/// Append `block ^ x` to `out`.
fn push_xored(out: &mut Vec<u8>, block: &Vec<u8>, x: u8)
    ensures
        final(out)@ == old(out)@ + xor_all(block@, x),
{
    let ghost base = out@;
    let mut i: usize = 0;
    while i < block.len()
        invariant
            i <= block.len(),
            out@ =~= base + xor_all(block@, x).subrange(0, i as int),
        decreases block.len() - i,
    {
        out.push(block[i] ^ x);
        proof {
            assert(out@ =~= base + xor_all(block@, x).subrange(0, i + 1));
        }
        i = i + 1;
    }
    proof {
        assert(out@ =~= base + xor_all(block@, x));
    }
}

/// A streaming SHA-512 hasher; the bytes are digested at `finish`.
pub struct SHA512 {
    buf: Vec<u8>,
}

impl SHA512 {
    /// The bytes taken in so far.
    pub closed spec fn processed(self) -> Seq<u8> {
        self.buf@
    }

    /// One-shot SHA-512.
    pub fn hash(b: &[u8]) -> (r: [u8; 64])
        ensures
            r@ == sha512_of(b@),
    {
        sha512_digest(b)
    }

    pub fn new() -> (r: Self)
        ensures
            r.processed() == Seq::<u8>::empty(),
    {
        SHA512 { buf: Vec::new() }
    }

    /// Forget everything taken in so far.
    pub fn reset(&mut self)
        ensures
            final(self).processed() == Seq::<u8>::empty(),
    {
        self.buf.clear();
    }

    /// Take in more bytes.
    pub fn update(&mut self, b: &[u8])
        ensures
            final(self).processed() == old(self).processed() + b@,
    {
        self.buf.extend_from_slice(b);
    }

    /// The digest of everything taken in; the hasher is left unchanged.
    pub fn finish(&mut self) -> (r: [u8; 64])
        ensures
            r@ == sha512_of(old(self).processed()),
            final(self).processed() == old(self).processed(),
    {
        sha512_digest(self.buf.as_slice())
    }
}

/// A streaming SHA-384 hasher; the bytes are digested at `finish`.
pub struct SHA384 {
    buf: Vec<u8>,
}

impl SHA384 {
    /// The bytes taken in so far.
    pub closed spec fn processed(self) -> Seq<u8> {
        self.buf@
    }

    /// One-shot SHA-384.
    pub fn hash(b: &[u8]) -> (r: [u8; 48])
        ensures
            r@ == sha384_of(b@),
    {
        sha384_digest(b)
    }

    pub fn new() -> (r: Self)
        ensures
            r.processed() == Seq::<u8>::empty(),
    {
        SHA384 { buf: Vec::new() }
    }

    /// Forget everything taken in so far.
    pub fn reset(&mut self)
        ensures
            final(self).processed() == Seq::<u8>::empty(),
    {
        self.buf.clear();
    }

    /// Take in more bytes.
    pub fn update(&mut self, b: &[u8])
        ensures
            final(self).processed() == old(self).processed() + b@,
    {
        self.buf.extend_from_slice(b);
    }

    /// The digest of everything taken in; the hasher is left unchanged.
    pub fn finish(&mut self) -> (r: [u8; 48])
        ensures
            r@ == sha384_of(old(self).processed()),
            final(self).processed() == old(self).processed(),
    {
        sha384_digest(self.buf.as_slice())
    }
}

/// A streaming HMAC-SHA-512: the key block is prepared at construction, the
/// message is buffered and the tag computed at `finish`.
pub struct HMACSHA512 {
    key_block: Vec<u8>,
    buf: Vec<u8>,
}

/// Prepare the 128-byte HMAC key block from a key.
fn prepare_key_block_512(key: &[u8]) -> (r: Vec<u8>)
    ensures
        r@ == hmac_sha512_key_block(key@),
{
    let mut k0: Vec<u8> = Vec::new();
    if key.len() > SHA512_BLOCK_SIZE {
        let d = sha512_digest(key);
        k0.extend_from_slice(d.as_slice());
    } else {
        k0.extend_from_slice(key);
    }
    let ghost k0spec = k0@;
    while k0.len() < SHA512_BLOCK_SIZE
        invariant
            k0spec.len() <= k0@.len() <= SHA512_BLOCK_SIZE,
            k0@ =~= k0spec + Seq::new((k0@.len() - k0spec.len()) as nat, |i: int| 0u8),
        decreases SHA512_BLOCK_SIZE - k0.len(),
    {
        k0.push(0u8);
        proof {
            assert(k0@ =~= k0spec + Seq::new((k0@.len() - k0spec.len()) as nat, |i: int| 0u8));
        }
    }
    proof {
        assert(k0@ =~= zero_pad_to(k0spec, SHA512_BLOCK_SIZE as nat));
    }
    k0
}

/// Prepare the 128-byte HMAC key block from a key (SHA-384 variant).
fn prepare_key_block_384(key: &[u8]) -> (r: Vec<u8>)
    ensures
        r@ == hmac_sha384_key_block(key@),
{
    let mut k0: Vec<u8> = Vec::new();
    if key.len() > SHA512_BLOCK_SIZE {
        let d = sha384_digest(key);
        k0.extend_from_slice(d.as_slice());
    } else {
        k0.extend_from_slice(key);
    }
    let ghost k0spec = k0@;
    while k0.len() < SHA512_BLOCK_SIZE
        invariant
            k0spec.len() <= k0@.len() <= SHA512_BLOCK_SIZE,
            k0@ =~= k0spec + Seq::new((k0@.len() - k0spec.len()) as nat, |i: int| 0u8),
        decreases SHA512_BLOCK_SIZE - k0.len(),
    {
        k0.push(0u8);
        proof {
            assert(k0@ =~= k0spec + Seq::new((k0@.len() - k0spec.len()) as nat, |i: int| 0u8));
        }
    }
    proof {
        assert(k0@ =~= zero_pad_to(k0spec, SHA512_BLOCK_SIZE as nat));
    }
    k0
}

impl HMACSHA512 {
    /// The prepared key block.
    pub closed spec fn spec_key_block(self) -> Seq<u8> {
        self.key_block@
    }

    /// The message bytes taken in so far.
    pub closed spec fn processed(self) -> Seq<u8> {
        self.buf@
    }

    pub fn new(key: &[u8]) -> (r: Self)
        ensures
            r.spec_key_block() == hmac_sha512_key_block(key@),
            r.processed() == Seq::<u8>::empty(),
    {
        HMACSHA512 { key_block: prepare_key_block_512(key), buf: Vec::new() }
    }

    /// Forget the message taken in so far; the key is kept.
    pub fn reset(&mut self)
        ensures
            final(self).spec_key_block() == old(self).spec_key_block(),
            final(self).processed() == Seq::<u8>::empty(),
    {
        self.buf.clear();
    }

    /// Take in more message bytes.
    pub fn update(&mut self, b: &[u8])
        ensures
            final(self).spec_key_block() == old(self).spec_key_block(),
            final(self).processed() == old(self).processed() + b@,
    {
        self.buf.extend_from_slice(b);
    }

    /// The tag over everything taken in; the state is left unchanged.
    pub fn finish(&mut self) -> (r: [u8; 64])
        ensures
            r@ == hmac_sha512_from_block(old(self).spec_key_block(), old(self).processed()),
            *final(self) == *old(self),
    {
        let mut inner: Vec<u8> = Vec::new();
        push_xored(&mut inner, &self.key_block, 0x36);
        inner.extend_from_slice(self.buf.as_slice());
        proof {
            assert(inner@ =~= xor_all(self.key_block@, 0x36) + self.buf@);
        }
        let inner_digest = sha512_digest(inner.as_slice());
        let mut outer: Vec<u8> = Vec::new();
        push_xored(&mut outer, &self.key_block, 0x5c);
        outer.extend_from_slice(inner_digest.as_slice());
        proof {
            assert(outer@ =~= xor_all(self.key_block@, 0x5c) + inner_digest@);
        }
        sha512_digest(outer.as_slice())
    }

    /// Write the tag into a 64-byte buffer.
    pub fn finish_into(&mut self, md: &mut Vec<u8>)
        requires
            old(md)@.len() == HMAC_SHA512_SIZE,
        ensures
            final(md)@ == hmac_sha512_from_block(old(self).spec_key_block(), old(self).processed()),
            *final(self) == *old(self),
    {
        let r = self.finish();
        let mut i: usize = 0;
        while i < HMAC_SHA512_SIZE
            invariant
                i <= HMAC_SHA512_SIZE,
                md@.len() == HMAC_SHA512_SIZE,
                r@.len() == HMAC_SHA512_SIZE,
                forall|j: int| 0 <= j < i ==> md@[j] == r@[j],
            decreases HMAC_SHA512_SIZE - i,
        {
            md[i] = r[i];
            i = i + 1;
        }
        proof {
            assert(md@ =~= r@);
        }
    }
}

/// A streaming HMAC-SHA-384: the key block is prepared at construction, the
/// message is buffered and the tag computed at `finish`.
pub struct HMACSHA384 {
    key_block: Vec<u8>,
    buf: Vec<u8>,
}

impl HMACSHA384 {
    /// The prepared key block.
    pub closed spec fn spec_key_block(self) -> Seq<u8> {
        self.key_block@
    }

    /// The message bytes taken in so far.
    pub closed spec fn processed(self) -> Seq<u8> {
        self.buf@
    }

    pub fn new(key: &[u8]) -> (r: Self)
        ensures
            r.spec_key_block() == hmac_sha384_key_block(key@),
            r.processed() == Seq::<u8>::empty(),
    {
        HMACSHA384 { key_block: prepare_key_block_384(key), buf: Vec::new() }
    }

    /// Forget the message taken in so far; the key is kept.
    pub fn reset(&mut self)
        ensures
            final(self).spec_key_block() == old(self).spec_key_block(),
            final(self).processed() == Seq::<u8>::empty(),
    {
        self.buf.clear();
    }

    /// Take in more message bytes.
    pub fn update(&mut self, b: &[u8])
        ensures
            final(self).spec_key_block() == old(self).spec_key_block(),
            final(self).processed() == old(self).processed() + b@,
    {
        self.buf.extend_from_slice(b);
    }

    /// The tag over everything taken in; the state is left unchanged.
    pub fn finish(&mut self) -> (r: [u8; 48])
        ensures
            r@ == hmac_sha384_from_block(old(self).spec_key_block(), old(self).processed()),
            *final(self) == *old(self),
    {
        let mut inner: Vec<u8> = Vec::new();
        push_xored(&mut inner, &self.key_block, 0x36);
        inner.extend_from_slice(self.buf.as_slice());
        proof {
            assert(inner@ =~= xor_all(self.key_block@, 0x36) + self.buf@);
        }
        let inner_digest = sha384_digest(inner.as_slice());
        let mut outer: Vec<u8> = Vec::new();
        push_xored(&mut outer, &self.key_block, 0x5c);
        outer.extend_from_slice(inner_digest.as_slice());
        proof {
            assert(outer@ =~= xor_all(self.key_block@, 0x5c) + inner_digest@);
        }
        sha384_digest(outer.as_slice())
    }

    /// Write the tag into a 48-byte buffer.
    pub fn finish_into(&mut self, md: &mut Vec<u8>)
        requires
            old(md)@.len() == HMAC_SHA384_SIZE,
        ensures
            final(md)@ == hmac_sha384_from_block(old(self).spec_key_block(), old(self).processed()),
            *final(self) == *old(self),
    {
        let r = self.finish();
        let mut i: usize = 0;
        while i < HMAC_SHA384_SIZE
            invariant
                i <= HMAC_SHA384_SIZE,
                md@.len() == HMAC_SHA384_SIZE,
                r@.len() == HMAC_SHA384_SIZE,
                forall|j: int| 0 <= j < i ==> md@[j] == r@[j],
            decreases HMAC_SHA384_SIZE - i,
        {
            md[i] = r[i];
            i = i + 1;
        }
        proof {
            assert(md@ =~= r@);
        }
    }
}

/// One-shot HMAC-SHA-512.
pub fn hmac_sha512(key: &[u8], msg: &[u8]) -> (r: [u8; 64])
    ensures
        r@ == hmac_sha512_spec(key@, msg@),
{
    let mut hm = HMACSHA512::new(key);
    hm.update(msg);
    hm.finish()
}

/// One-shot HMAC-SHA-512 written into a 64-byte buffer.
pub fn hmac_sha512_into(key: &[u8], msg: &[u8], md: &mut Vec<u8>)
    requires
        old(md)@.len() == HMAC_SHA512_SIZE,
    ensures
        final(md)@ == hmac_sha512_spec(key@, msg@),
{
    let mut hm = HMACSHA512::new(key);
    hm.update(msg);
    hm.finish_into(md);
}

/// One-shot HMAC-SHA-384.
pub fn hmac_sha384(key: &[u8], msg: &[u8]) -> (r: [u8; 48])
    ensures
        r@ == hmac_sha384_spec(key@, msg@),
{
    let mut hm = HMACSHA384::new(key);
    hm.update(msg);
    hm.finish()
}

/// One-shot HMAC-SHA-384 written into a 48-byte buffer.
pub fn hmac_sha384_into(key: &[u8], msg: &[u8], md: &mut Vec<u8>)
    requires
        old(md)@.len() == HMAC_SHA384_SIZE,
    ensures
        final(md)@ == hmac_sha384_spec(key@, msg@),
{
    let mut hm = HMACSHA384::new(key);
    hm.update(msg);
    hm.finish_into(md);
}

} // verus!
