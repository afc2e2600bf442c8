use vl1_core::hash::{
    hmac_sha384, hmac_sha384_into, hmac_sha512, hmac_sha512_into, HMACSHA384, HMACSHA512, SHA384,
    SHA512,
};

fn hex(b: &[u8]) -> String {
    let mut s = String::new();
    for x in b {
        s.push_str(&format!("{:02x}", x));
    }
    s
}

#[test]
fn sha512_known_vectors() {
    assert_eq!(
        hex(&SHA512::hash(b"")),
        "cf83e1357eefb8bdf1542850d66d8007d620e4050b5715dc83f4a921d36ce9ce\
         47d0d13c5d85f2b0ff8318d2877eec2f63b931bd47417a81a538327af927da3e"
            .replace(' ', "")
    );
    assert_eq!(
        hex(&SHA512::hash(b"abc")),
        "ddaf35a193617abacc417349ae20413112e6fa4e89a97ea20a9eeee64b55d39a\
         2192992a274fc1a836ba3c23a3feebbd454d4423643ce80e2a9ac94fa54ca49f"
            .replace(' ', "")
    );
}

#[test]
fn sha384_known_vector() {
    assert_eq!(
        hex(&SHA384::hash(b"abc")),
        "cb00753f45a35e8bb5a03d699ac65007272c32ab0eded1631a8b605a43ff5bed8086072ba1e7cc2358baeca134c825a7"
    );
}

#[test]
fn sha512_streaming_matches_one_shot() {
    let mut h = SHA512::new();
    h.update(b"Hello, ");
    h.update(b"world");
    assert_eq!(h.finish(), SHA512::hash(b"Hello, world"));
    h.reset();
    h.update(b"abc");
    assert_eq!(h.finish(), SHA512::hash(b"abc"));
}

#[test]
fn sha384_streaming_matches_one_shot() {
    let mut h = SHA384::new();
    h.update(b"ab");
    h.update(b"c");
    assert_eq!(h.finish(), SHA384::hash(b"abc"));
}

#[test]
fn hmac_sha512_rfc_vector() {
    // RFC 4231, test case 1
    let key = [0x0bu8; 20];
    let tag = hmac_sha512(&key, b"Hi There");
    assert_eq!(
        hex(&tag),
        "87aa7cdea5ef619d4ff0b4241a1d6cb02379f4e2ce4ec2787ad0b30545e17cde\
         daa833b7d6b8a702038b274eaea3f4e4be9d914eeb61f1702e696c203a126854"
            .replace(' ', "")
    );
}

#[test]
fn hmac_sha384_rfc_vector() {
    // RFC 4231, test case 2 (short key "Jefe")
    let tag = hmac_sha384(b"Jefe", b"what do ya want for nothing?");
    assert_eq!(
        hex(&tag),
        "af45d2e376484031617f78d2b58a6b1b9c7ef464f5a01b47e42ec3736322445e8e2240ca5e69e2c78b3239ecfab21649"
    );
}

#[test]
fn hmac_streaming_matches_one_shot() {
    let mut hm = HMACSHA512::new(b"key");
    hm.update(b"The quick brown fox ");
    hm.update(b"jumps over the lazy dog");
    let t1 = hm.finish();
    let t2 = hmac_sha512(b"key", b"The quick brown fox jumps over the lazy dog");
    assert_eq!(t1, t2);

    let mut hm = HMACSHA384::new(b"key");
    hm.update(b"abc");
    let t1 = hm.finish();
    assert_eq!(t1, hmac_sha384(b"key", b"abc"));
}

#[test]
fn hmac_reset_keeps_the_key() {
    let mut hm = HMACSHA512::new(b"key");
    hm.update(b"junk to forget");
    hm.reset();
    hm.update(b"abc");
    assert_eq!(hm.finish(), hmac_sha512(b"key", b"abc"));
}

#[test]
fn hmac_long_key_is_hashed_first() {
    // a key longer than the 128-byte block goes through the digest first;
    // it must agree with using that digest directly as the key
    let long_key = [0xaau8; 200];
    let digest = SHA512::hash(&long_key);
    assert_eq!(
        hmac_sha512(&long_key, b"message"),
        hmac_sha512(&digest, b"message"),
    );
    let digest384 = SHA384::hash(&long_key);
    assert_eq!(
        hmac_sha384(&long_key, b"message"),
        hmac_sha384(&digest384, b"message"),
    );
}

#[test]
fn hmac_into_matches_return_form() {
    let mut out = vec![0u8; 64];
    hmac_sha512_into(b"key", b"msg", &mut out);
    assert_eq!(out.as_slice(), &hmac_sha512(b"key", b"msg")[..]);

    let mut out = vec![0u8; 48];
    hmac_sha384_into(b"key", b"msg", &mut out);
    assert_eq!(out.as_slice(), &hmac_sha384(b"key", b"msg")[..]);
}
