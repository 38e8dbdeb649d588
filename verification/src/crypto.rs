//! Cryptographic primitives, used through trusted declarations: SHA-3-256
//! digests, Ed25519 detached signatures, hex encoding of digests, and the
//! canonical serialization of public keys. Keys and signatures travel as
//! plain byte vectors.

use vstd::prelude::*;
use sha3::Digest;
use crate::codec::enc_bytes;

verus! {

/// Number of bytes in a public signing key.
pub const PUBLIC_KEY_LEN: usize = 32;

/// Number of bytes in a secret signing key.
pub const SECRET_KEY_LEN: usize = 64;

/// Number of bytes in a detached signature.
pub const SIGNATURE_LEN: usize = 64;

/// The SHA-3-256 digest of a byte sequence; 32 bytes, fixed by the input alone.
pub uninterp spec fn sha3_256_of(m: Seq<u8>) -> Seq<u8>;

/// The Ed25519 detached signature of a message under a secret key; Ed25519
/// signing is deterministic, so the result is fixed by the two arguments.
pub uninterp spec fn signature_of(m: Seq<u8>, sk: Seq<u8>) -> Seq<u8>;

/// Whether a detached signature verifies for a message under a public key.
pub uninterp spec fn signature_valid(sig: Seq<u8>, m: Seq<u8>, pk: Seq<u8>) -> bool;

/// The lowercase hex digit for a value below sixteen.
pub open spec fn hex_digit(n: u8) -> char
    recommends
        n < 16,
{
    if n == 0 {
        '0'
    } else if n == 1 {
        '1'
    } else if n == 2 {
        '2'
    } else if n == 3 {
        '3'
    } else if n == 4 {
        '4'
    } else if n == 5 {
        '5'
    } else if n == 6 {
        '6'
    } else if n == 7 {
        '7'
    } else if n == 8 {
        '8'
    } else if n == 9 {
        '9'
    } else if n == 10 {
        'a'
    } else if n == 11 {
        'b'
    } else if n == 12 {
        'c'
    } else if n == 13 {
        'd'
    } else if n == 14 {
        'e'
    } else {
        'f'
    }
}

/// Lowercase hex encoding of a byte sequence: two digits per byte, high
/// nibble first.
pub open spec fn hex_of(b: Seq<u8>) -> Seq<char>
    decreases b.len(),
{
    if b.len() == 0 {
        Seq::empty()
    } else {
        seq![hex_digit(b[0] / 16), hex_digit(b[0] % 16)] + hex_of(b.drop_first())
    }
}

/// The hex encoding is twice as long as its input.
pub proof fn lemma_hex_of_len(b: Seq<u8>)
    ensures
        hex_of(b).len() == 2 * b.len(),
    decreases b.len(),
{
    if b.len() > 0 {
        lemma_hex_of_len(b.drop_first());
    }
}

/// Relies on `sha3::Sha3_256::digest`: the SHA-3-256 digest, 32 bytes,
/// a function of the input bytes alone.
#[verifier::external_body]
pub fn sha3_256(m: &Vec<u8>) -> (r: Vec<u8>)
    ensures
        r@ == sha3_256_of(m@),
        r@.len() == 32,
{
    sha3::Sha3_256::digest(m.as_slice()).to_vec()
}

/// Relies on `hex::encode`: lowercase hex, two digits per byte, high nibble
/// first.
#[verifier::external_body]
pub fn hex_encode(b: &Vec<u8>) -> (r: String)
    ensures
        r@ == hex_of(b@),
{
    hex::encode(b.as_slice())
}

/// Relies on `sodiumoxide::crypto::sign::gen_keypair`: a fresh Ed25519
/// keypair; the result is random, so only the component lengths are stated.
#[verifier::external_body]
pub fn new_keypair() -> (r: (Vec<u8>, Vec<u8>))
    ensures
        r.0@.len() == PUBLIC_KEY_LEN,
        r.1@.len() == SECRET_KEY_LEN,
{
    let (pk, sk) = sodiumoxide::crypto::sign::gen_keypair();
    (pk.as_ref().to_vec(), sk.as_ref().to_vec())
}

/// Relies on `sodiumoxide::crypto::sign::sign_detached`: the Ed25519 detached
/// signature, 64 bytes, deterministic in the message and secret key.
#[verifier::external_body]
pub fn sign_message(m: &Vec<u8>, sk: &Vec<u8>) -> (r: Vec<u8>)
    requires
        sk@.len() == SECRET_KEY_LEN,
    ensures
        r@ == signature_of(m@, sk@),
        r@.len() == SIGNATURE_LEN,
{
    let key = sodiumoxide::crypto::sign::SecretKey::from_slice(sk.as_slice()).unwrap();
    let sig = sodiumoxide::crypto::sign::sign_detached(m.as_slice(), &key);
    sig.as_ref().to_vec()
}

/// Relies on `sodiumoxide::crypto::sign::verify_detached`: whether the
/// detached signature verifies for the message under the public key. Byte
/// strings that `Signature::from_bytes` rejects (a scalar half outside the
/// reduced range) are exactly ones libsodium itself refuses, so they do not
/// verify.
#[verifier::external_body]
pub fn verify_signature(sig: &Vec<u8>, m: &Vec<u8>, pk: &Vec<u8>) -> (r: bool)
    requires
        sig@.len() == SIGNATURE_LEN,
        pk@.len() == PUBLIC_KEY_LEN,
    ensures
        r == signature_valid(sig@, m@, pk@),
{
    let key = sodiumoxide::crypto::sign::PublicKey::from_slice(pk.as_slice()).unwrap();
    match sodiumoxide::crypto::sign::ed25519::Signature::from_bytes(sig.as_slice()) {
        Ok(signature) => {
            sodiumoxide::crypto::sign::verify_detached(&signature, m.as_slice(), &key)
        },
        Err(_) => false,
    }
}

/// Relies on `bincode::serialize` of `sodiumoxide::crypto::sign::PublicKey`:
/// the key serializes as its bytes behind a fixed-width little-endian `u64`
/// length, which is this crate's own length-prefixed framing.
#[verifier::external_body]
pub fn serialize_pub_key(pk: &Vec<u8>) -> (r: Vec<u8>)
    requires
        pk@.len() == PUBLIC_KEY_LEN,
    ensures
        r@ == enc_bytes(pk@),
{
    let key = sodiumoxide::crypto::sign::PublicKey::from_slice(pk.as_slice()).unwrap();
    bincode::serialize(&key).unwrap()
}

/// Relies on `String::from_utf8`: `Ok` exactly on valid UTF-8, returning the
/// string whose UTF-8 bytes are the input.
#[verifier::external_body]
pub fn string_from_utf8(v: Vec<u8>) -> (r: Option<String>)
    ensures
        match r {
            Some(s) => {
                &&& vstd::utf8::valid_utf8(v@)
                &&& s@ == vstd::utf8::decode_utf8(v@)
                &&& vstd::utf8::encode_utf8(s@) == v@
            },
            None => !vstd::utf8::valid_utf8(v@),
        },
{
    match String::from_utf8(v) {
        Ok(s) => Some(s),
        Err(_) => None,
    }
}

} // verus!
