//! The external signature primitive: detached ed25519 signing and
//! verification, and keypair generation. Each call into the outside crate
//! stands behind one trusted wrapper; everything around the calls is
//! verified against the names `signature_of` and `signature_valid`.

use vstd::prelude::*;

use crate::keys::{PublicKey, SecretKey, PUBLIC_KEY_LEN, SIGNATURE_LEN};

verus! {

/// The detached ed25519 signature over `msg` by the secret key `sk`.
/// Ed25519 signing is deterministic, so the signature is a function of the
/// key and the message alone.
pub uninterp spec fn signature_of(sk: Seq<u8>, msg: Seq<u8>) -> Seq<u8>;

/// Whether `sig` is a valid detached ed25519 signature over `msg` under the
/// public key `pk`: a canonically encoded signature that the scheme's
/// verification equation accepts. A function of its three arguments alone.
pub uninterp spec fn signature_valid(pk: Seq<u8>, msg: Seq<u8>, sig: Seq<u8>) -> bool;

/// Relies on sodiumoxide's `crypto::sign::ed25519::sign_detached`, which
/// computes the deterministic detached ed25519 signature, always
/// `SIGNATURE_LEN` bytes long.
#[verifier::external_body]
pub(crate) fn sign(sk: &SecretKey, msg: &Vec<u8>) -> (r: Vec<u8>)
    requires
        sk.wf(),
    ensures
        r@ == signature_of(sk@, msg@),
        r@.len() == SIGNATURE_LEN,
{
    let key = sodiumoxide::crypto::sign::ed25519::SecretKey::from_slice(&sk.bytes).unwrap();
    let sig = sodiumoxide::crypto::sign::ed25519::sign_detached(&msg[..], &key);
    sig.to_bytes().to_vec()
}

/// Relies on `ed25519::Signature::from_bytes` and sodiumoxide's
/// `crypto::sign::ed25519::verify_detached`. `from_bytes` rejects exactly
/// the byte strings that are no signature encoding at all — a wrong length,
/// or a visibly unreduced scalar, which libsodium's own verification
/// rejects as well — so the result is whether the scheme accepts `sig`
/// over `msg` under `pk`: a function of the three byte strings alone.
#[verifier::external_body]
pub(crate) fn verify(pk: &Vec<u8>, msg: &Vec<u8>, sig: &Vec<u8>) -> (r: bool)
    requires
        pk@.len() == PUBLIC_KEY_LEN,
    ensures
        r == signature_valid(pk@, msg@, sig@),
{
    let key = sodiumoxide::crypto::sign::ed25519::PublicKey::from_slice(&pk[..]).unwrap();
    match sodiumoxide::crypto::sign::ed25519::Signature::from_bytes(&sig[..]) {
        Ok(s) => sodiumoxide::crypto::sign::ed25519::verify_detached(&s, &msg[..], &key),
        Err(_) => false,
    }
}

/// Relies on sodiumoxide's `init` and `crypto::sign::ed25519::gen_keypair`:
/// a fresh random keypair of the fixed key lengths. Every outcome is "a
/// secret key and a corresponding public key", so whatever pair comes out,
/// the secret key's signature over any message verifies under the public
/// key.
#[verifier::external_body]
pub(crate) fn gen_keypair() -> (r: (PublicKey, SecretKey))
    ensures
        r.0.wf(),
        r.1.wf(),
        forall|m: Seq<u8>| #[trigger] signature_valid(r.0@, m, signature_of(r.1@, m)),
{
    let _ = sodiumoxide::init();
    let (pk, sk) = sodiumoxide::crypto::sign::ed25519::gen_keypair();
    (PublicKey { bytes: pk.0.to_vec() }, SecretKey { bytes: sk.0.to_vec() })
}

} // verus!
