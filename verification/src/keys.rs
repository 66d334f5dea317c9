//! Raw key material: byte strings of the fixed lengths that the ed25519
//! signature scheme uses. The library never interprets key bytes; it only
//! fixes their lengths and carries them into commitments and signatures.

use vstd::prelude::*;

use crate::error::{SimplesError, SimplesResult};

verus! {

/// Byte length of an ed25519 public key.
pub const PUBLIC_KEY_LEN: usize = 32;

/// Byte length of an ed25519 secret key.
pub const SECRET_KEY_LEN: usize = 64;

/// Byte length of a detached ed25519 signature.
pub const SIGNATURE_LEN: usize = 64;

/// A fresh copy of a byte string, with the same contents.
pub fn copy_bytes(v: &Vec<u8>) -> (r: Vec<u8>)
    ensures
        r@ == v@,
{
    let mut r: Vec<u8> = Vec::new();
    let mut i: usize = 0;
    while i < v.len()
        invariant
            i <= v@.len(),
            r@ == v@.subrange(0, i as int),
        decreases v@.len() - i,
    {
        r.push(v[i]);
        i = i + 1;
        assert(r@ =~= v@.subrange(0, i as int));
    }
    assert(r@ =~= v@);
    r
}

/// An account's public key, held as its canonical byte string.
#[derive(Clone, Debug)]
pub struct PublicKey {
    pub bytes: Vec<u8>,
}

impl View for PublicKey {
    type V = Seq<u8>;

    open spec fn view(&self) -> Seq<u8> {
        self.bytes@
    }
}

impl PublicKey {
    /// A public key is well formed when it has exactly the scheme's length.
    pub open spec fn wf(&self) -> bool {
        self@.len() == PUBLIC_KEY_LEN
    }

    /// Accepts exactly the byte strings of the public-key length.
    pub fn from_bytes(bytes: &Vec<u8>) -> (r: SimplesResult<PublicKey>)
        ensures
            bytes@.len() == PUBLIC_KEY_LEN ==> (r matches Ok(pk) && pk@ == bytes@ && pk.wf()),
            bytes@.len() != PUBLIC_KEY_LEN ==> (r matches Err(e) && e is KeyDecodeError),
    {
        if bytes.len() == PUBLIC_KEY_LEN {
            Ok(PublicKey { bytes: bytes.clone() })
        } else {
            Err(SimplesError::KeyDecodeError)
        }
    }
}

/// An account's secret key, held as its canonical byte string. Secret keys
/// are only ever consumed while building a transaction; no finished
/// `Transaction` retains one.
#[derive(Clone, Debug)]
pub struct SecretKey {
    pub bytes: Vec<u8>,
}

impl View for SecretKey {
    type V = Seq<u8>;

    open spec fn view(&self) -> Seq<u8> {
        self.bytes@
    }
}

impl SecretKey {
    /// A secret key is well formed when it has exactly the scheme's length.
    pub open spec fn wf(&self) -> bool {
        self@.len() == SECRET_KEY_LEN
    }

    /// Accepts exactly the byte strings of the secret-key length.
    pub fn from_bytes(bytes: &Vec<u8>) -> (r: SimplesResult<SecretKey>)
        ensures
            bytes@.len() == SECRET_KEY_LEN ==> (r matches Ok(sk) && sk@ == bytes@ && sk.wf()),
            bytes@.len() != SECRET_KEY_LEN ==> (r matches Err(e) && e is KeyDecodeError),
    {
        if bytes.len() == SECRET_KEY_LEN {
            Ok(SecretKey { bytes: bytes.clone() })
        } else {
            Err(SimplesError::KeyDecodeError)
        }
    }
}

} // verus!
