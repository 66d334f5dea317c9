//! Error kinds reported by transaction building and verification.

use vstd::prelude::*;

verus! {

/// Why building or verifying a transaction failed.
#[derive(Clone, Debug)]
pub enum SimplesError {
    /// A transfer's source account has no corresponding detached signature.
    /// Carries the raw public key of that account.
    MissingSignature(Vec<u8>),
    /// A signature is present but does not validate against the commitment
    /// bytes. Carries the raw public key of the offending account.
    InvalidSignature(Vec<u8>),
    /// A key or signature byte string has a malformed length.
    KeyDecodeError,
}

pub type SimplesResult<T> = Result<T, SimplesError>;

/// Ghost image of `SimplesError`: the same kinds, over plain byte sequences.
pub enum SimplesErrorV {
    MissingSignature(Seq<u8>),
    InvalidSignature(Seq<u8>),
    KeyDecodeError,
}

impl View for SimplesError {
    type V = SimplesErrorV;

    open spec fn view(&self) -> SimplesErrorV {
        match self {
            SimplesError::MissingSignature(pk) => SimplesErrorV::MissingSignature(pk@),
            SimplesError::InvalidSignature(pk) => SimplesErrorV::InvalidSignature(pk@),
            SimplesError::KeyDecodeError => SimplesErrorV::KeyDecodeError,
        }
    }
}

/// The ghost image of a whole result: `Ok` kept, the error replaced by its view.
pub open spec fn result_v<T>(r: Result<T, SimplesError>) -> Result<T, SimplesErrorV> {
    match r {
        Ok(v) => Ok(v),
        Err(e) => Err(e@),
    }
}

} // verus!
