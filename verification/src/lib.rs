//! A minimal ledger core: transactions commit an ordered list of value
//! transfers (plus an optional bounty) and carry one detached ed25519
//! signature per distinct source account over the canonical byte encoding
//! of that commitment.

pub mod crypto;
pub mod encoding;
pub mod error;
pub mod keys;
pub mod tx;
pub mod wallet;
