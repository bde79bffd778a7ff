//! An on-chain escrow with a quorum-authorized control plane.
//!
//! External parties deposit funds earmarked for a job and withdraw what they
//! deposited; a fixed set of validators jointly authorizes privileged state
//! transitions - including replacing the validator set itself - by signing
//! an opaque payload. The core of the crate is verified: the quorum
//! gatekeeper in `validation`, the replay guard and pipeline in `contract`,
//! and the dual-indexed balance ledger in `ledger` all carry contracts that
//! pin down their behaviour. Only the two calls into outside cryptography -
//! hashing and curve-signature verification in `crypto` - are trusted.

pub mod bytesord;
pub mod contract;
pub mod crypto;
pub mod error;
pub mod ledger;
pub mod msg;
pub mod registry;
pub mod seqsum;
pub mod validation;
