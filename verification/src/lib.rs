//! Quorum verification over a committed validator set.
//!
//! A run takes an encoded input record, checks that the claimed Merkle root
//! commits to the candidates' public keys, counts the candidates whose
//! signature over the common message verifies, and yields a public record
//! with that count. The hash and the signature check are supplied by the
//! embedding environment through the [`primitives::Primitives`] trait.
//!
//! - [`types`]: the records and the errors;
//! - [`codec`]: their byte encoding;
//! - [`primitives`]: the injected operations and their bindings;
//! - [`crypto`]: the binding of the primitives and the Merkle commitment;
//! - [`guest`]: the run itself;
//! - [`hexfmt`], [`signers`], [`host`]: what the orchestrator needs to build
//!   the input of a run.

pub mod codec;
pub mod crypto;
pub mod guest;
pub mod hexfmt;
pub mod host;
pub mod primitives;
pub mod signers;
pub mod types;
