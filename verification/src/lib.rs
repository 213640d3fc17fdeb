//! Canonical encoding, Merkle roots and signature checks for attestation records.

pub mod attestation;
pub mod attestation_data;
pub mod bitfield;
pub mod codec;
pub mod merkle;
pub mod signature;

pub use attestation::Attestation;
pub use attestation_data::AttestationData;
pub use bitfield::Bitfield;
pub use codec::DecodeError;
pub use merkle::Hash256;
pub use signature::{AggregatePublicKey, AggregateSignature};
