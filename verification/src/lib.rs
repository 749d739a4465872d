//! Stateless, hardware-bound encryption: a container format with a
//! deterministic nonce, and a key derived from a K-of-N hardware fingerprint.

pub mod cipher;
pub mod text;
pub mod smbios;
pub mod order;
pub mod fingerprint;
pub mod sources;
pub mod outside;
