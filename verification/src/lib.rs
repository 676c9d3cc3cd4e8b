//! An identity-record protocol with an append-only log server.
//!
//! A record binds a public key (through its SHA-256 hash) to an expiration,
//! a sequence of claims (attested key material) and a sequence of anchors
//! (real-world identifiers), and carries an Ed25519 signature over the
//! record's canonical byte encoding. The log server verifies and stores
//! published records in arrival order and serves them back over a small
//! request protocol.

pub mod common;
pub mod crypto;
pub mod digits;
pub mod reid;
pub mod codec;
pub mod log;
pub mod wire;

pub use common::id_equal;
