//! Reversible, salt-dependent encoding of sequences of unsigned integers
//! into short opaque strings, and the matching decoder.
//!
//! A `HashIds` configuration is built once from a salt, an optional custom
//! alphabet and a minimum output length; encoding and decoding are pure
//! functions of the configuration and the input.  The scheme obfuscates, it
//! does not encrypt: its value lies in round-trip correctness, determinism
//! and resistance to accidental cross-salt decoding.

pub mod codec;
pub mod config;
pub mod hex;
pub mod laws;
pub mod shuffle;
mod text;

pub use codec::DecodeError;
pub use config::BuildError;
pub use config::HashIds;
pub use config::HashIdsBuilder;
