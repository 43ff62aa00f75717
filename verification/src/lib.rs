//! A minimal counter state container together with a checksummed,
//! human-readable address codec.
//!
//! The codec turns a 32-byte value plus a short lowercase tag into a
//! base-32 string guarded by a 30-bit polynomial checksum, and turns such
//! a string back into the tag and the 32 bytes, rejecting corrupted or
//! malformed input. The counter is a single owner-gated cell: anyone may
//! increment it, only the owner may reset it.

pub mod charset;
pub mod checksum;
pub mod codec;
pub mod contract;
pub mod groups;
pub mod msg;
pub mod state;
