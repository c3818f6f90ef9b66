//! Splits a text stream into size-bounded chunks that break only at line
//! boundaries, and compresses each chunk independently.
//!
//! The chunker accumulates bytes fed in buffer-sized blocks, locates line
//! boundaries in the decoded text, and as soon as the accumulated bytes reach
//! the configured threshold cuts the smallest boundary-ending prefix that is
//! at least the threshold. Concatenating the emitted chunks in index order
//! reproduces the input byte-for-byte.

pub mod boundary;
pub mod chunker;
pub mod config;
pub mod driver;
pub mod emit;
