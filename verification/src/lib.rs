//! A byte-stream pattern-matching engine with a streaming variant and a
//! mutation fuzzer, together with a small collection of verified utilities:
//! classical ciphers, a Feistel network, an FNV-style hash chain, hex
//! conversion, a Merkle tree over SHA-256, and an 802.11 management-frame
//! parser.
//!
//! The matcher locates every occurrence of a fixed, non-empty byte pattern
//! inside a payload using the Knuth–Morris–Pratt algorithm; the streaming
//! wrapper reports the same occurrences even when they span chunk boundaries.

pub mod classical;
pub mod fuzz;
pub mod hash;
pub mod kernel;
pub mod kmp;
pub mod merkle;
pub mod parse;
pub mod report;
pub mod stream;
pub mod symmetric;
pub mod utils;
