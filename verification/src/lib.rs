//! A verified core for a small archiving tool.
//!
//! The crate has two parts: a textual archive format (an encoder that
//! renders a named byte payload as a block of marker-delimited lines, and
//! a decoder that scans such lines and recovers the first payload stored
//! under a requested name), and the pure computations behind an ICMP echo
//! probe (the one's-complement checksum and the echo-request packet).
//! All file and socket I/O lives outside this crate; every function here
//! is a total computation over byte sequences, specified and verified.

pub mod encode;
pub mod extract;
pub mod format;
pub mod icmp;
pub mod laws;
