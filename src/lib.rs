//! Content-defined chunking with a Rabin rolling fingerprint.
//!
//! `poly` holds the GF(2) polynomial arithmetic as spec functions together
//! with the lemmas about it, `table` builds the two reduction tables from a
//! polynomial, and `chunker` is the streaming engine that cuts a byte stream
//! into chunks, with a model of its session as spec values. `laws` proves
//! what holds of the chunks of every stream, and `rolling` that the digest
//! is the fingerprint of the window's bytes alone.
use vstd::prelude::*;

pub mod poly;
pub mod table;
pub mod chunker;
pub mod laws;
pub mod rolling;

verus! {

/// The irreducible polynomial of degree 53 over GF(2) (bit i is the
/// coefficient of x^i).
pub const POLYNOMIAL: u64 = 0x3DA3358B4DC173;

/// Degree of `POLYNOMIAL`.
pub const POLYNOMIAL_DEGREE: u64 = 53;

/// Width of the sliding window, in bytes.
pub const WINSIZE: usize = 64;

/// Number of low digest bits that must be zero for a content-defined cut;
/// the expected chunk size is 2^AVERAGE_BITS bytes.
pub const AVERAGE_BITS: u64 = 20;

/// Smallest length of a chunk cut by content.
pub const MINSIZE: usize = 524288;

/// Largest length of a chunk; a chunk this long is cut regardless of content.
pub const MAXSIZE: usize = 8388608;

/// Mask of the low `AVERAGE_BITS` bits of the digest.
pub const MASK: u64 = 0xFFFFF;

/// Shift that brings the top byte of a reduced digest down to bits 0..8.
pub const POLSHIFT: u64 = 45;

} // verus!
