//! Extended Hamming (SECDED) encoding of byte messages.
//!
//! A codeword is a bit sequence whose length is a power of two. Index 0
//! carries an overall even-parity bit over the rest of the block, every
//! power-of-two index carries a Hamming parity bit over its covering set,
//! and all remaining indices carry data bits. The crate builds two such
//! blocks: a fixed 16-bit header encoding a message's byte length, and a
//! variable-size payload encoding the message's bits.

pub mod bits;
pub mod codeword;
pub mod encode;
