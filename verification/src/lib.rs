//! A single-error-correcting Hamming codec over byte buffers.
//!
//! The library encodes an arbitrary byte buffer into a self-describing
//! stream of fixed-size codewords, decodes such a stream back (optionally
//! correcting one flipped bit per codeword), and offers a fault injector
//! that flips exactly one bit inside every codeword of an encoded buffer.
//!
//! Decoding corrects at most one flipped bit per codeword; two or more
//! flips inside one codeword are silently mis-corrected, an inherent limit
//! of the code.

pub mod bits;
pub mod codec;
pub mod corruptor;
pub mod hamming;
pub mod laws;

pub use codec::decode;
pub use codec::encode;
pub use codec::encode_16_11;
pub use codec::encode_4_1;
pub use codec::encode_8_4;
pub use codec::HammingError;
pub use codec::HammingLevel;
pub use corruptor::corrupt;
pub use corruptor::corrupt_with_indices;
pub use hamming::og_index_to_new_index;
pub use hamming::parity_check;
pub use hamming::parity_check_u8;
