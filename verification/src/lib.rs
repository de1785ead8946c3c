//! A succinct, approximate index over a sorted sequence of `u64` keys.
//!
//! The index partitions the keys into linear pieces whose predictions stay
//! within a caller-supplied error bound, builds an optional second level over
//! the pieces' start keys, and answers queries with a small candidate range of
//! positions. An owned index can be serialized into a self-describing
//! little-endian byte buffer and read back, either by fully decoding it or by
//! interpreting the buffer in place through a read-only view.

pub mod codec;
pub mod pgm;
pub mod ratio;
