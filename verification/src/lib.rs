//! A set of bytes stored as a 256-bit mask, with set operations, iteration
//! in increasing order and conversions to and from its byte encodings.
pub mod bits;
pub mod byteset;
pub mod encoding;
pub mod iter;
pub mod laws;
mod ops;
mod trusted;

pub use byteset::ByteSet;
pub use iter::ByteSetIter;
