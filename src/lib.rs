//! Decoding of the data region of a QR symbol: a stream of mode-tagged
//! segments (numeric, alphanumeric, byte) read bit by bit from the
//! error-corrected codewords.

pub mod bits;
pub mod error;
pub mod segments;
pub mod decode;
pub mod laws;

pub use decode::data;
pub use error::DecodeError;
