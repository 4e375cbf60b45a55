//! Base64 codec: bytes to text over the standard 64-symbol alphabet with `=`
//! padding, and back, with the decoder's accumulator semantics stated exactly.

pub mod alphabet;
pub mod decode;
pub mod encode;
pub mod laws;

pub use decode::{base64_decode, DecodeError};
pub use encode::base64_encode;
