//! The Hamming [7,4] code on text: the coded bytes are written as decimal
//! numbers separated by spaces.
pub mod decoder;
pub mod encoder;
pub mod text;
