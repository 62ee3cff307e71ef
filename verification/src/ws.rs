//! The three-symbol language: tokens, their encodings and the decoder.

pub mod bit_pack;
pub mod bits;
pub mod inst;
pub mod lex;
pub mod parse;
pub mod token;
