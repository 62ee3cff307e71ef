//! Token-level front end for a three-symbol stack-machine language: a packed
//! small vector of tokens, a bit codec, lexers over several encodings and a
//! prefix-code instruction decoder.

pub mod bf;
pub mod ws;
