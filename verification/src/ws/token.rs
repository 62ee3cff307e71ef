//! The token alphabet and the packed token vector.

use vstd::prelude::*;

pub mod token_vec;

pub use token_vec::TokenVec;

verus! {

/// One of the three symbols of the surface alphabet: space, tab, line feed.
#[derive(Clone, Copy, Debug, PartialEq, Eq, Structural, PartialOrd, Ord, Hash)]
pub enum Token {
    /// Space; the binary digit 0 inside an argument.
    S,
    /// Tab; the binary digit 1 inside an argument.
    T,
    /// Line feed; ends an argument.
    L,
}

impl Token {
    /// The two-bit code of a token: 0, 1 or 2. The code 3 belongs to no token.
    pub open spec fn code_spec(self) -> u64 {
        match self {
            Token::S => 0,
            Token::T => 1,
            Token::L => 2,
        }
    }

    /// The token of a two-bit code; total, with 3 read as a line feed.
    pub open spec fn from_code_spec(c: u64) -> Token {
        if c == 0 {
            Token::S
        } else if c == 1 {
            Token::T
        } else {
            Token::L
        }
    }

    /// The token that stands for a binary digit.
    pub open spec fn from_bit_spec(b: bool) -> Token {
        if b {
            Token::T
        } else {
            Token::S
        }
    }

    pub fn code(self) -> (c: u64)
        ensures
            c == self.code_spec(),
            c <= 2,
    {
        match self {
            Token::S => 0,
            Token::T => 1,
            Token::L => 2,
        }
    }

    pub fn from_code(c: u64) -> (tok: Token)
        requires
            c <= 2,
        ensures
            tok == Token::from_code_spec(c),
            tok.code_spec() == c,
    {
        if c == 0 {
            Token::S
        } else if c == 1 {
            Token::T
        } else {
            Token::L
        }
    }

    pub fn from_bit(b: bool) -> (tok: Token)
        ensures
            tok == Token::from_bit_spec(b),
    {
        if b {
            Token::T
        } else {
            Token::S
        }
    }

    /// Every token is the token of its own code.
    pub proof fn lemma_code_round_trip(self)
        ensures
            Token::from_code_spec(self.code_spec()) == self,
            self.code_spec() <= 2,
    {
    }
}

} // verus!
