//! Bit vectors of the `bitvec` crate, as sequences of booleans.

use bitvec::order::Lsb0;
use bitvec::vec::BitVec;
use vstd::prelude::*;

use crate::ws::token::Token;

verus! {

/// A growable sequence of bits, held in a `BitVec<usize, Lsb0>`.
#[verifier::external_body]
#[derive(Debug, PartialEq, Eq)]
pub struct BitSeq {
    bits: BitVec<usize, Lsb0>,
}

/// The bits that a bit sequence holds, in index order.
pub uninterp spec fn bit_seq_bits(bits: BitSeq) -> Seq<bool>;

impl View for BitSeq {
    type V = Seq<bool>;

    open spec fn view(&self) -> Seq<bool> {
        bit_seq_bits(*self)
    }
}

/// The tokens that stand for a sequence of binary digits: `S` for zero and
/// `T` for one.
pub open spec fn bit_tokens(bits: Seq<bool>) -> Seq<Token> {
    bits.map_values(|b: bool| Token::from_bit_spec(b))
}

impl BitSeq {
    /// Calls `BitVec::new`. Trusted: the bit vector made holds no bits.
    #[verifier::external_body]
    pub(crate) fn new() -> (bits: BitSeq)
        ensures
            bit_seq_bits(bits) == Seq::<bool>::empty(),
    {
        BitSeq { bits: BitVec::new() }
    }

    /// Calls `BitVec::push`. Trusted: the bit is added behind the bits held,
    /// which stay. A bit vector at its largest length, a register's largest
    /// number shifted right by three, panics on a push, and is left out.
    #[verifier::external_body]
    pub(crate) fn push(&mut self, bit: bool)
        requires
            bit_seq_bits(*old(self)).len() < usize::MAX / 8,
        ensures
            bit_seq_bits(*final(self)) == bit_seq_bits(*old(self)).push(bit),
    {
        self.bits.push(bit)
    }

    /// Calls `BitVec::len`. Trusted: the number returned is the number of
    /// bits held.
    #[verifier::external_body]
    pub(crate) fn len(&self) -> (n: usize)
        ensures
            n == bit_seq_bits(*self).len(),
    {
        self.bits.len()
    }

    /// Indexes the `BitVec`. Trusted: for an index below the length the value
    /// returned is the bit at that index. Indexing at or past the length
    /// panics, and is left out.
    #[verifier::external_body]
    pub(crate) fn get(&self, i: usize) -> (bit: bool)
        requires
            i < bit_seq_bits(*self).len(),
        ensures
            bit == bit_seq_bits(*self)[i as int],
    {
        self.bits[i]
    }

    /// The bit sequence that holds the given bits in their order.
    pub fn from_bools(bools: &[bool]) -> (bits: BitSeq)
        requires
            bools.len() <= usize::MAX / 8,
        ensures
            bits@ == bools@,
    {
        let mut bits = BitSeq::new();
        let mut i: usize = 0;
        while i < bools.len()
            invariant
                i <= bools.len() <= usize::MAX / 8,
                bits@ == bools@.take(i as int),
            decreases bools.len() - i,
        {
            bits.push(bools[i]);
            assert(bits@ =~= bools@.take(i + 1));
            i += 1;
        }
        assert(bools@.take(i as int) =~= bools@);
        bits
    }

    /// The bits held, in their order.
    pub fn to_bools(&self) -> (bools: Vec<bool>)
        ensures
            bools@ == self@,
    {
        let n = self.len();
        let mut bools: Vec<bool> = Vec::new();
        let mut i: usize = 0;
        while i < n
            invariant
                i <= n == self@.len(),
                bools@ == self@.take(i as int),
            decreases n - i,
        {
            bools.push(self.get(i));
            assert(bools@ =~= self@.take(i + 1));
            i += 1;
        }
        assert(self@.take(n as int) =~= self@);
        bools
    }
}

} // verus!
