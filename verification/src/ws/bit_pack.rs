//! The packed binary form of a token sequence.
//!
//! Every token takes two bits: `S` is 00, `T` is 01 and `L` is 10. Four
//! tokens fill a byte, the first in the two highest bits. The slots that are
//! left in the last byte hold 11, which is no token: a reader stops at the
//! first 11 or at the end of the bytes.

use vstd::prelude::*;

use crate::ws::token::Token;

verus! {

/// The two-bit pattern that fills the unused slots of the last byte.
pub const PADDING: u8 = 3;

/// The code in slot `i` of the packed form of `toks`: the token's code, or
/// the padding behind the last token.
pub open spec fn slot_code(toks: Seq<Token>, i: int) -> int {
    if 0 <= i < toks.len() {
        toks[i].code_spec() as int
    } else {
        3
    }
}

/// Byte `k` of the packed form of `toks`.
pub open spec fn packed_byte(toks: Seq<Token>, k: int) -> int {
    slot_code(toks, 4 * k) * 64 + slot_code(toks, 4 * k + 1) * 16 + slot_code(toks, 4 * k + 2) * 4
        + slot_code(toks, 4 * k + 3)
}

/// The packed form of `toks`: one byte for every four tokens, rounded up.
pub open spec fn pack_spec(toks: Seq<Token>) -> Seq<u8> {
    Seq::new(((toks.len() + 3) / 4) as nat, |k: int| packed_byte(toks, k) as u8)
}

/// The two-bit code in slot `j` of a byte, slot 0 being the two highest bits.
pub open spec fn byte_code(b: u8, j: int) -> int {
    if j == 0 {
        b as int / 64
    } else if j == 1 {
        (b as int / 16) % 4
    } else if j == 2 {
        (b as int / 4) % 4
    } else {
        b as int % 4
    }
}

/// The two-bit code in slot `i` of a sequence of bytes.
pub open spec fn stream_code(bytes: Seq<u8>, i: int) -> int {
    byte_code(bytes[i / 4], i % 4)
}

/// The tokens read from slot `i` on, up to the first padding code or the end
/// of the bytes.
pub open spec fn unpack_from(bytes: Seq<u8>, i: int) -> Seq<Token>
    decreases 4 * bytes.len() - i,
{
    if i < 0 || i >= 4 * bytes.len() || stream_code(bytes, i) == 3 {
        Seq::empty()
    } else {
        seq![Token::from_code_spec(stream_code(bytes, i) as u64)] + unpack_from(bytes, i + 1)
    }
}

/// The tokens that a sequence of bytes holds.
pub open spec fn unpack_spec(bytes: Seq<u8>) -> Seq<Token> {
    unpack_from(bytes, 0)
}

/// The slot codes of a packed form are the codes of the tokens, then padding.
pub proof fn lemma_packed_codes(toks: Seq<Token>, i: int)
    requires
        0 <= i < 4 * pack_spec(toks).len(),
    ensures
        stream_code(pack_spec(toks), i) == slot_code(toks, i),
{
    let k = i / 4;
    let b = packed_byte(toks, k);
    assert(0 <= slot_code(toks, 4 * k) <= 3);
    assert(0 <= slot_code(toks, 4 * k + 1) <= 3);
    assert(0 <= slot_code(toks, 4 * k + 2) <= 3);
    assert(0 <= slot_code(toks, 4 * k + 3) <= 3);
    assert(0 <= b <= 255);
    assert(pack_spec(toks)[k] == b as u8);
}

proof fn lemma_unpack_packed_from(toks: Seq<Token>, i: int)
    requires
        0 <= i <= toks.len(),
    ensures
        unpack_from(pack_spec(toks), i) == toks.subrange(i, toks.len() as int),
    decreases toks.len() - i,
{
    let bytes = pack_spec(toks);
    if i < 4 * bytes.len() {
        lemma_packed_codes(toks, i);
    }
    if i < toks.len() {
        lemma_unpack_packed_from(toks, i + 1);
        toks[i].lemma_code_round_trip();
        assert(seq![toks[i]] + toks.subrange(i + 1, toks.len() as int) =~= toks.subrange(
            i,
            toks.len() as int,
        ));
    } else {
        assert(toks.subrange(i, toks.len() as int) =~= Seq::<Token>::empty());
    }
}

/// Unpacking the packed form of any token sequence gives the sequence back.
pub proof fn lemma_unpack_pack(toks: Seq<Token>)
    ensures
        unpack_spec(pack_spec(toks)) == toks,
{
    lemma_unpack_packed_from(toks, 0);
    assert(toks.subrange(0, toks.len() as int) =~= toks);
}

fn code_or_padding(toks: &[Token], i: usize) -> (c: u8)
    ensures
        c == slot_code(toks@, i as int),
        c <= 3,
{
    if i < toks.len() {
        match toks[i] {
            Token::S => 0,
            Token::T => 1,
            Token::L => 2,
        }
    } else {
        PADDING
    }
}

/// Packs tokens into bytes, four to a byte, the last byte padded.
pub fn bit_pack_padded(toks: &[Token]) -> (bytes: Vec<u8>)
    ensures
        bytes@ == pack_spec(toks@),
{
    let n = toks.len();
    let count: usize = n / 4 + (if n % 4 == 0 {
        0
    } else {
        1
    });
    let mut bytes: Vec<u8> = Vec::with_capacity(count);
    let mut k: usize = 0;
    while k < count
        invariant
            n == toks.len(),
            count == (n + 3) / 4,
            k <= count,
            bytes@.len() == k,
            forall|j: int| 0 <= j < k ==> #[trigger] bytes@[j] == packed_byte(toks@, j) as u8,
        decreases count - k,
    {
        let i = 4 * k;
        let c0 = code_or_padding(toks, i);
        let c1 = code_or_padding(toks, i + 1);
        let c2 = code_or_padding(toks, i + 2);
        let c3 = code_or_padding(toks, i + 3);
        bytes.push(c0 * 64 + c1 * 16 + c2 * 4 + c3);
        k += 1;
    }
    assert(bytes@ =~= pack_spec(toks@));
    bytes
}

/// Reads tokens from packed bytes up to the first padding code or the end.
pub fn bit_unpack_padded(bytes: &[u8]) -> (toks: Vec<Token>)
    ensures
        toks@ == unpack_spec(bytes@),
{
    let mut toks: Vec<Token> = Vec::new();
    let mut k: usize = 0;
    assert(Seq::<Token>::empty() + unpack_from(bytes@, 0) =~= unpack_spec(bytes@));
    while k < bytes.len()
        invariant
            k <= bytes.len(),
            toks@ + unpack_from(bytes@, 4 * k) == unpack_spec(bytes@),
        decreases bytes.len() - k,
    {
        let b = bytes[k];
        let mut j: usize = 0;
        while j < 4
            invariant
                k < bytes.len(),
                b == bytes@[k as int],
                j <= 4,
                toks@ + unpack_from(bytes@, 4 * k + j) == unpack_spec(bytes@),
            decreases 4 - j,
        {
            let c: u8 = if j == 0 {
                b / 64
            } else if j == 1 {
                (b / 16) % 4
            } else if j == 2 {
                (b / 4) % 4
            } else {
                b % 4
            };
            assert(c == stream_code(bytes@, 4 * k + j));
            if c == PADDING {
                assert(toks@ + Seq::<Token>::empty() =~= toks@);
                return toks;
            }
            let ghost before = toks@;
            let tok = Token::from_code(c as u64);
            toks.push(tok);
            assert(toks@ + unpack_from(bytes@, 4 * k + j + 1) =~= before + unpack_from(
                bytes@,
                4 * k + j,
            ));
            j += 1;
        }
        k += 1;
    }
    assert(toks@ + Seq::<Token>::empty() =~= toks@);
    toks
}

} // verus!
