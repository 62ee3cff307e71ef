//! A vector of at most 29 tokens packed into one 64-bit word.
//!
//! The low six bits hold the length. Above them each token takes two bits,
//! the first token lowest. Bits above the last token carry no meaning.

use vstd::prelude::*;
use vstd::string::StringExecFns;

use crate::ws::bits::{bit_tokens, BitSeq};
use crate::ws::token::Token;

verus! {

const LEN_BITS: u64 = 6;

const LEN_MASK: u64 = 0b11_1111;

/// The largest number of tokens that a `TokenVec` holds.
pub const CAPACITY: usize = 29;

#[derive(Clone, Copy, Debug)]
pub struct TokenVec(u64);

/// Bit offset of the token at index `i`.
spec fn shift_of(i: u64) -> u64 {
    (2 * i + 6) as u64
}

/// The two-bit code stored at index `i` of the word `w`.
spec fn code_at(w: u64, i: u64) -> u64 {
    (w >> shift_of(i)) & 3
}

/// The length field of the word `w`.
spec fn len_of(w: u64) -> u64 {
    w & LEN_MASK
}

proof fn lemma_len_bound(w: u64)
    by (bit_vector)
    ensures
        w & 0b11_1111 <= 63,
{
}

proof fn lemma_zero_word()
    by (bit_vector)
    ensures
        0u64 & 0b11_1111 == 0,
        0u64 >> 0u64 == 0,
{
}

proof fn lemma_set_len(w: u64, n: u64, j: u64)
    by (bit_vector)
    requires
        n <= 63,
        j < 29,
    ensures
        len_of((w & !LEN_MASK) | n) == n,
        code_at((w & !LEN_MASK) | n, j) == code_at(w, j),
{
}

proof fn lemma_set(w: u64, i: u64, c: u64, j: u64)
    by (bit_vector)
    requires
        i < 29,
        j < 29,
        c <= 3,
    ensures
        len_of(w & !(3u64 << shift_of(i)) | (c << shift_of(i))) == len_of(w),
        code_at(w & !(3u64 << shift_of(i)) | (c << shift_of(i)), i) == c,
        j != i ==> code_at(w & !(3u64 << shift_of(i)) | (c << shift_of(i)), j) == code_at(w, j),
{
}

proof fn lemma_push_front(w: u64, c: u64, j: u64)
    by (bit_vector)
    requires
        len_of(w) < 29,
        c <= 3,
        j < 28,
    ensures
        len_of(((w & !LEN_MASK) << 2) | (c << LEN_BITS) | ((w & LEN_MASK) + 1) as u64) == len_of(w)
            + 1,
        code_at(((w & !LEN_MASK) << 2) | (c << LEN_BITS) | ((w & LEN_MASK) + 1) as u64, 0) == c,
        code_at(
            ((w & !LEN_MASK) << 2) | (c << LEN_BITS) | ((w & LEN_MASK) + 1) as u64,
            (j + 1) as u64,
        ) == code_at(w, j),
{
}

proof fn lemma_shift_down(w: u64, j: u64)
    by (bit_vector)
    requires
        j < 28,
    ensures
        code_at(w >> 2, j) == code_at(w, (j + 1) as u64),
{
}

/// The two-bit code at index `k` of a word without a length field.
spec fn low_code(b: u64, k: u64) -> u64 {
    (b >> ((2 * k) as u64)) & 3
}

/// The word `b` holds exactly the codes of `s`, first lowest, and nothing above.
spec fn holds(b: u64, s: Seq<Token>) -> bool {
    &&& s.len() <= 29
    &&& b >> ((2 * s.len()) as u64) == 0
    &&& forall|k: int| 0 <= k < s.len() ==> #[trigger] low_code(b, k as u64) == s[k].code_spec()
}

proof fn lemma_bits_step(b: u64, i: u64, c: u64, k: u64)
    by (bit_vector)
    requires
        i < 29,
        k < i,
        c <= 2,
        b >> ((2 * i) as u64) == 0,
    ensures
        (b | (c << ((2 * i) as u64))) >> ((2 * (i + 1)) as u64) == 0,
        low_code(b | (c << ((2 * i) as u64)), i) == c,
        low_code(b | (c << ((2 * i) as u64)), k) == low_code(b, k),
{
}

proof fn lemma_bits_last(b: u64, i: u64, c: u64)
    by (bit_vector)
    requires
        i < 29,
        c <= 2,
        b >> ((2 * i) as u64) == 0,
    ensures
        (b | (c << ((2 * i) as u64))) >> ((2 * (i + 1)) as u64) == 0,
        low_code(b | (c << ((2 * i) as u64)), i) == c,
{
}

proof fn lemma_low_mask(s: u64)
    by (bit_vector)
    requires
        s < 64,
    ensures
        1u64 << s >= 1,
{
}

proof fn lemma_extend(w: u64, l: u64, mask: u64, m: u64, j: u64)
    by (bit_vector)
    requires
        l <= 28,
        m <= 29,
        j < l,
        mask == ((1u64 << shift_of(l)) - 1) as u64,
    ensures
        len_of((w & mask & !LEN_MASK) | m) == m,
        ((w & mask & !LEN_MASK) | m) >> shift_of(l) == 0,
        code_at((w & mask & !LEN_MASK) | m, j) == code_at(w, j),
{
}

proof fn lemma_extend_empty(w: u64, l: u64, mask: u64, m: u64)
    by (bit_vector)
    requires
        l <= 28,
        m <= 29,
        mask == ((1u64 << shift_of(l)) - 1) as u64,
    ensures
        len_of((w & mask & !LEN_MASK) | m) == m,
        ((w & mask & !LEN_MASK) | m) >> shift_of(l) == 0,
{
}

proof fn lemma_append_old(w: u64, b: u64, l: u64, j: u64)
    by (bit_vector)
    requires
        l <= 28,
        j < l,
    ensures
        len_of(w | (b << shift_of(l))) == len_of(w),
        code_at(w | (b << shift_of(l)), j) == code_at(w, j),
{
}

proof fn lemma_append_new(w: u64, b: u64, l: u64, k: u64)
    by (bit_vector)
    requires
        l <= 28,
        k < 29,
        l + k < 29,
        w >> shift_of(l) == 0,
    ensures
        len_of(w | (b << shift_of(l))) == len_of(w),
        code_at(w | (b << shift_of(l)), (l + k) as u64) == low_code(b, k),
{
}

proof fn lemma_extend_front_low(w: u64, n: u64, m: u64, b: u64, k: u64)
    by (bit_vector)
    requires
        n <= 29,
        m <= 29,
        k < n,
        b >> ((2 * n) as u64) == 0,
    ensures
        len_of(((w & !LEN_MASK) << ((2 * n) as u64)) | m | (b << LEN_BITS)) == m,
        code_at(((w & !LEN_MASK) << ((2 * n) as u64)) | m | (b << LEN_BITS), k) == low_code(b, k),
{
}

proof fn lemma_extend_front_high(w: u64, n: u64, m: u64, b: u64, j: u64)
    by (bit_vector)
    requires
        n <= 29,
        m <= 29,
        j < 29,
        j + n < 29,
        b >> ((2 * n) as u64) == 0,
    ensures
        len_of(((w & !LEN_MASK) << ((2 * n) as u64)) | m | (b << LEN_BITS)) == m,
        code_at(
            ((w & !LEN_MASK) << ((2 * n) as u64)) | m | (b << LEN_BITS),
            (j + n) as u64,
        ) == code_at(w, j),
{
}

proof fn lemma_payload_codes(o: u64, k: u64)
    by (bit_vector)
    requires
        k < 29,
    ensures
        low_code((o & !LEN_MASK) >> LEN_BITS, k) == code_at(o, k),
{
}

proof fn lemma_concat_shift(o: u64, l: u64)
    by (bit_vector)
    requires
        l <= 28,
    ensures
        (o & !LEN_MASK) << ((shift_of(l) - LEN_BITS) as u64) == ((o & !LEN_MASK) >> LEN_BITS)
            << shift_of(l),
{
}

/// The word `w` with everything above its first `l` slots shifted out.
spec fn norm(w: u64, l: u64) -> u64 {
    w << ((58 - 2 * l) as u64)
}

proof fn lemma_norm_base(a: u64, b: u64)
    by (bit_vector)
    ensures
        len_of(a) == len_of(b) <==> norm(a, 0) == norm(b, 0),
{
}

proof fn lemma_norm_step(a: u64, b: u64, k: u64)
    by (bit_vector)
    requires
        k < 29,
    ensures
        norm(a, (k + 1) as u64) == norm(b, (k + 1) as u64) <==> (norm(a, k) == norm(b, k)
            && code_at(a, k) == code_at(b, k)),
{
}

proof fn lemma_front_len(w: u64, n: u64, m: u64, b: u64)
    by (bit_vector)
    requires
        n <= 29,
        m <= 29,
    ensures
        len_of(((w & !LEN_MASK) << ((2 * n) as u64)) | m | (b << LEN_BITS)) == m,
{
}

/// The length that equality compares over: the length field, held to the capacity.
spec fn clamp_len(l: u64) -> u64 {
    if l > 29 {
        29
    } else {
        l
    }
}

/// What forward iteration collects from the tokens `s`: the first, then what
/// it collects from the rest.
pub open spec fn drained(s: Seq<Token>) -> Seq<Token>
    decreases s.len(),
{
    if s.len() == 0 {
        Seq::empty()
    } else {
        seq![s.first()] + drained(s.drop_first())
    }
}

/// What pushing the tokens of `s` at the back, first to last, builds from nothing.
pub open spec fn pushed_back(s: Seq<Token>) -> Seq<Token>
    decreases s.len(),
{
    if s.len() == 0 {
        Seq::empty()
    } else {
        pushed_back(s.drop_last()).push(s.last())
    }
}

/// What pushing the tokens of `s` at the front, last to first, builds from nothing.
pub open spec fn pushed_front(s: Seq<Token>) -> Seq<Token>
    decreases s.len(),
{
    if s.len() == 0 {
        Seq::empty()
    } else {
        seq![s.first()] + pushed_front(s.drop_first())
    }
}

/// Forward iteration to exhaustion yields the tokens held, in their order.
pub proof fn lemma_drained(s: Seq<Token>)
    ensures
        drained(s) == s,
    decreases s.len(),
{
    if s.len() > 0 {
        lemma_drained(s.drop_first());
        assert(seq![s.first()] + s.drop_first() =~= s);
    } else {
        assert(s =~= Seq::empty());
    }
}

/// Pushing a sequence at the front in reverse order builds the same tokens
/// as pushing it at the back in forward order: the sequence itself.
pub proof fn lemma_front_back_symmetry(s: Seq<Token>)
    ensures
        pushed_back(s) == s,
        pushed_front(s) == s,
        pushed_back(s) == pushed_front(s),
    decreases s.len(),
{
    if s.len() > 0 {
        lemma_front_back_symmetry(s.drop_first());
        lemma_front_back_symmetry(s.drop_last());
        assert(seq![s.first()] + s.drop_first() =~= s);
        assert(s.drop_last().push(s.last()) =~= s);
    } else {
        assert(s =~= Seq::empty());
    }
}

impl PartialEq for TokenVec {
    /// Compares the lengths and the occupied slots; the bits above them are
    /// shifted out first.
    fn eq(&self, other: &TokenVec) -> (r: bool) {
        proof {
            lemma_len_bound(self.0);
        }
        let n = self.0 & LEN_MASK;
        let m = other.0 & LEN_MASK;
        if n != m {
            false
        } else {
            let k: u64 = if n > 29 {
                29
            } else {
                n
            };
            let s: u64 = 58 - 2 * k;
            (self.0 << s) == (other.0 << s)
        }
    }
}

impl Eq for TokenVec {

}

impl vstd::std_specs::cmp::PartialEqSpecImpl for TokenVec {
    open spec fn obeys_eq_spec() -> bool {
        true
    }

    open spec fn eq_spec(&self, other: &TokenVec) -> bool {
        self.same_tokens(other)
    }
}

impl Default for TokenVec {
    fn default() -> (v: TokenVec)
        ensures
            v.wf(),
            v@ == Seq::<Token>::empty(),
    {
        TokenVec::new()
    }
}

/// The letter that a token is written with.
pub open spec fn symbol_char(tok: Token) -> char {
    match tok {
        Token::S => 'S',
        Token::T => 'T',
        Token::L => 'L',
    }
}

/// The letters of the tokens, first to last, with one space between two.
pub open spec fn rendered_items(toks: Seq<Token>) -> Seq<char>
    decreases toks.len(),
{
    if toks.len() == 0 {
        Seq::empty()
    } else if toks.len() == 1 {
        seq![symbol_char(toks[0])]
    } else {
        rendered_items(toks.drop_last()) + seq![' ', symbol_char(toks.last())]
    }
}

/// The rendering of a token vector: its items between square brackets.
pub open spec fn rendered(toks: Seq<Token>) -> Seq<char> {
    seq!['['] + rendered_items(toks) + seq![']']
}

impl View for TokenVec {
    type V = Seq<Token>;

    /// The tokens held, first to last.
    closed spec fn view(&self) -> Seq<Token> {
        Seq::new(len_of(self.0) as nat, |i: int| Token::from_code_spec(code_at(self.0, i as u64)))
    }
}

impl TokenVec {
    /// The length is within capacity and every occupied slot holds the code of
    /// a token.
    pub closed spec fn wf(&self) -> bool {
        &&& len_of(self.0) <= 29
        &&& forall|i: int| 0 <= i < len_of(self.0) ==> #[trigger] code_at(self.0, i as u64) <= 2
    }

    /// What `wf` gives to callers: the vector is never longer than its capacity.
    pub proof fn lemma_wf_len(&self)
        requires
            self.wf(),
        ensures
            self@.len() <= CAPACITY,
    {
    }

    /// The 64-bit word that holds the vector.
    pub closed spec fn word(&self) -> u64 {
        self.0
    }

    /// The layout of the word: the low six bits hold the length, and the two
    /// bits at offset `2 * i + 6` hold the code of the token at index `i`.
    /// What stands above the last token is left open.
    pub proof fn lemma_layout(&self)
        requires
            self.wf(),
        ensures
            self.word() & 0b11_1111 == self@.len(),
            forall|i: int|
                0 <= i < self@.len() ==> (self.word() >> ((2 * i + 6) as u64)) & 3
                    == (#[trigger] self@[i]).code_spec(),
    {
        assert forall|i: int| 0 <= i < self@.len() implies (self.word() >> ((2 * i + 6) as u64)) & 3
            == (#[trigger] self@[i]).code_spec() by {
            assert(code_at(self.0, i as u64) <= 2);
            assert(shift_of(i as u64) == (2 * i + 6) as u64);
        }
    }

    pub fn new() -> (v: TokenVec)
        ensures
            v.wf(),
            v@ == Seq::<Token>::empty(),
    {
        proof {
            lemma_zero_word();
        }
        let v = TokenVec(0);
        assert(v@ =~= Seq::<Token>::empty());
        v
    }

    pub fn len(&self) -> (n: usize)
        ensures
            n == self@.len(),
            self.wf() ==> n <= CAPACITY,
    {
        proof {
            lemma_len_bound(self.0);
        }
        (self.0 & LEN_MASK) as usize
    }

    pub fn capacity(&self) -> (n: usize)
        ensures
            n == CAPACITY,
    {
        29
    }

    pub fn is_empty(&self) -> (b: bool)
        ensures
            b == (self@.len() == 0),
    {
        self.len() == 0
    }

    fn shift_for(i: usize) -> (s: u64)
        requires
            i <= 29,
        ensures
            s == shift_of(i as u64),
            s == 2 * i + 6,
    {
        i as u64 * 2 + LEN_BITS
    }

    /// Overwrites the length field and leaves every slot as it is.
    fn set_len(&mut self, len: usize)
        requires
            len <= 29,
        ensures
            len_of(final(self).0) == len,
            forall|j: u64| j < 29 ==> #[trigger] code_at(final(self).0, j) == code_at(old(self).0, j),
    {
        proof {
            assert forall|j: u64| j < 29 implies #[trigger] code_at(
                (self.0 & !LEN_MASK) | len as u64,
                j,
            ) == code_at(self.0, j) by {
                lemma_set_len(self.0, len as u64, j);
            }
            lemma_set_len(self.0, len as u64, 0);
        }
        self.0 = (self.0 & !LEN_MASK) | len as u64;
    }

    /// The token at index `i`.
    pub fn get(&self, i: usize) -> (tok: Token)
        requires
            self.wf(),
            i < self@.len(),
        ensures
            tok == self@[i as int],
    {
        let c = (self.0 >> Self::shift_for(i)) & 0b11;
        assert(c == code_at(self.0, i as u64));
        Token::from_code(c)
    }

    /// Overwrites slot `i` and leaves the length and the other slots as they are.
    fn set_slot(&mut self, i: usize, tok: Token)
        requires
            i < 29,
        ensures
            len_of(final(self).0) == len_of(old(self).0),
            code_at(final(self).0, i as u64) == tok.code_spec(),
            forall|j: u64|
                j < 29 && j != i ==> #[trigger] code_at(final(self).0, j) == code_at(old(self).0, j),
    {
        let shift = Self::shift_for(i);
        let c = tok.code();
        proof {
            assert forall|j: u64| j < 29 && j != i implies #[trigger] code_at(
                self.0 & !(3u64 << shift) | (c << shift),
                j,
            ) == code_at(self.0, j) by {
                lemma_set(self.0, i as u64, c, j);
            }
            lemma_set(self.0, i as u64, c, 0);
        }
        self.0 = self.0 & !(0b11u64 << shift) | (c << shift);
    }

    /// Replaces the token at index `i`.
    pub fn set(&mut self, i: usize, tok: Token)
        requires
            old(self).wf(),
            i < old(self)@.len(),
        ensures
            final(self).wf(),
            final(self)@ == old(self)@.update(i as int, tok),
    {
        self.set_slot(i, tok);
        proof {
            tok.lemma_code_round_trip();
            assert forall|j: int| 0 <= j < len_of(self.0) implies #[trigger] code_at(
                self.0,
                j as u64,
            ) <= 2 by {
                if j != i {
                    assert(code_at(old(self).0, j as u64) <= 2);
                }
            }
            assert(self@ =~= old(self)@.update(i as int, tok));
        }
    }

    /// Appends a token at the back.
    pub fn push(&mut self, tok: Token)
        requires
            old(self).wf(),
            old(self)@.len() < CAPACITY,
        ensures
            final(self).wf(),
            final(self)@ == old(self)@.push(tok),
    {
        let len = self.len();
        self.set_len(len + 1);
        self.set_slot(len, tok);
        proof {
            tok.lemma_code_round_trip();
            assert forall|j: int| 0 <= j < len_of(self.0) implies #[trigger] code_at(
                self.0,
                j as u64,
            ) <= 2 by {
                if j != len {
                    assert(code_at(old(self).0, j as u64) <= 2);
                }
            }
            assert(self@ =~= old(self)@.push(tok));
        }
    }

    /// Removes the last token and returns it.
    pub fn pop(&mut self) -> (tok: Token)
        requires
            old(self).wf(),
            old(self)@.len() > 0,
        ensures
            final(self).wf(),
            final(self)@ == old(self)@.drop_last(),
            tok == old(self)@.last(),
    {
        let len = self.len() - 1;
        let tok = self.get(len);
        self.set_len(len);
        proof {
            assert forall|j: int| 0 <= j < len_of(self.0) implies #[trigger] code_at(
                self.0,
                j as u64,
            ) <= 2 by {
                assert(code_at(old(self).0, j as u64) <= 2);
            }
            assert(self@ =~= old(self)@.drop_last());
        }
        tok
    }

    /// Inserts a token before the first.
    pub fn push_front(&mut self, tok: Token)
        requires
            old(self).wf(),
            old(self)@.len() < CAPACITY,
        ensures
            final(self).wf(),
            final(self)@ == seq![tok] + old(self)@,
    {
        let c = tok.code();
        proof {
            lemma_len_bound(self.0);
        }
        let data = (self.0 & !LEN_MASK) << 2;
        let len = (self.0 & LEN_MASK) + 1;
        let ghost w = self.0;
        self.0 = data | (c << LEN_BITS) | len;
        proof {
            tok.lemma_code_round_trip();
            lemma_push_front(w, c, 0);
            assert forall|j: int| 0 <= j < len_of(self.0) implies #[trigger] code_at(
                self.0,
                j as u64,
            ) <= 2 && Token::from_code_spec(code_at(self.0, j as u64)) == (seq![tok] + old(
                self,
            )@)[j] by {
                if j > 0 {
                    lemma_push_front(w, c, (j - 1) as u64);
                    assert(code_at(w, (j - 1) as u64) <= 2);
                }
            }
            assert(self@ =~= seq![tok] + old(self)@);
        }
    }

    /// Removes the first token and returns it.
    pub fn pop_front(&mut self) -> (tok: Token)
        requires
            old(self).wf(),
            old(self)@.len() > 0,
        ensures
            final(self).wf(),
            final(self)@ == old(self)@.drop_first(),
            tok == old(self)@.first(),
    {
        let tok = self.get(0);
        let len = self.len();
        let ghost w = self.0;
        self.0 = self.0 >> 2;
        self.set_len(len - 1);
        proof {
            assert forall|j: int| 0 <= j < len_of(self.0) implies #[trigger] code_at(
                self.0,
                j as u64,
            ) == code_at(w, (j + 1) as u64) by {
                lemma_shift_down(w, j as u64);
            }
            assert forall|j: int| 0 <= j < len_of(self.0) implies #[trigger] code_at(
                self.0,
                j as u64,
            ) <= 2 by {
                assert(code_at(w, (j + 1) as u64) <= 2);
            }
            assert(self@ =~= old(self)@.drop_first());
        }
        tok
    }
    /// Packs the codes of at most 29 tokens into the low bits of a word.
    fn bits(toks: &[Token]) -> (b: u64)
        requires
            toks.len() <= 29,
        ensures
            holds(b, toks@),
    {
        let mut bits: u64 = 0;
        let mut i: usize = 0;
        proof {
            lemma_zero_word();
        }
        while i < toks.len()
            invariant
                i <= toks.len() <= 29,
                holds(bits, toks@.take(i as int)),
            decreases toks.len() - i,
        {
            let c = toks[i].code();
            let ghost prev = bits;
            bits = bits | (c << (i as u64 * 2));
            proof {
                lemma_bits_last(prev, i as u64, c);
                assert forall|k: int| 0 <= k < i + 1 implies #[trigger] low_code(bits, k as u64)
                    == toks@.take(i + 1)[k].code_spec() by {
                    if k < i {
                        lemma_bits_step(prev, i as u64, c, k as u64);
                        assert(low_code(prev, k as u64) == toks@.take(i as int)[k].code_spec());
                    }
                }
            }
            i += 1;
        }
        assert(toks@.take(i as int) =~= toks@);
        bits
    }

    /// Makes room for `n` more tokens at the back: the length grows by `n`,
    /// the tokens held stay, and every bit above them is cleared.
    fn extend(&mut self, n: usize)
        requires
            n != 0,
            len_of(old(self).0) + n <= 29,
        ensures
            len_of(final(self).0) == len_of(old(self).0) + n,
            final(self).0 >> shift_of(len_of(old(self).0)) == 0,
            forall|j: u64|
                j < len_of(old(self).0) ==> #[trigger] code_at(final(self).0, j) == code_at(
                    old(self).0,
                    j,
                ),
    {
        let len = self.len();
        let shift = Self::shift_for(len);
        proof {
            lemma_low_mask(shift);
        }
        let mask = (1u64 << shift) - 1;
        let new_len = (len + n) as u64;
        proof {
            lemma_extend_empty(self.0, len as u64, mask, new_len);
            assert forall|j: u64| j < len_of(self.0) implies #[trigger] code_at(
                (self.0 & mask & !LEN_MASK) | new_len,
                j,
            ) == code_at(self.0, j) by {
                lemma_extend(self.0, len as u64, mask, new_len, j);
            }
        }
        self.0 = (self.0 & mask & !LEN_MASK) | new_len;
    }

    /// Makes room for `n` more tokens at the front: the length grows by `n`
    /// and the payload moves up by `n` slots, leaving zero bits below it.
    fn extend_front(&mut self, n: usize)
        requires
            len_of(old(self).0) + n <= 29,
        ensures
            final(self).0 == ((old(self).0 & !LEN_MASK) << ((2 * n) as u64)) | ((len_of(old(self).0)
                + n) as u64),
    {
        proof {
            lemma_len_bound(self.0);
        }
        let data = (self.0 & !LEN_MASK) << (n as u64 * 2);
        let len = (self.0 & LEN_MASK) + n as u64;
        self.0 = data | len;
    }

    /// Writes the low codes of `b` into the slots from `len` on, which
    /// `extend` has cleared.
    proof fn lemma_appended(w0: u64, w1: u64, b: u64, len: u64, added: Seq<Token>)
        requires
            TokenVec(w0).wf(),
            len == len_of(w0),
            added.len() > 0,
            len + added.len() <= 29,
            len_of(w1) == len + added.len(),
            w1 >> shift_of(len) == 0,
            forall|j: u64| j < len ==> #[trigger] code_at(w1, j) == code_at(w0, j),
            forall|k: int| 0 <= k < added.len() ==> #[trigger] low_code(b, k as u64) == added[k].code_spec(),
        ensures
            TokenVec(w1 | (b << shift_of(len))).wf(),
            TokenVec(w1 | (b << shift_of(len)))@ == TokenVec(w0)@ + added,
    {
        let w2 = w1 | (b << shift_of(len));
        let total = len + added.len();
        lemma_append_new(w1, b, len, 0);
        assert forall|i: int| 0 <= i < total implies #[trigger] code_at(w2, i as u64) <= 2
            && Token::from_code_spec(code_at(w2, i as u64)) == (TokenVec(w0)@ + added)[i] by {
            if i < len {
                lemma_append_old(w1, b, len, i as u64);
                assert(code_at(w1, i as u64) == code_at(w0, i as u64));
                assert(code_at(w0, i as u64) <= 2);
            } else {
                let k = i - len;
                lemma_append_new(w1, b, len, k as u64);
                assert(low_code(b, k as u64) == added[k].code_spec());
                added[k].lemma_code_round_trip();
            }
        }
        assert(TokenVec(w2)@ =~= TokenVec(w0)@ + added);
    }

    /// Appends the tokens of a slice at the back, in their order.
    pub fn append(&mut self, toks: &[Token])
        requires
            old(self).wf(),
            old(self)@.len() + toks.len() <= CAPACITY,
        ensures
            final(self).wf(),
            final(self)@ == old(self)@ + toks@,
    {
        if toks.len() == 0 {
            assert(old(self)@ + toks@ =~= old(self)@);
            return ;
        }
        let len = self.len();
        let shift = Self::shift_for(len);
        self.extend(toks.len());
        let b = Self::bits(toks);
        proof {
            Self::lemma_appended(old(self).0, self.0, b, len as u64, toks@);
        }
        self.0 = self.0 | (b << shift);
    }

    /// Appends the tokens of another vector at the back, in their order.
    pub fn concat(&mut self, other: &TokenVec)
        requires
            old(self).wf(),
            other.wf(),
            old(self)@.len() + other@.len() <= CAPACITY,
        ensures
            final(self).wf(),
            final(self)@ == old(self)@ + other@,
    {
        if other.is_empty() {
            assert(old(self)@ + other@ =~= old(self)@);
            return ;
        }
        let len = self.len();
        let shift = Self::shift_for(len);
        self.extend(other.len());
        proof {
            let b = (other.0 & !LEN_MASK) >> LEN_BITS;
            lemma_concat_shift(other.0, len as u64);
            assert forall|k: int| 0 <= k < other@.len() implies #[trigger] low_code(b, k as u64)
                == other@[k].code_spec() by {
                lemma_payload_codes(other.0, k as u64);
                assert(code_at(other.0, k as u64) <= 2);
            }
            Self::lemma_appended(old(self).0, self.0, b, len as u64, other@);
        }
        self.0 = self.0 | ((other.0 & !LEN_MASK) << (shift - LEN_BITS));
    }

    /// Inserts the tokens of a slice before the first token, in their order.
    pub fn append_front(&mut self, toks: &[Token])
        requires
            old(self).wf(),
            old(self)@.len() + toks.len() <= CAPACITY,
        ensures
            final(self).wf(),
            final(self)@ == toks@ + old(self)@,
    {
        let n = toks.len();
        let ghost w = self.0;
        let ghost m = (len_of(w) + n) as u64;
        self.extend_front(n);
        let b = Self::bits(toks);
        self.0 = self.0 | (b << LEN_BITS);
        proof {
            lemma_front_len(w, n as u64, m, b);
            assert forall|i: int| 0 <= i < m implies #[trigger] code_at(self.0, i as u64) <= 2
                && Token::from_code_spec(code_at(self.0, i as u64)) == (toks@ + old(self)@)[i] by {
                if i < n {
                    lemma_extend_front_low(w, n as u64, m, b, i as u64);
                    assert(low_code(b, i as u64) == toks@[i].code_spec());
                    toks@[i].lemma_code_round_trip();
                } else {
                    let j = i - n;
                    lemma_extend_front_high(w, n as u64, m, b, j as u64);
                    assert(code_at(w, j as u64) <= 2);
                }
            }
            assert(self@ =~= toks@ + old(self)@);
        }
    }
    /// A vector that holds the tokens of a slice of at most 29.
    pub fn from_slice(toks: &[Token]) -> (v: TokenVec)
        requires
            toks.len() <= CAPACITY,
        ensures
            v.wf(),
            v@ == toks@,
    {
        let mut v = TokenVec::new();
        v.append(toks);
        assert(Seq::<Token>::empty() + toks@ =~= toks@);
        v
    }

    /// `from_slice` for a slice of any length: `None` exactly when the slice
    /// is longer than the capacity.
    pub fn try_from_slice(toks: &[Token]) -> (r: Option<TokenVec>)
        ensures
            r.is_some() == (toks.len() <= CAPACITY),
            r.is_some() ==> r.unwrap().wf() && r.unwrap()@ == toks@,
    {
        if toks.len() <= CAPACITY {
            Some(TokenVec::from_slice(toks))
        } else {
            None
        }
    }

    /// `push` where there is room; a full vector is left as it is and `false`
    /// is returned.
    pub fn try_push(&mut self, tok: Token) -> (pushed: bool)
        requires
            old(self).wf(),
        ensures
            final(self).wf(),
            pushed == (old(self)@.len() < CAPACITY),
            pushed ==> final(self)@ == old(self)@.push(tok),
            !pushed ==> *final(self) == *old(self),
    {
        if self.len() < CAPACITY {
            self.push(tok);
            true
        } else {
            false
        }
    }

    /// `push_front` where there is room; a full vector is left as it is and
    /// `false` is returned.
    pub fn try_push_front(&mut self, tok: Token) -> (pushed: bool)
        requires
            old(self).wf(),
        ensures
            final(self).wf(),
            pushed == (old(self)@.len() < CAPACITY),
            pushed ==> final(self)@ == seq![tok] + old(self)@,
            !pushed ==> *final(self) == *old(self),
    {
        if self.len() < CAPACITY {
            self.push_front(tok);
            true
        } else {
            false
        }
    }

    /// `concat` where the two together fit; otherwise the vector is left as
    /// it is and `false` is returned.
    pub fn try_concat(&mut self, other: &TokenVec) -> (joined: bool)
        requires
            old(self).wf(),
            other.wf(),
        ensures
            final(self).wf(),
            joined == (old(self)@.len() + other@.len() <= CAPACITY),
            joined ==> final(self)@ == old(self)@ + other@,
            !joined ==> *final(self) == *old(self),
    {
        if self.len() + other.len() <= CAPACITY {
            self.concat(other);
            true
        } else {
            false
        }
    }

    /// Forward iteration: removes and returns the first token, or returns
    /// `None` and changes nothing once the vector is empty.
    pub fn next(&mut self) -> (r: Option<Token>)
        requires
            old(self).wf(),
        ensures
            final(self).wf(),
            old(self)@.len() == 0 ==> r.is_none() && *final(self) == *old(self),
            old(self)@.len() > 0 ==> r == Some(old(self)@.first()) && final(self)@ == old(
                self,
            )@.drop_first(),
    {
        if !self.is_empty() {
            Some(self.pop_front())
        } else {
            None
        }
    }

    /// Reverse iteration: removes and returns the last token, or returns
    /// `None` and changes nothing once the vector is empty.
    pub fn next_back(&mut self) -> (r: Option<Token>)
        requires
            old(self).wf(),
        ensures
            final(self).wf(),
            old(self)@.len() == 0 ==> r.is_none() && *final(self) == *old(self),
            old(self)@.len() > 0 ==> r == Some(old(self)@.last()) && final(self)@ == old(
                self,
            )@.drop_last(),
    {
        if !self.is_empty() {
            Some(self.pop())
        } else {
            None
        }
    }

    /// The exact number of tokens that iteration will still yield, as lower
    /// and upper bound.
    pub fn size_hint(&self) -> (r: (usize, Option<usize>))
        ensures
            r.0 == self@.len(),
            r.1 == Some(r.0),
    {
        (self.len(), Some(self.len()))
    }

    /// The tokens as a growable sequence, collected by forward iteration.
    pub fn to_vec(self) -> (seq: Vec<Token>)
        requires
            self.wf(),
        ensures
            seq@ == self@,
            seq@ == drained(self@),
    {
        let mut toks = self;
        let mut seq: Vec<Token> = Vec::with_capacity(toks.len());
        loop
            invariant
                toks.wf(),
                seq@ + toks@ == self@,
            decreases toks@.len(),
        {
            match toks.next() {
                Some(tok) => {
                    seq.push(tok);
                    assert(seq@ + toks@ =~= self@) by {
                        let before = seq@.drop_last();
                        let rest = seq![tok] + toks@;
                        assert(before + rest == self@);
                        assert(seq@ + toks@ =~= before + rest);
                    }
                },
                None => {
                    assert(seq@ + toks@ =~= seq@);
                    proof {
                        lemma_drained(self@);
                    }
                    return seq;
                },
            }
        }
    }

    /// The tokens of a growable sequence of at most 29, taken from its back
    /// and inserted at the front so that their order is kept.
    pub fn from_vec(seq: Vec<Token>) -> (v: TokenVec)
        requires
            seq.len() <= CAPACITY,
        ensures
            v.wf(),
            v@ == seq@,
            v@ == pushed_front(seq@),
    {
        proof {
            lemma_front_back_symmetry(seq@);
        }
        let mut seq = seq;
        let ghost all = seq@;
        let mut toks = TokenVec::new();
        while seq.len() > 0
            invariant
                toks.wf(),
                seq@ + toks@ == all,
                all.len() <= CAPACITY,
            decreases seq.len(),
        {
            let ghost before = seq@;
            let ghost held = toks@;
            let tok = seq.pop().unwrap();
            toks.push_front(tok);
            assert(seq@ + toks@ =~= before + held);
        }
        assert(seq@ + toks@ =~= toks@);
        toks
    }

    /// Whether two words hold the same length and the same tokens, whatever
    /// stands in the bits above them.
    pub closed spec fn same_tokens(&self, other: &TokenVec) -> bool {
        &&& len_of(self.0) == len_of(other.0)
        &&& norm(self.0, clamp_len(len_of(self.0))) == norm(other.0, clamp_len(len_of(self.0)))
    }

    proof fn lemma_norm_prefix(a: u64, b: u64, k: nat)
        requires
            k <= 29,
        ensures
            norm(a, k as u64) == norm(b, k as u64) <==> (len_of(a) == len_of(b) && forall|j: int|
                0 <= j < k ==> #[trigger] code_at(a, j as u64) == code_at(b, j as u64)),
        decreases k,
    {
        if k == 0 {
            lemma_norm_base(a, b);
        } else {
            Self::lemma_norm_prefix(a, b, (k - 1) as nat);
            lemma_norm_step(a, b, (k - 1) as u64);
        }
    }

    /// Equality is equality of the tokens held: two vectors with the same
    /// length and contents are equal however each was built, and no others are.
    pub proof fn lemma_eq_is_view_eq(&self, other: &TokenVec)
        requires
            self.wf(),
            other.wf(),
        ensures
            self.same_tokens(other) <==> self@ == other@,
    {
        let a = self.0;
        let b = other.0;
        if len_of(a) == len_of(b) {
            let l = len_of(a);
            Self::lemma_norm_prefix(a, b, l as nat);
            if self@ == other@ {
                assert forall|j: int| 0 <= j < l implies #[trigger] code_at(a, j as u64) == code_at(
                    b,
                    j as u64,
                ) by {
                    assert(self@[j] == other@[j]);
                    assert(code_at(a, j as u64) <= 2);
                    assert(code_at(b, j as u64) <= 2);
                }
            }
            if self.same_tokens(other) {
                assert(self@ =~= other@);
            }
        } else {
            assert(self@.len() != other@.len());
        }
    }
    /// A vector built by pushing a sequence at the back, first to last, equals
    /// one built by pushing it at the front, last to first.
    pub proof fn lemma_front_back_equal(s: Seq<Token>, back: TokenVec, front: TokenVec)
        requires
            back.wf(),
            front.wf(),
            back@ == pushed_back(s),
            front@ == pushed_front(s),
        ensures
            back.same_tokens(&front),
            back@ == front@,
    {
        lemma_front_back_symmetry(s);
        back.lemma_eq_is_view_eq(&front);
    }

    /// Appends one token for each bit of a bit sequence, in bit order: `S` for a
    /// zero bit and `T` for a one bit.
    pub fn append_bits(&mut self, bits: &BitSeq)
        requires
            old(self).wf(),
            old(self)@.len() + bits@.len() <= CAPACITY,
        ensures
            final(self).wf(),
            final(self)@ == old(self)@ + bit_tokens(bits@),
    {
        let n = bits.len();
        let mut i: usize = 0;
        while i < n
            invariant
                i <= n == bits@.len(),
                old(self)@.len() + n <= CAPACITY,
                self.wf(),
                self@ == old(self)@ + bit_tokens(bits@.take(i as int)),
            decreases n - i,
        {
            let bit = bits.get(i);
            self.push(Token::from_bit(bit));
            assert(self@ =~= old(self)@ + bit_tokens(bits@.take(i + 1)));
            i += 1;
        }
        assert(bits@.take(n as int) =~= bits@);
    }

    /// Inserts one token for each bit of a bit sequence at the front, bit by
    /// bit, so that the last bit comes to stand first.
    pub fn append_bits_front(&mut self, bits: &BitSeq)
        requires
            old(self).wf(),
            old(self)@.len() + bits@.len() <= CAPACITY,
        ensures
            final(self).wf(),
            final(self)@ == bit_tokens(bits@).reverse() + old(self)@,
    {
        let n = bits.len();
        let mut i: usize = 0;
        while i < n
            invariant
                i <= n == bits@.len(),
                old(self)@.len() + n <= CAPACITY,
                self.wf(),
                self@ == bit_tokens(bits@.take(i as int)).reverse() + old(self)@,
            decreases n - i,
        {
            let bit = bits.get(i);
            self.push_front(Token::from_bit(bit));
            assert(self@ =~= bit_tokens(bits@.take(i + 1)).reverse() + old(self)@);
            i += 1;
        }
        assert(bits@.take(n as int) =~= bits@);
    }

    /// `append_bits` where the bits fit; otherwise the vector is left as it
    /// is and `false` is returned.
    pub fn try_append_bits(&mut self, bits: &BitSeq) -> (appended: bool)
        requires
            old(self).wf(),
        ensures
            final(self).wf(),
            appended == (old(self)@.len() + bits@.len() <= CAPACITY),
            appended ==> final(self)@ == old(self)@ + bit_tokens(bits@),
            !appended ==> *final(self) == *old(self),
    {
        if bits.len() <= CAPACITY - self.len() {
            self.append_bits(bits);
            true
        } else {
            false
        }
    }

    /// `append_bits_front` where the bits fit; otherwise the vector is left
    /// as it is and `false` is returned.
    pub fn try_append_bits_front(&mut self, bits: &BitSeq) -> (appended: bool)
        requires
            old(self).wf(),
        ensures
            final(self).wf(),
            appended == (old(self)@.len() + bits@.len() <= CAPACITY),
            appended ==> final(self)@ == bit_tokens(bits@).reverse() + old(self)@,
            !appended ==> *final(self) == *old(self),
    {
        if bits.len() <= CAPACITY - self.len() {
            self.append_bits_front(bits);
            true
        } else {
            false
        }
    }

    /// A vector that holds one token for each bit of a bit sequence; `None`
    /// exactly when it has more bits than the capacity.
    pub fn from_bits(bits: &BitSeq) -> (r: Option<TokenVec>)
        ensures
            r.is_some() == (bits@.len() <= CAPACITY),
            r.is_some() ==> r.unwrap().wf() && r.unwrap()@ == bit_tokens(bits@),
    {
        let mut toks = TokenVec::new();
        if toks.try_append_bits(bits) {
            assert(Seq::<Token>::empty() + bit_tokens(bits@) =~= bit_tokens(
                bits@,
            ));
            Some(toks)
        } else {
            None
        }
    }
    /// The tokens as text: their letters, first to last, separated by spaces
    /// and enclosed in square brackets.
    pub fn to_debug_string(&self) -> (text: String)
        requires
            self.wf(),
        ensures
            text@ == rendered(self@),
    {
        proof {
            reveal_strlit("[");
            reveal_strlit("]");
        }
        let mut text = String::from_str("[");
        let n = self.len();
        let mut i: usize = 0;
        assert(self@.take(0) =~= Seq::<Token>::empty());
        assert(text@ =~= seq!['['] + rendered_items(self@.take(0)));
        while i < n
            invariant
                self.wf(),
                i <= n == self@.len(),
                text@ == seq!['['] + rendered_items(self@.take(i as int)),
            decreases n - i,
        {
            let ghost before = text@;
            if i > 0 {
                text.append(" ");
            }
            let letter = match self.get(i) {
                Token::S => "S",
                Token::T => "T",
                Token::L => "L",
            };
            text.append(letter);
            proof {
                reveal_strlit(" ");
                reveal_strlit("S");
                reveal_strlit("T");
                reveal_strlit("L");
                let next = self@.take(i + 1);
                assert(next.drop_last() =~= self@.take(i as int));
                assert(next.last() == self@[i as int]);
                assert(letter@ =~= seq![symbol_char(self@[i as int])]);
                if i > 0 {
                    assert(text@ =~= before + seq![' ', symbol_char(self@[i as int])]);
                }
                assert(text@ =~= seq!['['] + rendered_items(next));
            }
            i += 1;
        }
        assert(self@.take(n as int) =~= self@);
        text.append("]");
        text
    }
}

} // verus!
