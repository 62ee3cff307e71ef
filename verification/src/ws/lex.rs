//! Lexers: from the symbols of a source alphabet to tokens.

use vstd::prelude::*;

use crate::ws::bit_pack::{bit_unpack_padded, unpack_spec};
use crate::ws::token::Token;

verus! {

/// A symbol of a source alphabet: a value that can be compared for equality.
pub trait Symbol: Copy {
    fn same(&self, other: &Self) -> (r: bool)
        ensures
            r == (*self == *other),
    ;
}

impl Symbol for char {
    fn same(&self, other: &char) -> (r: bool) {
        *self == *other
    }
}

impl Symbol for u8 {
    fn same(&self, other: &u8) -> (r: bool) {
        *self == *other
    }
}

/// The three symbols that a source alphabet writes the tokens with.
#[derive(Clone, Copy, Debug)]
pub struct Mapping<T> {
    pub s: T,
    pub t: T,
    pub l: T,
}

/// A symbol that stands for no token, and where it stood in the source.
#[derive(Clone, Copy, Debug, PartialEq, Eq)]
pub struct EncodingError<T> {
    pub symbol: T,
    pub position: usize,
}

/// What a lexer yields: the tokens up to the end of the source or to the
/// first error, and that error.
#[derive(Debug)]
pub struct Lexed<T> {
    pub tokens: Vec<Token>,
    pub error: Option<EncodingError<T>>,
}

impl<T> Mapping<T> {
    /// The three symbols differ, so that the table reads both ways.
    pub open spec fn wf(&self) -> bool {
        self.s != self.t && self.s != self.l && self.t != self.l
    }

    /// The token that a symbol stands for, if any.
    pub open spec fn lookup_spec(&self, sym: T) -> Option<Token> {
        if sym == self.s {
            Some(Token::S)
        } else if sym == self.t {
            Some(Token::T)
        } else if sym == self.l {
            Some(Token::L)
        } else {
            None
        }
    }

    /// The symbol that stands for a token.
    pub open spec fn symbol_spec(&self, tok: Token) -> T {
        match tok {
            Token::S => self.s,
            Token::T => self.t,
            Token::L => self.l,
        }
    }
}

impl<T: Symbol> Mapping<T> {
    pub fn lookup(&self, sym: T) -> (r: Option<Token>)
        ensures
            r == self.lookup_spec(sym),
    {
        if sym.same(&self.s) {
            Some(Token::S)
        } else if sym.same(&self.t) {
            Some(Token::T)
        } else if sym.same(&self.l) {
            Some(Token::L)
        } else {
            None
        }
    }

    pub fn symbol(&self, tok: Token) -> (sym: T)
        ensures
            sym == self.symbol_spec(tok),
            self.wf() ==> self.lookup_spec(sym) == Some(tok),
    {
        match tok {
            Token::S => self.s,
            Token::T => self.t,
            Token::L => self.l,
        }
    }
}

/// The textual scheme: the letters `S`, `T` and `L`.
pub fn stl_chars() -> (m: Mapping<char>)
    ensures
        m == (Mapping { s: 'S', t: 'T', l: 'L' }),
        m.wf(),
{
    Mapping { s: 'S', t: 'T', l: 'L' }
}

/// The textual scheme over bytes: the ASCII letters `S`, `T` and `L`.
pub fn stl_bytes() -> (m: Mapping<u8>)
    ensures
        m == (Mapping { s: 83u8, t: 84u8, l: 76u8 }),
        m.wf(),
{
    Mapping { s: 83, t: 84, l: 76 }
}

/// The authentic scheme over bytes: space, tab and line feed.
pub fn whitespace_bytes() -> (m: Mapping<u8>)
    ensures
        m == (Mapping { s: 32u8, t: 9u8, l: 10u8 }),
        m.wf(),
{
    Mapping { s: 32, t: 9, l: 10 }
}

/// The index of the first symbol from `pos` on that stands for no token, or
/// the length of the source where every one stands for a token.
pub open spec fn first_unmapped<T>(src: Seq<T>, m: Mapping<T>, pos: int) -> int
    decreases src.len() - pos,
{
    if pos < 0 || pos >= src.len() {
        src.len() as int
    } else if m.lookup_spec(src[pos]).is_none() {
        pos
    } else {
        first_unmapped(src, m, pos + 1)
    }
}

/// The tokens of the first `upto` symbols, those that stand for no token
/// left out.
pub open spec fn mapped_tokens<T>(src: Seq<T>, m: Mapping<T>, upto: int) -> Seq<Token>
    decreases upto,
{
    if upto <= 0 || upto > src.len() {
        Seq::empty()
    } else {
        match m.lookup_spec(src[upto - 1]) {
            Some(tok) => mapped_tokens(src, m, upto - 1).push(tok),
            None => mapped_tokens(src, m, upto - 1),
        }
    }
}

/// Where a lexer stops: at the end of the source when lenient, else at the
/// first symbol that stands for no token.
pub open spec fn lex_stop<T>(src: Seq<T>, m: Mapping<T>, lenient: bool) -> int {
    if lenient {
        src.len() as int
    } else {
        first_unmapped(src, m, 0)
    }
}

/// What lexing a source yields.
pub open spec fn lex_spec<T>(src: Seq<T>, m: Mapping<T>, lenient: bool) -> (Seq<Token>, Option<EncodingError<T>>) {
    let stop = lex_stop(src, m, lenient);
    (
        mapped_tokens(src, m, stop),
        if stop < src.len() {
            Some(EncodingError { symbol: src[stop], position: stop as usize })
        } else {
            None
        },
    )
}

/// A strict lexer stops at a symbol that stands for no token, and every
/// symbol before it stands for one.
pub proof fn lemma_first_unmapped<T>(src: Seq<T>, m: Mapping<T>, pos: int)
    requires
        0 <= pos <= src.len(),
    ensures
        pos <= first_unmapped(src, m, pos) <= src.len(),
        first_unmapped(src, m, pos) < src.len() ==> m.lookup_spec(
            src[first_unmapped(src, m, pos)],
        ).is_none(),
        forall|i: int|
            pos <= i < first_unmapped(src, m, pos) ==> (#[trigger] m.lookup_spec(src[i])).is_some(),
    decreases src.len() - pos,
{
    if pos < src.len() && m.lookup_spec(src[pos]).is_some() {
        lemma_first_unmapped(src, m, pos + 1);
    }
}

/// A source in which every symbol stands for a token lexes to exactly those
/// tokens, lenient or not, and writing tokens with a mapping's symbols gives
/// such a source.
pub proof fn lemma_lex_written<T>(toks: Seq<Token>, m: Mapping<T>, lenient: bool)
    requires
        m.wf(),
    ensures
        lex_spec(toks.map_values(|t: Token| m.symbol_spec(t)), m, lenient) == (
            toks,
            None::<EncodingError<T>>,
        ),
{
    let src = toks.map_values(|t: Token| m.symbol_spec(t));
    lemma_first_unmapped(src, m, 0);
    if first_unmapped(src, m, 0) < src.len() {
        let i = first_unmapped(src, m, 0);
        assert(src[i] == m.symbol_spec(toks[i]));
    }
    lemma_mapped_written(toks, m, toks.len() as int);
    assert(toks.take(toks.len() as int) =~= toks);
}

proof fn lemma_mapped_written<T>(toks: Seq<Token>, m: Mapping<T>, upto: int)
    requires
        m.wf(),
        0 <= upto <= toks.len(),
    ensures
        mapped_tokens(toks.map_values(|t: Token| m.symbol_spec(t)), m, upto) == toks.take(upto),
    decreases upto,
{
    let src = toks.map_values(|t: Token| m.symbol_spec(t));
    if upto > 0 {
        lemma_mapped_written(toks, m, upto - 1);
        assert(src[upto - 1] == m.symbol_spec(toks[upto - 1]));
        assert(toks.take(upto - 1).push(toks[upto - 1]) =~= toks.take(upto));
    } else {
        assert(toks.take(0) =~= Seq::<Token>::empty());
    }
}

/// The index of the first symbol from `pos` on that stands for a token, or
/// the length of the source where none does.
pub open spec fn first_mapped<T>(src: Seq<T>, m: Mapping<T>, pos: int) -> int
    decreases src.len() - pos,
{
    if pos < 0 || pos >= src.len() {
        src.len() as int
    } else if m.lookup_spec(src[pos]).is_some() {
        pos
    } else {
        first_mapped(src, m, pos + 1)
    }
}

/// What a lexer at `pos` yields next, with the index at which it goes on:
/// a token, an error that ends the lexing, or nothing at the end of the
/// source.
pub open spec fn lex_next_spec<T>(src: Seq<T>, m: Mapping<T>, lenient: bool, pos: int) -> (
    Option<Result<Token, EncodingError<T>>>,
    int,
) {
    let at = if lenient {
        first_mapped(src, m, pos)
    } else {
        pos
    };
    if at < 0 || at >= src.len() {
        (None, src.len() as int)
    } else {
        match m.lookup_spec(src[at]) {
            Some(tok) => (Some(Ok(tok)), at + 1),
            None => (
                Some(Err(EncodingError { symbol: src[at], position: at as usize })),
                src.len() as int,
            ),
        }
    }
}

/// Symbols that stand for no token add nothing to the tokens of a source.
pub proof fn lemma_skipped<T>(src: Seq<T>, m: Mapping<T>, pos: int)
    requires
        0 <= pos <= src.len(),
    ensures
        pos <= first_mapped(src, m, pos) <= src.len(),
        mapped_tokens(src, m, first_mapped(src, m, pos)) == mapped_tokens(src, m, pos),
        first_mapped(src, m, pos) < src.len() ==> m.lookup_spec(
            src[first_mapped(src, m, pos)],
        ).is_some(),
    decreases src.len() - pos,
{
    if pos < src.len() && m.lookup_spec(src[pos]).is_none() {
        lemma_skipped(src, m, pos + 1);
    }
}

/// One step of a lexer: the next token from `pos` on, an error, or nothing
/// at the end of the source, with the index at which the lexer goes on. A
/// symbol that stands for no token is passed over when `lenient`; otherwise
/// it is the error, and the lexing ends there.
pub fn lex_next<T: Symbol>(src: &[T], mapping: &Mapping<T>, lenient: bool, pos: usize) -> (r: (
    Option<Result<Token, EncodingError<T>>>,
    usize,
))
    requires
        pos <= src.len(),
    ensures
        (r.0, r.1 as int) == lex_next_spec(src@, *mapping, lenient, pos as int),
        pos <= r.1 <= src.len(),
        r.0 is Some ==> pos < r.1,
{
    let mut i: usize = pos;
    while i < src.len()
        invariant
            pos <= i <= src.len(),
            lenient ==> first_mapped(src@, *mapping, pos as int) == first_mapped(
                src@,
                *mapping,
                i as int,
            ),
            !lenient ==> i == pos,
        decreases src.len() - i,
    {
        match mapping.lookup(src[i]) {
            Some(tok) => {
                return (Some(Ok(tok)), i + 1);
            },
            None => {
                if !lenient {
                    return (Some(Err(EncodingError { symbol: src[i], position: i })), src.len());
                }
            },
        }
        i += 1;
    }
    (None, src.len())
}

/// Lexes a source: every symbol that stands for a token yields that token.
/// A symbol that stands for none is passed over when `lenient`; otherwise it
/// ends the lexing with an error that holds the symbol and its index.
pub fn lex<T: Symbol>(src: &[T], mapping: &Mapping<T>, lenient: bool) -> (r: Lexed<T>)
    ensures
        (r.tokens@, r.error) == lex_spec(src@, *mapping, lenient),
{
    let mut tokens: Vec<Token> = Vec::new();
    let mut pos: usize = 0;
    loop
        invariant
            pos <= src.len(),
            tokens@ == mapped_tokens(src@, *mapping, pos as int),
            lenient || first_unmapped(src@, *mapping, 0) == first_unmapped(
                src@,
                *mapping,
                pos as int,
            ),
        decreases src.len() - pos,
    {
        proof {
            lemma_skipped(src@, *mapping, pos as int);
        }
        let (item, next) = lex_next(src, mapping, lenient, pos);
        match item {
            None => {
                proof {
                    if !lenient {
                        assert(pos == src.len());
                    }
                }
                return Lexed { tokens, error: None };
            },
            Some(Err(e)) => {
                return Lexed { tokens, error: Some(e) };
            },
            Some(Ok(tok)) => {
                tokens.push(tok);
                pos = next;
            },
        }
    }
}

/// Lexes the packed binary form: the tokens that the bytes hold, which
/// always succeeds.
pub fn lex_packed(bytes: &[u8]) -> (r: Lexed<u8>)
    ensures
        r.tokens@ == unpack_spec(bytes@),
        r.error is None,
{
    Lexed { tokens: bit_unpack_padded(bytes), error: None }
}

impl<T> Lexed<T> {
    /// The tokens where the lexing met no error, else the error.
    pub fn into_result(self) -> (r: Result<Vec<Token>, EncodingError<T>>)
        ensures
            match self.error {
                Some(e) => r == Err::<Vec<Token>, EncodingError<T>>(e),
                None => r == Ok::<Vec<Token>, EncodingError<T>>(self.tokens),
            },
    {
        match self.error {
            Some(e) => Err(e),
            None => Ok(self.tokens),
        }
    }
}

} // verus!
