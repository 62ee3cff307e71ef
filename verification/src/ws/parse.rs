//! The prefix decoder: from tokens to instructions.

use vstd::prelude::*;

use crate::ws::bits::BitSeq;
use crate::ws::inst::{Inst, Opcode};
use crate::ws::bit_pack::{lemma_unpack_pack, pack_spec, unpack_spec};
use crate::ws::lex::{lemma_lex_written, lex_spec, EncodingError, Lexed, Mapping};
use crate::ws::token::Token;
use crate::ws::token::TokenVec;

verus! {

/// The largest number of tokens that the decoder takes at once: no argument
/// then outgrows what a bit vector can hold.
pub const MAX_TOKENS: usize = usize::MAX / 8;

/// Why a token sequence ends in no instruction.
#[derive(Clone, Copy, Debug, PartialEq, Eq, Structural)]
pub enum DecodeError {
    /// The tokens ran out before they spelt the prefix of an instruction.
    TruncatedOpcode,
    /// The tokens ran out before the line feed that ends an argument.
    UnterminatedArgument,
}

/// One row of a prefix table.
#[derive(Clone, Copy, Debug)]
pub struct Entry {
    pub prefix: TokenVec,
    pub opcode: Opcode,
}

/// A table from token prefixes to instruction tags.
#[derive(Debug)]
pub struct PrefixTable {
    pub entries: Vec<Entry>,
}

/// A table as plain values: each prefix with its tag.
pub type Rows = Seq<(Seq<Token>, Opcode)>;

/// What decoding yields: for each instruction its tag and digits, or the
/// error at which decoding ended.
pub type Decoded = Seq<Result<(Opcode, Seq<bool>), DecodeError>>;

/// The tag of the first row from `i` on whose prefix is `prefix`.
pub open spec fn lookup_from(rows: Rows, prefix: Seq<Token>, i: int) -> Option<Opcode>
    decreases rows.len() - i,
{
    if i < 0 || i >= rows.len() {
        None
    } else if rows[i].0 == prefix {
        Some(rows[i].1)
    } else {
        lookup_from(rows, prefix, i + 1)
    }
}

/// The tag of the shortest run of tokens from `start` that is a prefix of the
/// table and ends at `end` or later, with the index behind that run.
pub open spec fn find_opcode(rows: Rows, toks: Seq<Token>, start: int, end: int) -> Option<
    (Opcode, int),
>
    decreases toks.len() - end + 1,
{
    if start < 0 || end < start || end > toks.len() {
        None
    } else {
        match lookup_from(rows, toks.subrange(start, end), 0) {
            Some(op) => Some((op, end)),
            None => find_opcode(rows, toks, start, end + 1),
        }
    }
}

/// The index of the first line feed at `pos` or later.
pub open spec fn find_terminator(toks: Seq<Token>, pos: int) -> Option<int>
    decreases toks.len() - pos,
{
    if pos < 0 || pos >= toks.len() {
        None
    } else if toks[pos] == Token::L {
        Some(pos)
    } else {
        find_terminator(toks, pos + 1)
    }
}

/// The binary digits that the tokens of an argument stand for.
pub open spec fn arg_bits(toks: Seq<Token>) -> Seq<bool> {
    toks.map_values(|t: Token| t == Token::T)
}

/// The instruction that the tokens at `pos` decode to, or the error that
/// ends the decoding there, with the index at which decoding goes on.
pub open spec fn decode_next(rows: Rows, toks: Seq<Token>, pos: int) -> (
    Result<(Opcode, Seq<bool>), DecodeError>,
    int,
) {
    match find_opcode(rows, toks, pos, pos + 1) {
        None => (Err(DecodeError::TruncatedOpcode), toks.len() as int),
        Some((op, end)) => {
            if op.has_arg_spec() {
                match find_terminator(toks, end) {
                    None => (Err(DecodeError::UnterminatedArgument), toks.len() as int),
                    Some(t) => (Ok((op, arg_bits(toks.subrange(end, t)))), t + 1),
                }
            } else {
                (Ok((op, Seq::<bool>::empty())), end)
            }
        },
    }
}

/// The instructions that the tokens from `pos` on decode to. Decoding ends
/// with the tokens, or with the first error.
pub open spec fn decode_spec(rows: Rows, toks: Seq<Token>, pos: int) -> Decoded
    decreases toks.len() - pos,
{
    if pos < 0 || pos >= toks.len() {
        Seq::empty()
    } else {
        let (item, next) = decode_next(rows, toks, pos);
        if item is Ok && pos < next <= toks.len() {
            seq![item] + decode_spec(rows, toks, next)
        } else {
            seq![item]
        }
    }
}

/// An opcode that is found ends behind where the search began, within the
/// tokens.
pub proof fn lemma_find_opcode_bounds(rows: Rows, toks: Seq<Token>, start: int, end: int)
    requires
        start <= end,
    ensures
        find_opcode(rows, toks, start, end) is Some ==> end <= find_opcode(
            rows,
            toks,
            start,
            end,
        ).unwrap().1 <= toks.len(),
    decreases toks.len() - end + 1,
{
    if 0 <= start && end <= toks.len() && lookup_from(rows, toks.subrange(start, end), 0) is None {
        lemma_find_opcode_bounds(rows, toks, start, end + 1);
    }
}

/// A terminator that is found is a line feed at or behind where the search
/// began, and no line feed stands before it.
pub proof fn lemma_find_terminator(toks: Seq<Token>, pos: int)
    requires
        0 <= pos,
    ensures
        match find_terminator(toks, pos) {
            Some(t) => pos <= t < toks.len() && toks[t] == Token::L && forall|i: int|
                pos <= i < t ==> toks[i] != Token::L,
            None => forall|i: int| pos <= i < toks.len() ==> toks[i] != Token::L,
        },
    decreases toks.len() - pos,
{
    if pos < toks.len() && toks[pos] != Token::L {
        lemma_find_terminator(toks, pos + 1);
    }
}

/// Decoding makes progress: every item uses at least one token, and none
/// beyond the last.
pub proof fn lemma_decode_progress(rows: Rows, toks: Seq<Token>, pos: int)
    requires
        0 <= pos < toks.len(),
    ensures
        pos < decode_next(rows, toks, pos).1 <= toks.len(),
{
    lemma_find_opcode_bounds(rows, toks, pos, pos + 1);
    match find_opcode(rows, toks, pos, pos + 1) {
        None => {},
        Some((op, end)) => {
            lemma_find_terminator(toks, end);
        },
    }
}

/// The prefix property of a table: no prefix is empty, and none is the
/// beginning of another row's.
pub open spec fn prefix_free(rows: Rows) -> bool {
    &&& forall|i: int| 0 <= i < rows.len() ==> (#[trigger] rows[i]).0.len() > 0
    &&& forall|i: int, j: int|
        0 <= i < rows.len() && 0 <= j < rows.len() && i != j ==> !(#[trigger] rows[i]).0.is_prefix_of(
            (#[trigger] rows[j]).0,
        )
}

/// A lookup finds a row with the prefix asked for, and finds none only where
/// there is none.
pub proof fn lemma_lookup_from(rows: Rows, prefix: Seq<Token>, i: int)
    requires
        0 <= i,
    ensures
        match lookup_from(rows, prefix, i) {
            Some(op) => exists|j: int|
                i <= j < rows.len() && (#[trigger] rows[j]).0 == prefix && rows[j].1 == op,
            None => forall|j: int| i <= j < rows.len() ==> (#[trigger] rows[j]).0 != prefix,
        },
    decreases rows.len() - i,
{
    if i < rows.len() && rows[i].0 != prefix {
        lemma_lookup_from(rows, prefix, i + 1);
    }
}

proof fn lemma_find_row(rows: Rows, toks: Seq<Token>, pos: int, k: int, end: int)
    requires
        prefix_free(rows),
        0 <= k < rows.len(),
        0 <= pos < end <= pos + rows[k].0.len() <= toks.len(),
        toks.subrange(pos, pos + rows[k].0.len()) == rows[k].0,
    ensures
        find_opcode(rows, toks, pos, end) == Some((rows[k].1, pos + rows[k].0.len())),
    decreases pos + rows[k].0.len() - end,
{
    let run = toks.subrange(pos, end);
    lemma_lookup_from(rows, run, 0);
    if end == pos + rows[k].0.len() {
        match lookup_from(rows, run, 0) {
            Some(op) => {
                let j = choose|j: int|
                    0 <= j < rows.len() && (#[trigger] rows[j]).0 == run && rows[j].1 == op;
                if j != k {
                    assert(rows[j].0 =~= rows[k].0.subrange(0, rows[j].0.len() as int));
                    assert(rows[j].0.is_prefix_of(rows[k].0));
                }
            },
            None => {
                assert(rows[k].0 == run);
            },
        }
    } else {
        match lookup_from(rows, run, 0) {
            Some(op) => {
                let j = choose|j: int|
                    0 <= j < rows.len() && (#[trigger] rows[j]).0 == run && rows[j].1 == op;
                assert(rows[j].0 =~= rows[k].0.subrange(0, rows[j].0.len() as int));
                assert(rows[j].0.is_prefix_of(rows[k].0));
            },
            None => {},
        }
        lemma_find_row(rows, toks, pos, k, end + 1);
    }
}

/// With a table that has the prefix property the match is unique: where the
/// tokens from `pos` on begin with the prefix of a row, that row's tag is the
/// one decoded there, and decoding goes on right behind the prefix.
pub proof fn lemma_unique_match(rows: Rows, toks: Seq<Token>, pos: int, k: int)
    requires
        prefix_free(rows),
        0 <= k < rows.len(),
        0 <= pos,
        pos + rows[k].0.len() <= toks.len(),
        toks.subrange(pos, pos + rows[k].0.len()) == rows[k].0,
    ensures
        find_opcode(rows, toks, pos, pos + 1) == Some((rows[k].1, pos + rows[k].0.len())),
{
    lemma_find_row(rows, toks, pos, k, pos + 1);
}

/// Decoding ends after the first error: only the last item can be one.
pub proof fn lemma_error_is_last(rows: Rows, toks: Seq<Token>, pos: int)
    ensures
        forall|i: int|
            0 <= i < decode_spec(rows, toks, pos).len() - 1 ==> (#[trigger] decode_spec(
                rows,
                toks,
                pos,
            )[i]) is Ok,
    decreases toks.len() - pos,
{
    if 0 <= pos < toks.len() {
        let (item, next) = decode_next(rows, toks, pos);
        if item is Ok && pos < next <= toks.len() {
            lemma_error_is_last(rows, toks, next);
        }
    }
}

/// One program decodes alike from every encoding: from the tokens themselves,
/// from a text or byte source that writes them with a mapping's symbols, and
/// from their packed binary form.
pub proof fn lemma_cross_encoding<T>(rows: Rows, toks: Seq<Token>, m: Mapping<T>, lenient: bool)
    requires
        m.wf(),
    ensures
        lex_spec(toks.map_values(|t: Token| m.symbol_spec(t)), m, lenient).1 is None,
        decode_spec(rows, lex_spec(toks.map_values(|t: Token| m.symbol_spec(t)), m, lenient).0, 0)
            == decode_spec(rows, toks, 0),
        decode_spec(rows, unpack_spec(pack_spec(toks)), 0) == decode_spec(rows, toks, 0),
{
    lemma_lex_written(toks, m, lenient);
    lemma_unpack_pack(toks);
}

proof fn lemma_find_opcode_agrees(
    rows: Rows,
    a: Seq<Token>,
    b: Seq<Token>,
    pos: int,
    end: int,
    behind: int,
)
    requires
        0 <= pos <= end,
        find_opcode(rows, a, pos, end) is Some,
        find_opcode(rows, a, pos, end).unwrap().1 == behind,
        behind <= b.len(),
        a.take(behind) == b.take(behind),
    ensures
        find_opcode(rows, b, pos, end) == find_opcode(rows, a, pos, end),
    decreases a.len() - end + 1,
{
    lemma_find_opcode_bounds(rows, a, pos, end);
    assert(a.subrange(pos, end) =~= a.take(behind).subrange(pos, end));
    assert(b.subrange(pos, end) =~= b.take(behind).subrange(pos, end));
    if lookup_from(rows, a.subrange(pos, end), 0) is None {
        lemma_find_opcode_bounds(rows, a, pos, end + 1);
        lemma_find_opcode_agrees(rows, a, b, pos, end + 1, behind);
    }
}

proof fn lemma_find_terminator_agrees(a: Seq<Token>, b: Seq<Token>, pos: int, t: int)
    requires
        0 <= pos,
        find_terminator(a, pos) == Some(t),
        t < b.len(),
        a.take(t + 1) == b.take(t + 1),
    ensures
        find_terminator(b, pos) == Some(t),
    decreases a.len() - pos,
{
    lemma_find_terminator(a, pos);
    assert(a[pos] == a.take(t + 1)[pos]);
    assert(b[pos] == b.take(t + 1)[pos]);
    if a[pos] != Token::L {
        lemma_find_terminator_agrees(a, b, pos + 1, t);
    }
}

/// The decoder looks no further ahead than one instruction: what it decodes
/// at `pos` is the same for any two token sequences that agree up to the end
/// of that instruction.
pub proof fn lemma_no_lookahead(rows: Rows, a: Seq<Token>, b: Seq<Token>, pos: int)
    requires
        0 <= pos < a.len(),
        decode_next(rows, a, pos).0 is Ok,
        decode_next(rows, a, pos).1 <= b.len(),
        a.take(decode_next(rows, a, pos).1) == b.take(decode_next(rows, a, pos).1),
    ensures
        decode_next(rows, b, pos) == decode_next(rows, a, pos),
{
    let next = decode_next(rows, a, pos).1;
    lemma_decode_progress(rows, a, pos);
    lemma_find_opcode_bounds(rows, a, pos, pos + 1);
    let (op, end) = find_opcode(rows, a, pos, pos + 1).unwrap();
    if op.has_arg_spec() {
        let t = find_terminator(a, end).unwrap();
        lemma_find_terminator(a, end);
        assert(a.take(end) =~= a.take(next).take(end));
        assert(b.take(end) =~= b.take(next).take(end));
        lemma_find_opcode_agrees(rows, a, b, pos, pos + 1, end);
        lemma_find_terminator_agrees(a, b, end, t);
        assert(a.subrange(end, t) =~= a.take(next).subrange(end, t));
        assert(b.subrange(end, t) =~= b.take(next).subrange(end, t));
    } else {
        lemma_find_opcode_agrees(rows, a, b, pos, pos + 1, end);
    }
}

proof fn lemma_find_opcode_shift(rows: Rows, toks: Seq<Token>, start: int, end: int)
    requires
        0 <= start <= end,
        start <= toks.len(),
    ensures
        find_opcode(rows, toks, start, end) == match find_opcode(
            rows,
            toks.skip(start),
            0,
            end - start,
        ) {
            Some((op, behind)) => Some((op, behind + start)),
            None => None::<(Opcode, int)>,
        },
    decreases toks.len() - end + 1,
{
    if end <= toks.len() {
        assert(toks.subrange(start, end) =~= toks.skip(start).subrange(0, end - start));
        if lookup_from(rows, toks.subrange(start, end), 0) is None {
            lemma_find_opcode_shift(rows, toks, start, end + 1);
        }
    }
}

proof fn lemma_find_terminator_shift(toks: Seq<Token>, start: int, pos: int)
    requires
        0 <= start <= pos,
        start <= toks.len(),
    ensures
        find_terminator(toks, pos) == match find_terminator(toks.skip(start), pos - start) {
            Some(t) => Some(t + start),
            None => None::<int>,
        },
    decreases toks.len() - pos,
{
    if pos < toks.len() && toks[pos] != Token::L {
        lemma_find_terminator_shift(toks, start, pos + 1);
    }
}

/// Decoding at `start` is decoding the tokens from `start` on at their
/// beginning.
pub proof fn lemma_decode_shift(rows: Rows, toks: Seq<Token>, start: int)
    requires
        0 <= start < toks.len(),
    ensures
        decode_next(rows, toks, start).0 == decode_next(rows, toks.skip(start), 0).0,
        decode_next(rows, toks, start).1 == decode_next(rows, toks.skip(start), 0).1 + start,
{
    let rest = toks.skip(start);
    lemma_find_opcode_shift(rows, toks, start, start + 1);
    lemma_find_opcode_bounds(rows, rest, 0, 1);
    match find_opcode(rows, rest, 0, 1) {
        None => {},
        Some((op, end)) => {
            lemma_find_terminator_shift(toks, start, end + start);
            lemma_find_terminator(rest, end);
            match find_terminator(rest, end) {
                None => {},
                Some(t) => {
                    assert(toks.subrange(end + start, t + start) =~= rest.subrange(end, t));
                },
            }
        },
    }
}

/// The decoder that takes one token at a time yields what decoding the whole
/// sequence yields: where the tokens from `start` up to some index decode to
/// an instruction on their own, the whole sequence decodes to that
/// instruction at `start` and goes on behind it.
pub proof fn lemma_stream_step(rows: Rows, toks: Seq<Token>, start: int, behind: int)
    requires
        0 <= start < behind <= toks.len(),
        decode_next(rows, toks.subrange(start, behind), 0).0 is Ok,
    ensures
        decode_next(rows, toks, start).0 == decode_next(rows, toks.subrange(start, behind), 0).0,
        decode_next(rows, toks, start).1 == decode_next(rows, toks.subrange(start, behind), 0).1
            + start,
{
    let run = toks.subrange(start, behind);
    let rest = toks.skip(start);
    let next = decode_next(rows, run, 0).1;
    lemma_decode_progress(rows, run, 0);
    assert(run.take(next) =~= rest.take(next));
    lemma_no_lookahead(rows, run, rest, 0);
    lemma_decode_shift(rows, toks, start);
}

/// The items that were decoded in full: where the token source was cut off
/// by an error of its own, a trailing error of the decoder is left out.
pub open spec fn complete_items(decoded: Decoded, cut: bool) -> Decoded {
    if cut && decoded.len() > 0 && decoded.last() is Err {
        decoded.drop_last()
    } else {
        decoded
    }
}

/// What a decoded item is as plain values.
pub open spec fn item_view(item: Result<Inst, DecodeError>) -> Result<
    (Opcode, Seq<bool>),
    DecodeError,
> {
    match item {
        Ok(inst) => Ok(inst@),
        Err(e) => Err(e),
    }
}

/// What the decoded items are as plain values.
pub open spec fn items_view(items: Seq<Result<Inst, DecodeError>>) -> Decoded {
    items.map_values(|item: Result<Inst, DecodeError>| item_view(item))
}

impl View for PrefixTable {
    type V = Rows;

    open spec fn view(&self) -> Rows {
        Seq::new(self.entries@.len(), |i: int| (self.entries@[i].prefix@, self.entries@[i].opcode))
    }
}

impl PrefixTable {
    /// Every prefix is a valid token vector.
    pub open spec fn wf(&self) -> bool {
        forall|i: int| 0 <= i < self.entries@.len() ==> (#[trigger] self.entries@[i]).prefix.wf()
    }

    /// A run of tokens longer than a token vector can be is no row's prefix.
    pub proof fn lemma_long_run(&self, run: Seq<Token>, i: int)
        requires
            self.wf(),
            run.len() > 29,
            0 <= i,
        ensures
            lookup_from(self@, run, i) is None,
        decreases self@.len() - i,
    {
        if i < self@.len() {
            self.entries@[i].prefix.lemma_wf_len();
            self.lemma_long_run(run, i + 1);
        }
    }

    /// The tag of the first row whose prefix holds exactly the tokens of
    /// `prefix`.
    pub fn lookup(&self, prefix: &TokenVec) -> (r: Option<Opcode>)
        requires
            self.wf(),
            prefix.wf(),
        ensures
            r == lookup_from(self@, prefix@, 0),
    {
        let mut i: usize = 0;
        while i < self.entries.len()
            invariant
                self.wf(),
                prefix.wf(),
                i <= self.entries@.len(),
                lookup_from(self@, prefix@, 0) == lookup_from(self@, prefix@, i as int),
            decreases self.entries@.len() - i,
        {
            proof {
                self.entries@[i as int].prefix.lemma_eq_is_view_eq(prefix);
            }
            if self.entries[i].prefix == *prefix {
                return Some(self.entries[i].opcode);
            }
            i += 1;
        }
        None
    }
}

/// The rows of the standard table.
pub open spec fn standard_rows() -> Rows {
    seq![
        (seq![Token::S, Token::S], Opcode::Push),
        (seq![Token::S, Token::L, Token::S], Opcode::Dup),
        (seq![Token::S, Token::L, Token::L], Opcode::Drop),
        (seq![Token::T, Token::S, Token::S, Token::S], Opcode::Add),
        (seq![Token::T, Token::S, Token::S, Token::T], Opcode::Sub),
        (seq![Token::T, Token::L, Token::S, Token::S], Opcode::Printc),
        (seq![Token::T, Token::L, Token::S, Token::T], Opcode::Printi),
        (seq![Token::L, Token::S, Token::S], Opcode::Label),
        (seq![Token::L, Token::S, Token::L], Opcode::Jmp),
        (seq![Token::L, Token::T, Token::S], Opcode::Jz),
        (seq![Token::L, Token::L, Token::L], Opcode::End),
    ]
}

/// The standard table has the prefix property.
pub proof fn lemma_standard_prefix_free()
    ensures
        prefix_free(standard_rows()),
{
    let rows = standard_rows();
    assert forall|i: int, j: int|
        0 <= i < rows.len() && 0 <= j < rows.len() && i != j implies !(#[trigger] rows[i]).0.is_prefix_of(
        (#[trigger] rows[j]).0,
    ) by {
        let a = rows[i].0;
        let b = rows[j].0;
        if a.is_prefix_of(b) {
            let cut = b.subrange(0, a.len() as int);
            assert(a[0] == cut[0]);
            assert(a[1] == cut[1]);
            if a.len() > 2 {
                assert(a[2] == cut[2]);
            }
            if a.len() > 3 {
                assert(a[3] == cut[3]);
            }
        }
    }
}

fn row(prefix: &Vec<Token>, opcode: Opcode) -> (e: Entry)
    requires
        prefix@.len() <= 29,
    ensures
        e.prefix.wf(),
        e.prefix@ == prefix@,
        e.opcode == opcode,
{
    Entry { prefix: TokenVec::from_slice(prefix.as_slice()), opcode }
}

/// The standard table of the language's instructions.
pub fn standard_table() -> (table: PrefixTable)
    ensures
        table.wf(),
        table@ == standard_rows(),
        prefix_free(table@),
{
    proof {
        lemma_standard_prefix_free();
    }
    let s = Token::S;
    let t = Token::T;
    let l = Token::L;
    let mut entries: Vec<Entry> = Vec::new();
    entries.push(row(&vec![s, s], Opcode::Push));
    entries.push(row(&vec![s, l, s], Opcode::Dup));
    entries.push(row(&vec![s, l, l], Opcode::Drop));
    entries.push(row(&vec![t, s, s, s], Opcode::Add));
    entries.push(row(&vec![t, s, s, t], Opcode::Sub));
    entries.push(row(&vec![t, l, s, s], Opcode::Printc));
    entries.push(row(&vec![t, l, s, t], Opcode::Printi));
    entries.push(row(&vec![l, s, s], Opcode::Label));
    entries.push(row(&vec![l, s, l], Opcode::Jmp));
    entries.push(row(&vec![l, t, s], Opcode::Jz));
    entries.push(row(&vec![l, l, l], Opcode::End));
    let table = PrefixTable { entries };
    assert(table@ =~= standard_rows());
    table
}

/// Decodes the instruction that begins at `pos`: the first row of the table
/// that the tokens from there spell, followed, where its tag takes an
/// argument, by the digits up to the next line feed. Returns it with the
/// index behind it, or the error with the number of tokens.
pub fn parse_next(table: &PrefixTable, toks: &[Token], pos: usize) -> (r: (
    Result<Inst, DecodeError>,
    usize,
))
    requires
        table.wf(),
        pos < toks.len() <= MAX_TOKENS,
    ensures
        (item_view(r.0), r.1 as int) == decode_next(table@, toks@, pos as int),
        pos < r.1 <= toks.len(),
{
    proof {
        lemma_decode_progress(table@, toks@, pos as int);
    }
    let mut end: usize = pos;
    let mut prefix = TokenVec::new();
    let mut found: Option<Opcode> = None;
    while found.is_none() && end < toks.len()
        invariant
            table.wf(),
            prefix.wf(),
            pos <= end <= toks.len(),
            end - pos <= 29 ==> prefix@ == toks@.subrange(pos as int, end as int),
            found is None ==> find_opcode(table@, toks@, pos as int, pos + 1) == find_opcode(
                table@,
                toks@,
                pos as int,
                end + 1,
            ),
            found is Some ==> end > pos && find_opcode(table@, toks@, pos as int, pos + 1) == Some(
                (found.unwrap(), end as int),
            ),
        decreases
                toks.len() - end + (if found is None {
                    1int
                } else {
                    0int
                }),
    {
        end += 1;
        if end - pos <= 29 {
            prefix.push(toks[end - 1]);
            assert(prefix@ =~= toks@.subrange(pos as int, end as int));
            found = table.lookup(&prefix);
        } else {
            proof {
                table.lemma_long_run(toks@.subrange(pos as int, end as int), 0);
            }
        }
    }
    match found {
        None => (Err(DecodeError::TruncatedOpcode), toks.len()),
        Some(op) => {
            if !op.has_arg() {
                return (Ok(Inst::new(op, BitSeq::new())), end);
            }
            let mut bits = BitSeq::new();
            let mut p: usize = end;
            let mut terminated = false;
            assert(bits@ =~= arg_bits(toks@.subrange(end as int, p as int)));
            while p < toks.len() && !terminated
                invariant
                    end <= p <= toks.len() <= MAX_TOKENS,
                    bits@.len() <= p - end,
                    !terminated ==> find_terminator(toks@, end as int) == find_terminator(
                        toks@,
                        p as int,
                    ) && bits@ == arg_bits(toks@.subrange(end as int, p as int)),
                    terminated ==> p > end && find_terminator(toks@, end as int) == Some(p - 1)
                        && bits@ == arg_bits(toks@.subrange(end as int, p - 1)),
                decreases toks.len() - p,
            {
                match toks[p] {
                    Token::L => {
                        terminated = true;
                    },
                    Token::T => {
                        bits.push(true);
                        assert(bits@ =~= arg_bits(toks@.subrange(end as int, p + 1)));
                    },
                    Token::S => {
                        bits.push(false);
                        assert(bits@ =~= arg_bits(toks@.subrange(end as int, p + 1)));
                    },
                }
                p += 1;
            }
            if terminated {
                (Ok(Inst::new(op, bits)), p)
            } else {
                (Err(DecodeError::UnterminatedArgument), toks.len())
            }
        },
    }
}

/// Decodes tokens into instructions, one after the other from the first
/// token on. Decoding ends with the tokens or after the first error.
pub fn parse(table: &PrefixTable, toks: &[Token]) -> (out: Vec<Result<Inst, DecodeError>>)
    requires
        table.wf(),
        toks.len() <= MAX_TOKENS,
    ensures
        items_view(out@) == decode_spec(table@, toks@, 0),
{
    let mut out: Vec<Result<Inst, DecodeError>> = Vec::new();
    let mut pos: usize = 0;
    assert(items_view(out@) + decode_spec(table@, toks@, 0) =~= decode_spec(table@, toks@, 0));
    while pos < toks.len()
        invariant
            table.wf(),
            pos <= toks.len() <= MAX_TOKENS,
            items_view(out@) + decode_spec(table@, toks@, pos as int) == decode_spec(
                table@,
                toks@,
                0,
            ),
        decreases toks.len() - pos,
    {
        let ghost before = out@;
        let (item, next) = parse_next(table, toks, pos);
        let ghost plain = item_view(item);
        let failed = item.is_err();
        out.push(item);
        assert(items_view(out@) =~= items_view(before) + seq![plain]);
        if failed {
            return out;
        }
        assert(items_view(out@) + decode_spec(table@, toks@, next as int) =~= items_view(before)
            + decode_spec(table@, toks@, pos as int));
        pos = next;
    }
    assert(items_view(out@) + Seq::empty() =~= items_view(out@));
    out
}

/// What decoding a lexer's output yields: the decoded items, and the error of
/// the lexer where it met one.
#[derive(Debug)]
pub struct Parsed<T> {
    pub items: Vec<Result<Inst, DecodeError>>,
    pub error: Option<EncodingError<T>>,
}

/// Decodes what a lexer yielded. Where the lexer ended with an error, that
/// error ends the result in place of the decoder's own: the instructions
/// decoded in full stand before it.
pub fn parse_lexed<T>(table: &PrefixTable, lexed: Lexed<T>) -> (r: Parsed<T>)
    requires
        table.wf(),
        lexed.tokens@.len() <= MAX_TOKENS,
    ensures
        items_view(r.items@) == complete_items(
            decode_spec(table@, lexed.tokens@, 0),
            lexed.error is Some,
        ),
        r.error == lexed.error,
{
    let mut items = parse(table, lexed.tokens.as_slice());
    if lexed.error.is_some() && items.len() > 0 {
        let ghost all = items@;
        if items[items.len() - 1].is_err() {
            items.pop();
            assert(items_view(items@) =~= items_view(all).drop_last());
        }
    }
    Parsed { items, error: lexed.error }
}

/// Where every run of the tokens shorter than `end` and every run from `end`
/// on but the whole is no row's prefix, the search finds what the whole is.
proof fn lemma_find_at_end(rows: Rows, run: Seq<Token>, end: int)
    requires
        0 <= end <= run.len(),
        forall|e: int|
            end <= e < run.len() ==> lookup_from(rows, #[trigger] run.subrange(0, e), 0) is None,
    ensures
        find_opcode(rows, run, 0, end) == match lookup_from(rows, run, 0) {
            Some(op) => Some((op, run.len() as int)),
            None => None::<(Opcode, int)>,
        },
    decreases run.len() - end,
{
    if end < run.len() {
        lemma_find_at_end(rows, run, end + 1);
    } else {
        assert(run.subrange(0, end) =~= run);
        assert(find_opcode(rows, run, 0, end + 1) is None);
    }
}

proof fn lemma_no_terminator(run: Seq<Token>, pos: int)
    requires
        0 <= pos,
        forall|i: int| pos <= i < run.len() ==> run[i] != Token::L,
    ensures
        find_terminator(run, pos) is None,
    decreases run.len() - pos,
{
    if pos < run.len() {
        lemma_no_terminator(run, pos + 1);
    }
}

proof fn lemma_terminator_at_end(run: Seq<Token>, pos: int)
    requires
        0 <= pos < run.len(),
        run.last() == Token::L,
        forall|i: int| pos <= i < run.len() - 1 ==> run[i] != Token::L,
    ensures
        find_terminator(run, pos) == Some(run.len() - 1),
    decreases run.len() - pos,
{
    if pos < run.len() - 1 {
        lemma_terminator_at_end(run, pos + 1);
    }
}

/// A decoder that takes its tokens one at a time, from any source. It holds
/// what it has read of the instruction that is not yet complete.
pub struct Decoder {
    prefix: TokenVec,
    opcode: Option<Opcode>,
    bits: BitSeq,
    count: usize,
    pending: Ghost<Seq<Token>>,
    arg_at: Ghost<int>,
}

impl View for Decoder {
    type V = Seq<Token>;

    /// The tokens taken since the last complete instruction.
    closed spec fn view(&self) -> Seq<Token> {
        self.pending@
    }
}

impl Decoder {
    /// The state agrees with the tokens taken: they spell no instruction of
    /// the table yet, or an opcode and the digits of its unfinished argument.
    pub closed spec fn wf(&self, rows: Rows) -> bool {
        &&& self.count == self.pending@.len()
        &&& self.prefix.wf()
        &&& match self.opcode {
            None => {
                &&& self.pending@.len() <= 29 ==> self.prefix@ == self.pending@
                &&& forall|e: int|
                    1 <= e <= self.pending@.len() ==> lookup_from(
                        rows,
                        #[trigger] self.pending@.subrange(0, e),
                        0,
                    ) is None
            },
            Some(op) => {
                &&& op.has_arg_spec()
                &&& 0 < self.arg_at@ <= self.pending@.len()
                &&& find_opcode(rows, self.pending@, 0, 1) == Some((op, self.arg_at@))
                &&& find_terminator(self.pending@, self.arg_at@) is None
                &&& self.bits@ == arg_bits(
                    self.pending@.subrange(self.arg_at@, self.pending@.len() as int),
                )
            },
        }
    }

    /// A decoder before its first token.
    pub fn new(table: &PrefixTable) -> (d: Decoder)
        ensures
            d@ == Seq::<Token>::empty(),
            d.wf(table@),
    {
        let d = Decoder {
            prefix: TokenVec::new(),
            opcode: None,
            bits: BitSeq::new(),
            count: 0,
            pending: Ghost(Seq::empty()),
            arg_at: Ghost(0),
        };
        d
    }

    /// The number of tokens taken since the last complete instruction.
    pub fn pending(&self) -> (n: usize)
        ensures
            forall|rows: Rows| #[trigger] self.wf(rows) ==> n == self@.len(),
    {
        self.count
    }

    /// Takes one token. Where it completes an instruction, that instruction
    /// is returned and the decoder starts afresh; otherwise the token is
    /// added to what the decoder holds.
    pub fn feed(self, table: &PrefixTable, tok: Token) -> (r: (Decoder, Option<Inst>))
        requires
            table.wf(),
            self.wf(table@),
            self@.len() < MAX_TOKENS,
        ensures
            r.0.wf(table@),
            match decode_next(table@, self@.push(tok), 0).0 {
                Ok(plain) => r.1 is Some && r.1.unwrap()@ == plain && r.0@ == Seq::<Token>::empty(),
                Err(_) => r.1 is None && r.0@ == self@.push(tok),
            },
    {
        let ghost rows = table@;
        let ghost old_run = self.pending@;
        let ghost run = old_run.push(tok);
        let Decoder { prefix, opcode, bits, count, pending, arg_at } = self;
        let mut prefix = prefix;
        let mut bits = bits;
        proof {
            assert forall|e: int| 0 <= e <= old_run.len() implies #[trigger] run.subrange(0, e)
                == old_run.subrange(0, e) by {
                assert(run.subrange(0, e) =~= old_run.subrange(0, e));
            }
            assert(run.subrange(0, run.len() as int) =~= run);
        }
        match opcode {
            None => {
                let found = if count < 29 {
                    prefix.push(tok);
                    table.lookup(&prefix)
                } else {
                    proof {
                        table.lemma_long_run(run, 0);
                    }
                    None
                };
                proof {
                    assert forall|e: int| 1 <= e < run.len() implies lookup_from(
                        rows,
                        #[trigger] run.subrange(0, e),
                        0,
                    ) is None by {
                        assert(run.subrange(0, e) == old_run.subrange(0, e));
                    }
                    lemma_find_at_end(rows, run, 1);
                    lemma_no_terminator(run, run.len() as int);
                }
                match found {
                    None => {
                        let next = Decoder {
                            prefix,
                            opcode: None,
                            bits,
                            count: count + 1,
                            pending: Ghost(run),
                            arg_at,
                        };
                        proof {
                            assert forall|e: int| 1 <= e <= run.len() implies lookup_from(
                                rows,
                                #[trigger] next.pending@.subrange(0, e),
                                0,
                            ) is None by {
                                if e < run.len() {
                                    assert(run.subrange(0, e) == old_run.subrange(0, e));
                                }
                            }
                        }
                        (next, None)
                    },
                    Some(op) => {
                        if op.has_arg() {
                            let next = Decoder {
                                prefix,
                                opcode: Some(op),
                                bits: BitSeq::new(),
                                count: count + 1,
                                pending: Ghost(run),
                                arg_at: Ghost(run.len() as int),
                            };
                            assert(next.bits@ =~= arg_bits(
                                run.subrange(run.len() as int, run.len() as int),
                            ));
                            (next, None)
                        } else {
                            let fresh = Decoder {
                                prefix: TokenVec::new(),
                                opcode: None,
                                bits,
                                count: 0,
                                pending: Ghost(Seq::empty()),
                                arg_at,
                            };
                            (fresh, Some(Inst::new(op, BitSeq::new())))
                        }
                    },
                }
            },
            Some(op) => {
                proof {
                    assert(old_run.take(arg_at@) =~= run.take(arg_at@));
                    lemma_find_opcode_agrees(rows, old_run, run, 0, 1, arg_at@);
                    lemma_find_terminator(old_run, arg_at@);
                }
                match tok {
                    Token::L => {
                        proof {
                            lemma_terminator_at_end(run, arg_at@);
                            assert(run.subrange(arg_at@, run.len() - 1) =~= old_run.subrange(
                                arg_at@,
                                old_run.len() as int,
                            ));
                        }
                        let fresh = Decoder {
                            prefix: TokenVec::new(),
                            opcode: None,
                            bits: BitSeq::new(),
                            count: 0,
                            pending: Ghost(Seq::empty()),
                            arg_at,
                        };
                        (fresh, Some(Inst::new(op, bits)))
                    },
                    _ => {
                        bits.push(tok == Token::T);
                        let next = Decoder {
                            prefix,
                            opcode: Some(op),
                            bits,
                            count: count + 1,
                            pending: Ghost(run),
                            arg_at,
                        };
                        proof {
                            lemma_no_terminator(run, arg_at@);
                            assert(next.bits@ =~= arg_bits(run.subrange(arg_at@, run.len() as int)));
                        }
                        (next, None)
                    },
                }
            },
        }
    }

    /// What the end of the tokens means: nothing where the decoder holds no
    /// token, else the error of the instruction that is left incomplete.
    pub fn finish(&self, table: &PrefixTable) -> (r: Option<DecodeError>)
        requires
            table.wf(),
            self.wf(table@),
        ensures
            self@.len() == 0 ==> r is None,
            self@.len() > 0 ==> Err::<(Opcode, Seq<bool>), DecodeError>(r.unwrap()) == decode_next(
                table@,
                self@,
                0,
            ).0 && r is Some,
    {
        if self.count == 0 {
            None
        } else {
            match self.opcode {
                None => {
                    proof {
                        let run = self.pending@;
                        assert(run.subrange(0, run.len() as int) =~= run);
                        lemma_find_at_end(table@, run, 1);
                    }
                    Some(DecodeError::TruncatedOpcode)
                },
                Some(_) => Some(DecodeError::UnterminatedArgument),
            }
        }
    }
}

} // verus!
