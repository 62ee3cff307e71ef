use nebula2::ws::bit_pack::{bit_pack_padded, bit_unpack_padded};
use nebula2::ws::bits::BitSeq;
use nebula2::ws::inst::{Inst, Opcode};
use nebula2::ws::lex::Lexed;
use nebula2::ws::parse::{parse_lexed, parse_next, Decoder, MAX_TOKENS};
use nebula2::ws::lex::{
    lex as lex_symbols, lex_next, lex_packed, stl_bytes, stl_chars, whitespace_bytes, EncodingError,
};
use nebula2::ws::parse::{parse as parse_tokens, standard_table, DecodeError};
use nebula2::ws::token::Token::{self, L, S, T};
use nebula2::ws::token::TokenVec;

const TUTORIAL_STL: &[u8] = br"
S S S T L                    push 1
L S S S T S S S S T T L  label_C:
S L S                        dup
T L S T                      printi
S S S T S T S L              push 10
T L S S                      printc
S S S T L                    push 1
T S S S                      add
S L S                        dup
S S S T S T T L              push 11
T S S T                      sub
L T S S T S S S T S T L      jz label_E
L S L S T S S S S T T L      jmp label_C
L S S S T S S S T S T L  label_E:
S L L                        drop
L L L                        end
";

const TUTORIAL_TOKENS: &[Token] = &[
    S, S, S, T, L, L, S, S, S, T, S, S, S, S, T, T, L, S, L, S, T, L, S, T, S, S, S, T, S, T, S, L,
    T, L, S, S, S, S, S, T, L, T, S, S, S, S, L, S, S, S, S, T, S, T, T, L, T, S, S, T, L, T, S, S,
    T, S, S, S, T, S, T, L, L, S, L, S, T, S, S, S, S, T, T, L, L, S, S, S, T, S, S, S, T, S, T, L,
    S, L, L, L, L, L,
];

const TUTORIAL_BITS: &[u8] = &[
    0b00000001, 0b10100000, 0b00010000, 0b00000101, 0b10001000, 0b01100001, 0b00000001, 0b00010010,
    0b01100000, 0b00000001, 0b10010000, 0b00001000, 0b00000001, 0b00010110, 0b01000001, 0b10010000,
    0b01000000, 0b01000110, 0b10001000, 0b01000000, 0b00010110, 0b10000000, 0b01000000, 0b01000110,
    0b00101010, 0b10101111,
];

fn bits(digits: &[u8]) -> BitSeq {
    let bools: Vec<bool> = digits.iter().map(|d| *d != 0).collect();
    BitSeq::from_bools(&bools)
}

fn get_tutorial_insts() -> Vec<Result<Inst, DecodeError>> {
    vec![
        Ok(Inst::Push(bits(&[0, 1]))),
        Ok(Inst::Label(bits(&[0, 1, 0, 0, 0, 0, 1, 1]))),
        Ok(Inst::Dup),
        Ok(Inst::Printi),
        Ok(Inst::Push(bits(&[0, 1, 0, 1, 0]))),
        Ok(Inst::Printc),
        Ok(Inst::Push(bits(&[0, 1]))),
        Ok(Inst::Add),
        Ok(Inst::Dup),
        Ok(Inst::Push(bits(&[0, 1, 0, 1, 1]))),
        Ok(Inst::Sub),
        Ok(Inst::Jz(bits(&[0, 1, 0, 0, 0, 1, 0, 1]))),
        Ok(Inst::Jmp(bits(&[0, 1, 0, 0, 0, 0, 1, 1]))),
        Ok(Inst::Label(bits(&[0, 1, 0, 0, 0, 1, 0, 1]))),
        Ok(Inst::Drop),
        Ok(Inst::End),
    ]
}

fn tutorial_chars() -> Vec<char> {
    std::str::from_utf8(TUTORIAL_STL).unwrap().chars().collect()
}

#[test]
fn lex() -> Result<(), EncodingError<char>> {
    let toks = lex_symbols(&tutorial_chars(), &stl_chars(), true).into_result()?;
    assert_eq!(TUTORIAL_TOKENS, toks);
    Ok(())
}

#[test]
fn byte_lex() -> Result<(), EncodingError<u8>> {
    let toks = lex_symbols(TUTORIAL_STL, &stl_bytes(), true).into_result()?;
    assert_eq!(TUTORIAL_TOKENS, toks);
    Ok(())
}

#[test]
fn bit_pack() {
    let bits = bit_pack_padded(TUTORIAL_TOKENS);
    assert_eq!(TUTORIAL_BITS, bits);
}

#[test]
fn bit_unpack() {
    let toks = bit_unpack_padded(TUTORIAL_BITS);
    assert_eq!(TUTORIAL_TOKENS, toks);
}

#[test]
fn parse() {
    let toks = lex_symbols(&tutorial_chars(), &stl_chars(), true).tokens;
    let insts = parse_tokens(&standard_table(), &toks);
    assert_eq!(get_tutorial_insts(), insts);
}

#[test]
fn parse_dyn() {
    let sources: [Vec<Token>; 3] = [
        lex_symbols(&tutorial_chars(), &stl_chars(), true).tokens,
        lex_symbols(TUTORIAL_STL, &stl_bytes(), true).tokens,
        bit_unpack_padded(TUTORIAL_BITS),
    ];
    for toks in sources {
        let insts = parse_tokens(&standard_table(), &toks);
        assert_eq!(get_tutorial_insts(), insts);
    }
}

#[test]
fn strict_lexer_fails_at_first_unmapped_symbol() {
    let src: Vec<char> = "ST xL".chars().collect();
    let lexed = lex_symbols(&src, &stl_chars(), false);
    assert_eq!(lexed.tokens, vec![S, T]);
    assert_eq!(lexed.error, Some(EncodingError { symbol: ' ', position: 2 }));
    let strict = lex_symbols(&tutorial_chars(), &stl_chars(), false);
    assert_eq!(strict.tokens, Vec::<Token>::new());
    assert_eq!(strict.error, Some(EncodingError { symbol: '\n', position: 0 }));
    assert_eq!(strict.into_result(), Err(EncodingError { symbol: '\n', position: 0 }));
}

#[test]
fn lenient_lexer_skips_commentary() {
    let src: Vec<char> = "push: S S, then T; end L.".chars().collect();
    let lexed = lex_symbols(&src, &stl_chars(), true);
    assert_eq!(lexed.tokens, vec![S, S, T, L]);
    assert_eq!(lexed.error, None);
}

#[test]
fn strict_lexer_accepts_clean_source() {
    let src: Vec<char> = "STLLTS".chars().collect();
    let lexed = lex_symbols(&src, &stl_chars(), false);
    assert_eq!(lexed.into_result(), Ok(vec![S, T, L, L, T, S]));
}

#[test]
fn empty_source_lexes_to_nothing() {
    let lexed = lex_symbols(&[] as &[u8], &stl_bytes(), false);
    assert_eq!(lexed.tokens, Vec::<Token>::new());
    assert_eq!(lexed.error, None);
}

#[test]
fn whitespace_bytes_scheme() {
    let m = whitespace_bytes();
    assert_eq!(m.lookup(b' '), Some(S));
    assert_eq!(m.lookup(b'\t'), Some(T));
    assert_eq!(m.lookup(b'\n'), Some(L));
    assert_eq!(m.lookup(b'x'), None);
    assert_eq!(m.symbol(S), b' ');
    assert_eq!(m.symbol(T), b'\t');
    assert_eq!(m.symbol(L), b'\n');
    let lexed = lex_symbols(b"  \t\n", &m, false);
    assert_eq!(lexed.into_result(), Ok(vec![S, S, T, L]));
    let strict = lex_symbols(b" \tx\n", &m, false);
    assert_eq!(strict.error, Some(EncodingError { symbol: b'x', position: 2 }));
}

#[test]
fn pack_edge_cases() {
    assert_eq!(bit_pack_padded(&[]), Vec::<u8>::new());
    assert_eq!(bit_pack_padded(&[S]), vec![0b00111111]);
    assert_eq!(bit_pack_padded(&[T]), vec![0b01111111]);
    assert_eq!(bit_pack_padded(&[L]), vec![0b10111111]);
    assert_eq!(bit_pack_padded(&[T, L, S, T]), vec![0b01100001]);
    assert_eq!(bit_pack_padded(&[T, L, S, T, L]), vec![0b01100001, 0b10111111]);
}

#[test]
fn unpack_edge_cases() {
    assert_eq!(bit_unpack_padded(&[]), Vec::<Token>::new());
    assert_eq!(bit_unpack_padded(&[0b11000000]), Vec::<Token>::new());
    assert_eq!(bit_unpack_padded(&[0b01100001]), vec![T, L, S, T]);
    assert_eq!(bit_unpack_padded(&[0b01100011, 0b00000000]), vec![T, L, S]);
    assert_eq!(bit_unpack_padded(&[0b00000000]), vec![S, S, S, S]);
}

#[test]
fn pack_round_trip() {
    let mut toks: Vec<Token> = Vec::new();
    for n in 0..40usize {
        assert_eq!(bit_unpack_padded(&bit_pack_padded(&toks)), toks);
        toks.push([S, T, L][(n * 7 + n / 3) % 3]);
    }
}

#[test]
fn truncated_opcode() {
    let insts = parse_tokens(&standard_table(), &[S, L, S, T]);
    assert_eq!(insts, vec![Ok(Inst::Dup), Err(DecodeError::TruncatedOpcode)]);
    let insts = parse_tokens(&standard_table(), &[T, T, S, S, L, L, L]);
    assert_eq!(insts, vec![Err(DecodeError::TruncatedOpcode)]);
}

#[test]
fn unterminated_argument() {
    let insts = parse_tokens(&standard_table(), &[L, L, L, S, S, T, S, T]);
    assert_eq!(insts, vec![Ok(Inst::End), Err(DecodeError::UnterminatedArgument)]);
}

#[test]
fn empty_argument_and_empty_input() {
    let insts = parse_tokens(&standard_table(), &[S, S, L]);
    assert_eq!(insts, vec![Ok(Inst::Push(bits(&[])))]);
    assert_eq!(parse_tokens(&standard_table(), &[]), vec![]);
}

#[test]
fn long_argument() {
    let mut toks = vec![L, T, S];
    let mut digits = Vec::new();
    for i in 0..40usize {
        toks.push(if i % 3 == 0 { T } else { S });
        digits.push(i % 3 == 0);
    }
    let digits = BitSeq::from_bools(&digits);
    toks.push(L);
    toks.extend_from_slice(&[T, S, S, T]);
    let insts = parse_tokens(&standard_table(), &toks);
    assert_eq!(insts, vec![Ok(Inst::Jz(digits)), Ok(Inst::Sub)]);
}

#[test]
fn instruction_parts() {
    let push = Inst::new(Opcode::Push, bits(&[1, 0]));
    assert_eq!(push, Inst::Push(bits(&[1, 0])));
    assert_eq!(push.opcode(), Opcode::Push);
    assert_eq!(Inst::new(Opcode::Dup, bits(&[1, 0])), Inst::Dup);
    assert_eq!(Inst::new(Opcode::End, bits(&[])).opcode(), Opcode::End);
    assert!(Opcode::Push.has_arg());
    assert!(Opcode::Label.has_arg());
    assert!(Opcode::Jz.has_arg());
    assert!(Opcode::Jmp.has_arg());
    assert!(!Opcode::Add.has_arg());
    assert!(!Opcode::End.has_arg());
    assert_ne!(Inst::Push(bits(&[1, 0])), Inst::Push(bits(&[0, 1])));
    assert_ne!(Inst::Push(bits(&[1])), Inst::Push(bits(&[1, 0])));
}

#[test]
fn table_lookup() {
    let table = standard_table();
    assert_eq!(table.entries.len(), 11);
    assert_eq!(table.lookup(&TokenVec::from_slice(&[S, S])), Some(Opcode::Push));
    assert_eq!(table.lookup(&TokenVec::from_slice(&[L, T, S])), Some(Opcode::Jz));
    assert_eq!(table.lookup(&TokenVec::from_slice(&[T, L, S, T])), Some(Opcode::Printi));
    assert_eq!(table.lookup(&TokenVec::from_slice(&[T, L, S])), None);
    assert_eq!(table.lookup(&TokenVec::new()), None);
    let mut built = TokenVec::from_slice(&[L, L, L, T]);
    built.pop();
    assert_eq!(table.lookup(&built), Some(Opcode::End));
}

#[test]
fn lexer_error_ends_the_decoding() {
    assert!(TUTORIAL_TOKENS.len() <= MAX_TOKENS);
    let src: Vec<char> = "SLS SS TS x TL".chars().collect();
    let strict = lex_symbols(&src, &stl_chars(), false);
    let parsed = parse_lexed(&standard_table(), strict);
    assert_eq!(parsed.items, vec![Ok(Inst::Dup)]);
    assert_eq!(parsed.error, Some(EncodingError { symbol: ' ', position: 3 }));

    let lenient = lex_symbols(&src, &stl_chars(), true);
    let parsed = parse_lexed(&standard_table(), lenient);
    assert_eq!(parsed.items, vec![Ok(Inst::Dup), Ok(Inst::Push(bits(&[1, 0, 1])))]);
    assert_eq!(parsed.error, None);

    let cut = Lexed { tokens: vec![S, L, L, T], error: None::<EncodingError<u8>> };
    let parsed = parse_lexed(&standard_table(), cut);
    assert_eq!(parsed.items, vec![Ok(Inst::Drop), Err(DecodeError::TruncatedOpcode)]);

    let clean = Lexed { tokens: vec![S, L, L], error: Some(EncodingError { symbol: 7u8, position: 9 }) };
    let parsed = parse_lexed(&standard_table(), clean);
    assert_eq!(parsed.items, vec![Ok(Inst::Drop)]);
    assert_eq!(parsed.error, Some(EncodingError { symbol: 7u8, position: 9 }));
}

#[test]
fn packed_source_always_lexes() {
    let lexed = lex_packed(TUTORIAL_BITS);
    assert_eq!(lexed.error, None);
    assert_eq!(lexed.tokens, TUTORIAL_TOKENS);
    let parsed = parse_lexed(&standard_table(), lexed);
    assert_eq!(parsed.items, get_tutorial_insts());
}

#[test]
fn lexer_steps() {
    let src: Vec<char> = "a S bT".chars().collect();
    let m = stl_chars();
    assert_eq!(lex_next(&src, &m, true, 0), (Some(Ok(S)), 3));
    assert_eq!(lex_next(&src, &m, true, 3), (Some(Ok(T)), 6));
    assert_eq!(lex_next(&src, &m, true, 6), (None, 6));
    assert_eq!(lex_next(&src, &m, true, 4), (Some(Ok(T)), 6));
    assert_eq!(lex_next(&src, &m, false, 2), (Some(Ok(S)), 3));
    assert_eq!(
        lex_next(&src, &m, false, 3),
        (Some(Err(EncodingError { symbol: ' ', position: 3 })), 6)
    );
    assert_eq!(lex_next(&src, &m, false, 6), (None, 6));
    let trailing: Vec<char> = "L  ".chars().collect();
    assert_eq!(lex_next(&trailing, &m, true, 1), (None, 3));
}

#[test]
fn decoder_steps() {
    let table = standard_table();
    let toks = [S, S, T, S, L, T, S, S, S, L, S];
    assert_eq!(parse_next(&table, &toks, 0), (Ok(Inst::Push(bits(&[1, 0]))), 5));
    assert_eq!(parse_next(&table, &toks, 5), (Ok(Inst::Add), 9));
    assert_eq!(parse_next(&table, &toks, 9), (Err(DecodeError::TruncatedOpcode), 11));
    assert_eq!(parse_next(&table, &toks, 1), (Err(DecodeError::TruncatedOpcode), 11));
    assert_eq!(parse_next(&table, &[L, S, L, T, T], 0), (Err(DecodeError::UnterminatedArgument), 5));
}

fn feed_all(toks: &[Token]) -> (Vec<Inst>, Option<DecodeError>) {
    let table = standard_table();
    let mut decoder = Decoder::new(&table);
    let mut insts = Vec::new();
    for tok in toks {
        assert!(decoder.pending() < MAX_TOKENS);
        let (next, inst) = decoder.feed(&table, *tok);
        decoder = next;
        insts.extend(inst);
    }
    (insts, decoder.finish(&table))
}

#[test]
fn streaming_decoder_matches_whole_sequence() {
    let (insts, end) = feed_all(TUTORIAL_TOKENS);
    let expected: Vec<Inst> = get_tutorial_insts().into_iter().map(|item| item.unwrap()).collect();
    assert_eq!(insts, expected);
    assert_eq!(end, None);
}

#[test]
fn streaming_decoder_reports_incomplete_instructions() {
    assert_eq!(feed_all(&[]), (vec![], None));
    assert_eq!(feed_all(&[S, L, S, T]), (vec![Inst::Dup], Some(DecodeError::TruncatedOpcode)));
    assert_eq!(
        feed_all(&[L, L, L, S, S, T, S, T]),
        (vec![Inst::End], Some(DecodeError::UnterminatedArgument))
    );
    assert_eq!(feed_all(&[T, T, S, S, L, L, L]), (vec![], Some(DecodeError::TruncatedOpcode)));
    let mut long = vec![T; 40];
    long.extend_from_slice(&[L, L, L]);
    assert_eq!(feed_all(&long), (vec![], Some(DecodeError::TruncatedOpcode)));
}

#[test]
fn streaming_decoder_counts_pending_tokens() {
    let table = standard_table();
    let decoder = Decoder::new(&table);
    assert_eq!(decoder.pending(), 0);
    let (decoder, inst) = decoder.feed(&table, S);
    assert_eq!(inst, None);
    assert_eq!(decoder.pending(), 1);
    let (decoder, inst) = decoder.feed(&table, S);
    assert_eq!(inst, None);
    assert_eq!(decoder.pending(), 2);
    let (decoder, inst) = decoder.feed(&table, T);
    assert_eq!(inst, None);
    assert_eq!(decoder.pending(), 3);
    let (decoder, inst) = decoder.feed(&table, L);
    assert_eq!(inst, Some(Inst::Push(bits(&[1]))));
    assert_eq!(decoder.pending(), 0);
    assert_eq!(decoder.finish(&table), None);
}
