use nebula2::ws::bits::BitSeq;
use nebula2::ws::token::token_vec::CAPACITY;
use nebula2::ws::token::Token::{self, L, S, T};
use nebula2::ws::token::TokenVec;

fn sample(n: usize) -> Vec<Token> {
    (0..n).map(|i| [S, T, L][(i * 5 + i / 4) % 3]).collect()
}

#[test]
fn new_is_empty() {
    let v = TokenVec::new();
    assert_eq!(v.len(), 0);
    assert!(v.is_empty());
    assert_eq!(v.capacity(), 29);
    assert_eq!(CAPACITY, 29);
    assert_eq!(v.to_vec(), Vec::<Token>::new());
    assert_eq!(TokenVec::default(), TokenVec::new());
}

#[test]
fn push_then_get() {
    let mut v = TokenVec::new();
    v.push(T);
    v.push(L);
    v.push(S);
    assert_eq!(v.len(), 3);
    assert!(!v.is_empty());
    assert_eq!(v.get(0), T);
    assert_eq!(v.get(1), L);
    assert_eq!(v.get(2), S);
    assert_eq!(v.to_vec(), vec![T, L, S]);
}

#[test]
fn pop_returns_last() {
    let mut v = TokenVec::from_slice(&[S, T, L]);
    assert_eq!(v.pop(), L);
    assert_eq!(v.pop(), T);
    assert_eq!(v.to_vec(), vec![S]);
    assert_eq!(v.pop(), S);
    assert!(v.is_empty());
}

#[test]
fn push_front_and_pop_front() {
    let mut v = TokenVec::new();
    v.push_front(S);
    v.push_front(T);
    v.push_front(L);
    assert_eq!(v.to_vec(), vec![L, T, S]);
    assert_eq!(v.pop_front(), L);
    assert_eq!(v.to_vec(), vec![T, S]);
    assert_eq!(v.pop_front(), T);
    assert_eq!(v.pop_front(), S);
    assert_eq!(v.len(), 0);
}

#[test]
fn set_replaces_one_slot() {
    let mut v = TokenVec::from_slice(&[S, S, S, S]);
    v.set(2, L);
    assert_eq!(v.to_vec(), vec![S, S, L, S]);
    v.set(2, T);
    assert_eq!(v.to_vec(), vec![S, S, T, S]);
    v.set(0, L);
    v.set(3, T);
    assert_eq!(v.to_vec(), vec![L, S, T, T]);
    assert_eq!(v.len(), 4);
}

#[test]
fn slice_round_trip_up_to_capacity() {
    for n in 0..=29usize {
        let toks = sample(n);
        let v = TokenVec::from_slice(&toks);
        assert_eq!(v.len(), n);
        assert_eq!(v.size_hint(), (n, Some(n)));
        assert_eq!(v.to_vec(), toks);
        let mut it = v;
        let mut collected = Vec::new();
        while let Some(tok) = it.next() {
            collected.push(tok);
        }
        assert_eq!(collected, toks);
        assert_eq!(it.next(), None);
        assert_eq!(it.next_back(), None);
        assert_eq!(TokenVec::from_vec(toks.clone()).to_vec(), toks);
    }
}

#[test]
fn reverse_iteration_drains_from_the_back() {
    let mut v = TokenVec::from_slice(&[S, T, L, L]);
    assert_eq!(v.next_back(), Some(L));
    assert_eq!(v.next(), Some(S));
    assert_eq!(v.next_back(), Some(L));
    assert_eq!(v.next_back(), Some(T));
    assert_eq!(v.next_back(), None);
    assert_eq!(v.next(), None);
}

#[test]
fn try_from_slice_rejects_long_slices() {
    assert_eq!(TokenVec::try_from_slice(&sample(30)), None);
    let v = TokenVec::try_from_slice(&sample(29)).unwrap();
    assert_eq!(v.to_vec(), sample(29));
}

#[test]
fn front_back_symmetry() {
    for n in 0..=29usize {
        let toks = sample(n);
        let mut back = TokenVec::new();
        for tok in toks.iter() {
            back.push(*tok);
        }
        let mut front = TokenVec::new();
        for tok in toks.iter().rev() {
            front.push_front(*tok);
        }
        assert!(back == front);
        assert_eq!(back.to_vec(), toks);
        assert_eq!(front.to_vec(), toks);
    }
}

#[test]
fn equality_ignores_history() {
    let mut a = TokenVec::new();
    a.push(S);
    let mut b = TokenVec::new();
    b.push(S);
    b.push(L);
    b.push(T);
    b.pop();
    b.pop();
    assert!(a == b);
    let mut c = TokenVec::from_slice(&[L, T, S, T]);
    c.pop_front();
    c.pop_front();
    c.pop();
    assert!(a == c);
    let mut d = TokenVec::from_slice(&sample(29));
    while d.next_back().is_some() {}
    assert!(d == TokenVec::new());
    d.push(S);
    assert!(d == a);
}

#[test]
fn equality_tells_contents_and_lengths_apart() {
    let a = TokenVec::from_slice(&[S, T]);
    assert!(a != TokenVec::from_slice(&[S, L]));
    assert!(a != TokenVec::from_slice(&[S]));
    assert!(a != TokenVec::from_slice(&[S, T, S]));
    assert!(TokenVec::new() != TokenVec::from_slice(&[S]));
    assert!(TokenVec::from_slice(&sample(29)) == TokenVec::from_slice(&sample(29)));
    let mut full = TokenVec::from_slice(&sample(29));
    full.set(28, S);
    let mut other = TokenVec::from_slice(&sample(29));
    other.set(28, T);
    assert!(full != other);
}

#[test]
fn capacity_boundary() {
    let mut v = TokenVec::from_slice(&sample(28));
    assert!(v.try_push(T));
    assert_eq!(v.len(), 29);
    assert!(!v.try_push(L));
    assert!(!v.try_push_front(L));
    assert_eq!(v.len(), 29);
    let mut expected = sample(28);
    expected.push(T);
    assert_eq!(v.to_vec(), expected);

    let mut a = TokenVec::from_slice(&sample(15));
    let b = TokenVec::from_slice(&sample(15));
    assert!(!a.try_concat(&b));
    assert_eq!(a.to_vec(), sample(15));
    let c = TokenVec::from_slice(&sample(14));
    assert!(a.try_concat(&c));
    let mut joined = sample(15);
    joined.extend(sample(14));
    assert_eq!(a.to_vec(), joined);
}

#[test]
fn append_keeps_order() {
    let mut v = TokenVec::from_slice(&[L, L]);
    v.append(&[S, T, L]);
    assert_eq!(v.to_vec(), vec![L, L, S, T, L]);
    v.append(&[]);
    assert_eq!(v.to_vec(), vec![L, L, S, T, L]);
    let mut w = TokenVec::from_slice(&[T, T, T]);
    w.pop();
    w.pop();
    w.append(&[S, L]);
    assert_eq!(w.to_vec(), vec![T, S, L]);
}

#[test]
fn append_front_keeps_order() {
    let mut v = TokenVec::from_slice(&[L, L]);
    v.append_front(&[S, T, L]);
    assert_eq!(v.to_vec(), vec![S, T, L, L, L]);
    v.append_front(&[]);
    assert_eq!(v.to_vec(), vec![S, T, L, L, L]);
    let mut w = TokenVec::new();
    w.append_front(&sample(29));
    assert_eq!(w.to_vec(), sample(29));
}

#[test]
fn concat_ignores_unused_bits_of_the_other() {
    let mut a = TokenVec::from_slice(&[S, T]);
    let mut b = TokenVec::from_slice(&[L, T, L, L]);
    b.pop();
    b.pop();
    a.concat(&b);
    assert_eq!(a.to_vec(), vec![S, T, L, T]);
    a.push(S);
    assert_eq!(a.to_vec(), vec![S, T, L, T, S]);
    a.concat(&TokenVec::new());
    assert_eq!(a.to_vec(), vec![S, T, L, T, S]);
    let mut full = TokenVec::new();
    full.concat(&TokenVec::from_slice(&sample(29)));
    assert_eq!(full.to_vec(), sample(29));
}

#[test]
fn bit_seq_holds_bits_in_order() {
    let bools = [true, false, false, true, true];
    let bits = BitSeq::from_bools(&bools);
    assert_eq!(bits.to_bools(), bools.to_vec());
    assert_eq!(bits, BitSeq::from_bools(&bools));
    assert_eq!(BitSeq::from_bools(&[]).to_bools(), Vec::<bool>::new());
    assert_ne!(BitSeq::from_bools(&[false, true]), BitSeq::from_bools(&[true, false]));
}

#[test]
fn append_bits_maps_digits_to_tokens() {
    let bits = BitSeq::from_bools(&[false, true, true, false]);
    let mut v = TokenVec::from_slice(&[L]);
    v.append_bits(&bits);
    assert_eq!(v.to_vec(), vec![L, S, T, T, S]);
    let from = TokenVec::from_bits(&bits).unwrap();
    assert_eq!(from.to_vec(), vec![S, T, T, S]);
}

#[test]
fn append_bits_front_reverses_digits() {
    let bits = BitSeq::from_bools(&[false, true, true]);
    let mut v = TokenVec::from_slice(&[L]);
    v.append_bits_front(&bits);
    assert_eq!(v.to_vec(), vec![T, T, S, L]);
}

#[test]
fn bits_that_do_not_fit_are_rejected() {
    let bits = BitSeq::from_bools(&[true; 30]);
    assert!(TokenVec::from_bits(&bits).is_none());
    let mut v = TokenVec::from_slice(&[L, L]);
    assert!(!v.try_append_bits(&bits));
    assert!(!v.try_append_bits_front(&bits));
    assert_eq!(v.to_vec(), vec![L, L]);
    let fits = BitSeq::from_bools(&[true; 27]);
    assert!(v.try_append_bits(&fits));
    assert_eq!(v.len(), 29);
    assert_eq!(v.get(28), T);
    assert_eq!(v.get(1), L);
}

#[test]
fn token_codes() {
    assert_eq!(S.code(), 0);
    assert_eq!(T.code(), 1);
    assert_eq!(L.code(), 2);
    assert_eq!(Token::from_code(0), S);
    assert_eq!(Token::from_code(1), T);
    assert_eq!(Token::from_code(2), L);
    assert_eq!(Token::from_bit(false), S);
    assert_eq!(Token::from_bit(true), T);
    assert!(S < T && T < L);
}

#[test]
fn debug_string() {
    assert_eq!(TokenVec::new().to_debug_string(), "[]");
    assert_eq!(TokenVec::from_slice(&[L]).to_debug_string(), "[L]");
    assert_eq!(TokenVec::from_slice(&[S, T, L, S]).to_debug_string(), "[S T L S]");
}
