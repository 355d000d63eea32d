use rust_bpe::token::{digram_key, key_digram, token_key};
use rust_bpe::vocabulary::{top_n_tokens, UnknownSymbol};
use rust_bpe::{Token, Vocabulary};

#[test]
fn new_vocabulary_is_empty() {
    let vocab = Vocabulary::new();
    assert_eq!(vocab.len(), 0);
    assert_eq!(vocab.token(0), None);
    assert_eq!(vocab.cached(), None);
}

#[test]
fn ids_are_dense_in_order_of_registration() {
    let mut vocab = Vocabulary::new();
    let symbols = [
        Token::Unit('x'),
        Token::Unit('y'),
        Token::Composition(0, 1),
        Token::Unit('z'),
        Token::Composition(2, 3),
        Token::Composition(1, 0),
    ];
    for (rank, symbol) in symbols.iter().enumerate() {
        let id = vocab.push(*symbol);
        assert_eq!(id as usize, rank);
        assert_eq!(vocab.len() as usize, rank + 1);
    }
    for (rank, symbol) in symbols.iter().enumerate() {
        assert_eq!(vocab.token(rank as u32), Some(*symbol));
        assert_eq!(vocab.id_of(*symbol), Some(rank as u32));
    }
    assert_eq!(vocab.token(6), None);
    assert_eq!(vocab.id_of(Token::Unit('q')), None);
}

#[test]
fn registering_twice_gives_the_same_id() {
    let mut vocab = Vocabulary::new();
    let a = vocab.push(Token::Unit('a'));
    let b = vocab.push(Token::Unit('b'));
    let ab = vocab.push(Token::Composition(a, b));
    assert_eq!((a, b, ab), (0, 1, 2));
    assert_eq!(vocab.push(Token::Unit('a')), 0);
    assert_eq!(vocab.len(), 3);
    assert_eq!(vocab.push(Token::Composition(0, 1)), 2);
    assert_eq!(vocab.len(), 3);
    assert_eq!(vocab.push(Token::Unit('b')), 1);
    assert_eq!(vocab.len(), 3);
    // the reversed pair is another symbol
    assert_eq!(vocab.push(Token::Composition(1, 0)), 3);
    assert_eq!(vocab.len(), 4);
}

#[test]
fn leaf_and_composition_with_equal_numbers_differ() {
    // 'a' is code point 97; the composition (0, 97) has the same low bits
    let mut vocab = Vocabulary::new();
    assert_eq!(vocab.push(Token::Unit('a')), 0);
    assert_eq!(vocab.push(Token::Composition(0, 97)), 1);
    assert_eq!(vocab.push(Token::Unit('\u{0}')), 2);
    assert_eq!(vocab.push(Token::Composition(0, 0)), 3);
    assert_eq!(vocab.len(), 4);
}

#[test]
fn keys_of_symbols_and_digrams() {
    assert_eq!(digram_key((1, 2)), 4_294_967_298);
    assert_eq!(digram_key((0, 0)), 0);
    assert_eq!(digram_key((u32::MAX, u32::MAX)), u64::MAX);
    assert_eq!(key_digram(4_294_967_298), (1, 2));
    assert_eq!(key_digram(u64::MAX), (u32::MAX, u32::MAX));
    assert_eq!(key_digram(7), (0, 7));
    assert_eq!(token_key(Token::Unit('a')), 97);
    assert_eq!(token_key(Token::Unit('\u{10FFFF}')), 0x10FFFF);
    assert_eq!(
        token_key(Token::Composition(1, 2)),
        18_446_744_073_709_551_616u128 + 4_294_967_298u128
    );
    assert_eq!(token_key(Token::Composition(0, 97)), 18_446_744_073_709_551_616u128 + 97);
}

#[test]
fn new_id_composes_registered_operands() {
    let mut vocab = Vocabulary::new();
    vocab.push(Token::Unit('a'));
    vocab.push(Token::Unit('b'));
    assert_eq!(vocab.new_id((0, 1)), Some(2));
    assert_eq!(vocab.token(2), Some(Token::Composition(0, 1)));
    // reuse
    assert_eq!(vocab.new_id((0, 1)), Some(2));
    assert_eq!(vocab.len(), 3);
    // a composition may be an operand
    assert_eq!(vocab.new_id((2, 2)), Some(3));
    assert_eq!(vocab.len(), 4);
}

#[test]
fn new_id_refuses_unregistered_operands() {
    let mut vocab = Vocabulary::new();
    assert_eq!(vocab.new_id((0, 0)), None);
    vocab.push(Token::Unit('a'));
    vocab.push(Token::Unit('b'));
    assert_eq!(vocab.new_id((0, 2)), None);
    assert_eq!(vocab.new_id((2, 0)), None);
    assert_eq!(vocab.new_id((7, 9)), None);
    assert_eq!(vocab.len(), 2);
    assert_eq!(vocab.token(2), None);
}

#[test]
fn decode_single_expands_left_then_right() {
    let mut vocab = Vocabulary::new();
    let a = vocab.push(Token::Unit('a'));
    let b = vocab.push(Token::Unit('b'));
    let ab = vocab.new_id((a, b)).unwrap();
    let aba = vocab.new_id((ab, a)).unwrap();
    let deep = vocab.new_id((aba, ab)).unwrap();
    let mut s = String::new();
    vocab.decode_single(&a, &mut s);
    assert_eq!(s, "a");
    vocab.decode_single(&ab, &mut s);
    assert_eq!(s, "aab");
    let mut t = String::from("> ");
    vocab.decode_single(&deep, &mut t);
    assert_eq!(t, "> abaab");
    let mut u = String::new();
    vocab.decode_single(&aba, &mut u);
    assert_eq!(u, "aba");
}

#[test]
fn decode_single_keeps_wide_characters() {
    let mut vocab = Vocabulary::new();
    let x = vocab.push(Token::Unit('ß'));
    let y = vocab.push(Token::Unit('語'));
    let z = vocab.push(Token::Unit('\u{1F600}'));
    let xy = vocab.new_id((x, y)).unwrap();
    let xyz = vocab.new_id((xy, z)).unwrap();
    let mut s = String::new();
    vocab.decode_single(&xyz, &mut s);
    assert_eq!(s, "ß語\u{1F600}");
}

#[test]
fn decode_appends_in_order_and_skips_unknown_ids() {
    let mut vocab = Vocabulary::new();
    let a = vocab.push(Token::Unit('a'));
    let b = vocab.push(Token::Unit('b'));
    let ab = vocab.new_id((a, b)).unwrap();
    let mut s = String::from("[");
    vocab.decode(&[ab, 99, a, 3, b, ab], &mut s);
    assert_eq!(s, "[ababab");
    assert_eq!(vocab.cached(), Some(3));
    let mut empty = String::new();
    vocab.decode(&[], &mut empty);
    assert_eq!(empty, "");
    let mut none = String::new();
    vocab.decode(&[3, 4, u32::MAX], &mut none);
    assert_eq!(none, "");
}

#[test]
fn decode_table_is_a_snapshot() {
    let mut vocab = Vocabulary::new();
    let a = vocab.push(Token::Unit('a'));
    let b = vocab.push(Token::Unit('b'));
    let mut s = String::new();
    vocab.decode(&[a, b], &mut s);
    assert_eq!(s, "ab");
    assert_eq!(vocab.cached(), Some(2));
    // registered after the table was built: bulk decoding passes it over
    let c = vocab.push(Token::Unit('c'));
    let ab = vocab.new_id((a, b)).unwrap();
    assert_eq!(vocab.cached(), Some(2));
    let mut t = String::new();
    vocab.decode(&[a, c, ab, b], &mut t);
    assert_eq!(t, "ab");
    // single expansion still knows it
    let mut u = String::new();
    vocab.decode_single(&ab, &mut u);
    vocab.decode_single(&c, &mut u);
    assert_eq!(u, "abc");
}

#[test]
fn decode_on_an_empty_vocabulary() {
    let mut vocab = Vocabulary::new();
    let mut s = String::new();
    vocab.decode(&[0, 1, 2], &mut s);
    assert_eq!(s, "");
    assert_eq!(vocab.cached(), Some(0));
}

#[test]
fn top_n_tokens_lists_the_newest_first() {
    let mut vocab = Vocabulary::new();
    let a = vocab.push(Token::Unit('a'));
    let b = vocab.push(Token::Unit('b'));
    let ab = vocab.new_id((a, b)).unwrap();
    vocab.new_id((ab, ab)).unwrap();
    assert_eq!(top_n_tokens(&mut vocab, 0), Vec::<String>::new());
    assert_eq!(vocab.cached(), None);
    assert_eq!(top_n_tokens(&mut vocab, 2), vec!["abab".to_string(), "ab".to_string()]);
    assert_eq!(vocab.cached(), Some(4));
    assert_eq!(
        top_n_tokens(&mut vocab, 100),
        vec!["abab".to_string(), "ab".to_string(), "b".to_string(), "a".to_string()]
    );
    // a token that the table does not hold has an empty text
    vocab.push(Token::Unit('c'));
    assert_eq!(top_n_tokens(&mut vocab, 2), vec!["".to_string(), "abab".to_string()]);
}

#[test]
fn top_n_tokens_of_an_empty_vocabulary() {
    let mut vocab = Vocabulary::new();
    assert_eq!(top_n_tokens(&mut vocab, 5), Vec::<String>::new());
    assert_eq!(vocab.cached(), None);
}

#[test]
fn decode_single_of_a_long_chain() {
    let mut vocab = Vocabulary::new();
    let a = vocab.push(Token::Unit('a'));
    let b = vocab.push(Token::Unit('b'));
    let mut top = vocab.new_id((a, b)).unwrap();
    for _ in 0..100_000 {
        top = vocab.new_id((top, a)).unwrap();
    }
    let mut left_deep = String::new();
    vocab.decode_single(&top, &mut left_deep);
    assert_eq!(left_deep.len(), 100_002);
    assert!(left_deep.starts_with("abaaa"));
    let mut top = vocab.new_id((b, a)).unwrap();
    for _ in 0..100_000 {
        top = vocab.new_id((a, top)).unwrap();
    }
    let mut right_deep = String::new();
    vocab.decode_single(&top, &mut right_deep);
    assert_eq!(right_deep.len(), 100_002);
    assert!(right_deep.ends_with("aaaba"));
}

#[test]
fn push_takes_any_composition() {
    let mut vocab = Vocabulary::new();
    assert!(vocab.is_grounded());
    assert_eq!(vocab.push(Token::Unit('a')), 0);
    assert_eq!(vocab.push(Token::Composition(0, 0)), 1);
    assert!(vocab.is_grounded());
    // operands that are not registered: the token is stored all the same
    assert_eq!(vocab.push(Token::Composition(7, 0)), 2);
    assert_eq!(vocab.len(), 3);
    assert_eq!(vocab.token(2), Some(Token::Composition(7, 0)));
    assert_eq!(vocab.push(Token::Composition(7, 0)), 2);
    assert!(!vocab.is_grounded());
    // the tokens before it expand as before
    let mut s = String::new();
    vocab.decode_single(&1, &mut s);
    assert_eq!(s, "aa");
}

#[test]
fn is_grounded_wants_operands_below_the_token() {
    let mut vocab = Vocabulary::new();
    assert_eq!(vocab.push(Token::Composition(0, 0)), 0);
    assert!(!vocab.is_grounded());
    let mut vocab = Vocabulary::new();
    vocab.push(Token::Unit('a'));
    vocab.push(Token::Composition(0, 1));
    assert!(!vocab.is_grounded());
    let mut vocab = Vocabulary::new();
    vocab.push(Token::Unit('a'));
    vocab.push(Token::Unit('b'));
    vocab.push(Token::Composition(1, 0));
    vocab.push(Token::Composition(2, 2));
    assert!(vocab.is_grounded());
}

#[test]
fn cached_text_holds_what_the_table_holds() {
    let mut vocab = Vocabulary::new();
    let a = vocab.push(Token::Unit('a'));
    let b = vocab.push(Token::Unit('b'));
    let ab = vocab.new_id((a, b)).unwrap();
    assert_eq!(vocab.cached_text(ab), None);
    vocab.decode(&[], &mut String::new());
    assert_eq!(vocab.cached_text(a), Some("a".to_string()));
    assert_eq!(vocab.cached_text(ab), Some("ab".to_string()));
    assert_eq!(vocab.cached_text(3), None);
    let abab = vocab.new_id((ab, ab)).unwrap();
    assert_eq!(abab, 3);
    assert_eq!(vocab.cached_text(abab), None);
    assert_eq!(vocab.cached(), Some(3));
}

#[test]
fn expand_one_fails_on_an_unknown_id() {
    let mut vocab = Vocabulary::new();
    let mut s = String::from("kept");
    assert_eq!(vocab.expand_one(0, &mut s), Err(UnknownSymbol { id: 0 }));
    let a = vocab.push(Token::Unit('a'));
    let b = vocab.push(Token::Unit('b'));
    let ba = vocab.new_id((b, a)).unwrap();
    assert_eq!(vocab.expand_one(3, &mut s), Err(UnknownSymbol { id: 3 }));
    assert_eq!(vocab.expand_one(u32::MAX, &mut s), Err(UnknownSymbol { id: u32::MAX }));
    assert_eq!(s, "kept");
    assert_eq!(vocab.expand_one(ba, &mut s), Ok(()));
    assert_eq!(s, "keptba");
    assert_eq!(vocab.expand_one(a, &mut s), Ok(()));
    assert_eq!(s, "keptbaa");
}
