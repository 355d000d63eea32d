use rust_bpe::{Token, Vocabulary};

fn decoded(vocab: &mut Vocabulary, ids: &[u32]) -> String {
    let mut s = String::new();
    vocab.decode(ids, &mut s);
    s
}

#[test]
fn seed_registers_each_character_once() {
    let mut vocab = Vocabulary::new();
    let ids = vocab.preinitialize_vocabulary("abracadabra");
    assert_eq!(ids, vec![0, 1, 2, 0, 3, 0, 4, 0, 1, 2, 0]);
    assert_eq!(vocab.len(), 5);
    assert_eq!(vocab.token(0), Some(Token::Unit('a')));
    assert_eq!(vocab.token(1), Some(Token::Unit('b')));
    assert_eq!(vocab.token(2), Some(Token::Unit('r')));
    assert_eq!(vocab.token(3), Some(Token::Unit('c')));
    assert_eq!(vocab.token(4), Some(Token::Unit('d')));
}

#[test]
fn seed_goes_by_characters_not_bytes() {
    let mut vocab = Vocabulary::new();
    let ids = vocab.preinitialize_vocabulary("héé語h");
    assert_eq!(ids, vec![0, 1, 1, 2, 0]);
    assert_eq!(vocab.len(), 3);
    assert_eq!(vocab.token(1), Some(Token::Unit('é')));
    assert_eq!(vocab.token(2), Some(Token::Unit('語')));
}

#[test]
fn seed_of_an_empty_text() {
    let mut vocab = Vocabulary::new();
    assert_eq!(vocab.preinitialize_vocabulary(""), Vec::<u32>::new());
    assert_eq!(vocab.len(), 0);
}

#[test]
fn seed_reuses_what_is_registered() {
    let mut vocab = Vocabulary::new();
    vocab.push(Token::Unit('b'));
    vocab.push(Token::Unit('a'));
    vocab.push(Token::Composition(0, 1));
    let ids = vocab.preinitialize_vocabulary("abc");
    assert_eq!(ids, vec![1, 0, 3]);
    assert_eq!(vocab.len(), 4);
}

#[test]
fn learn_with_no_merges_is_the_seed() {
    let text = "aaabdaaabac";
    let mut seeded = Vocabulary::new();
    let ids = seeded.preinitialize_vocabulary(text);
    for (replacements, cutoff) in [(0usize, 0u32), (1, 0), (1, 1), (5, 0), (100, 3)] {
        let mut vocab = Vocabulary::new();
        let learned = vocab.learn(text, 0, replacements, cutoff);
        assert_eq!(learned, ids);
        assert_eq!(learned, vec![0, 0, 0, 1, 2, 0, 0, 0, 1, 0, 3]);
        assert_eq!(vocab.len(), 4);
    }
}

#[test]
fn learn_with_no_replacements_is_the_seed() {
    let mut vocab = Vocabulary::new();
    let learned = vocab.learn("aaabdaaabac", 10, 0, 0);
    assert_eq!(learned, vec![0, 0, 0, 1, 2, 0, 0, 0, 1, 0, 3]);
    assert_eq!(vocab.len(), 4);
}

#[test]
fn learn_stops_when_no_digram_exceeds_the_cutoff() {
    // every digram of the text occurs once
    let mut vocab = Vocabulary::new();
    let learned = vocab.learn("abcdefg", 10, 3, 1);
    assert_eq!(learned, vec![0, 1, 2, 3, 4, 5, 6]);
    assert_eq!(vocab.len(), 7);
    // "aa" occurs four times, which does not exceed 4
    let mut vocab = Vocabulary::new();
    let learned = vocab.learn("aaabdaaabac", 10, 1, 4);
    assert_eq!(learned.len(), 11);
    assert_eq!(vocab.len(), 4);
    // but it exceeds 3: one promotion, then nothing is left above 3
    let mut vocab = Vocabulary::new();
    let learned = vocab.learn("aaabdaaabac", 10, 1, 3);
    assert_eq!(learned, vec![4, 0, 1, 2, 4, 0, 1, 0, 3]);
    assert_eq!(vocab.len(), 5);
    assert_eq!(vocab.token(4), Some(Token::Composition(0, 0)));
}

#[test]
fn learn_stops_at_the_merge_budget() {
    let text = "aaabdaaabac";
    let mut vocab = Vocabulary::new();
    let learned = vocab.learn(text, 1, 1, 1);
    assert_eq!(learned, vec![4, 0, 1, 2, 4, 0, 1, 0, 3]);
    assert_eq!(vocab.len(), 5);
    let mut vocab = Vocabulary::new();
    let learned = vocab.learn(text, 2, 1, 1);
    assert_eq!(learned.len(), 7);
    assert_eq!(vocab.len(), 6);
    assert_eq!(decoded(&mut vocab, &learned), text);
}

#[test]
fn learn_stops_at_the_merge_budget_within_a_round() {
    // two digrams are selected, the budget allows one promotion: the
    // less frequent of the two is promoted, the other is not
    let mut vocab = Vocabulary::new();
    let learned = vocab.learn("aaabdaaabac", 1, 2, 1);
    assert_eq!(vocab.len(), 5);
    assert_eq!(vocab.token(4), Some(Token::Composition(0, 1)));
    assert_eq!(learned, vec![0, 0, 4, 2, 0, 0, 4, 0, 3]);
}

#[test]
fn learn_promotes_the_least_frequent_of_a_round_first() {
    let text = "aaabdaaabac";
    let mut vocab = Vocabulary::new();
    let learned = vocab.learn(text, 10, 2, 1);
    // round one selects (a,a) with 4 and (a,b) with 2, and promotes
    // (a,b) before (a,a); round two promotes the pair of both
    assert_eq!(vocab.token(4), Some(Token::Composition(0, 1)));
    assert_eq!(vocab.token(5), Some(Token::Composition(0, 0)));
    assert_eq!(vocab.token(6), Some(Token::Composition(5, 4)));
    assert_eq!(vocab.len(), 7);
    assert_eq!(learned, vec![6, 2, 6, 0, 3]);
    assert_eq!(decoded(&mut vocab, &learned), text);
}

#[test]
fn learn_resolves_overlapping_pairs_from_the_left() {
    let mut vocab = Vocabulary::new();
    let learned = vocab.learn("aaaaa", 1, 1, 0);
    assert_eq!(learned, vec![1, 1, 0]);
    assert_eq!(vocab.token(1), Some(Token::Composition(0, 0)));
    assert_eq!(decoded(&mut vocab, &learned), "aaaaa");
}

#[test]
fn learn_round_trips_with_large_budgets() {
    let texts = [
        "",
        "a",
        "ab",
        "aaaa",
        "aaabdaaabac",
        "the cat sat on the mat with the other cat that sat on that mat",
        "ßßß語語語ßßß語語語 \u{1F600}\u{1F600} héllo héllo",
    ];
    for text in texts {
        for replacements in [1usize, 2, 3, 1000] {
            let mut vocab = Vocabulary::new();
            let learned = vocab.learn(text, 100_000, replacements, 0);
            assert!(learned.len() <= text.chars().count());
            for id in &learned {
                assert!(*id < vocab.len());
            }
            assert_eq!(decoded(&mut vocab, &learned), text);
        }
    }
}

#[test]
fn learn_with_cutoff_zero_ends_in_one_symbol() {
    // with every digram eligible the sequence shrinks as long as it has
    // a digram at all
    let mut vocab = Vocabulary::new();
    let learned = vocab.learn("abcabcabd", 1000, 1, 0);
    assert_eq!(learned.len(), 1);
    assert_eq!(decoded(&mut vocab, &learned), "abcabcabd");
}

#[test]
fn learn_extends_a_vocabulary_that_is_in_use() {
    let mut vocab = Vocabulary::new();
    let first = vocab.learn("abab", 10, 1, 1);
    assert_eq!(first, vec![2, 2]);
    assert_eq!(vocab.len(), 3);
    // the composition of (a,b) is present and is used again
    let second = vocab.learn("ababcabab", 10, 1, 1);
    assert_eq!(vocab.token(2), Some(Token::Composition(0, 1)));
    assert_eq!(vocab.token(3), Some(Token::Unit('c')));
    assert_eq!(vocab.token(4), Some(Token::Composition(2, 2)));
    assert_eq!(vocab.len(), 5);
    assert_eq!(second, vec![4, 3, 4]);
    assert_eq!(decoded(&mut vocab, &second), "ababcabab");
    assert_eq!(decoded(&mut vocab, &first), "abab");
}

#[test]
fn promote_works_through_a_selection_from_the_back() {
    let mut vocab = Vocabulary::new();
    let mut text = vocab.preinitialize_vocabulary("abcabc");
    // counts are not looked at: the order of the selection decides
    let made = vocab.promote(&mut text, vec![((0, 1), 2), ((1, 2), 2)], 5);
    assert_eq!(made, 2);
    // (b,c) first, after which (a,b) does not occur any more
    assert_eq!(vocab.token(3), Some(Token::Composition(1, 2)));
    assert_eq!(vocab.token(4), Some(Token::Composition(0, 1)));
    assert_eq!(text, vec![0, 3, 0, 3]);
}

#[test]
fn promote_stops_at_its_budget() {
    let mut vocab = Vocabulary::new();
    let mut text = vocab.preinitialize_vocabulary("abcabc");
    let made = vocab.promote(&mut text, vec![((0, 1), 2), ((1, 2), 2)], 1);
    assert_eq!(made, 1);
    assert_eq!(vocab.len(), 4);
    assert_eq!(text, vec![0, 3, 0, 3]);
    let made = vocab.promote(&mut text, vec![((0, 3), 2)], 0);
    assert_eq!(made, 0);
    assert_eq!(vocab.len(), 4);
    assert_eq!(text, vec![0, 3, 0, 3]);
    let made = vocab.promote(&mut text, vec![], 9);
    assert_eq!(made, 0);
    assert_eq!(text, vec![0, 3, 0, 3]);
}
