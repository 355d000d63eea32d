use rust_bpe::Vocabulary;

const SAMPLES: [&str; 4] = [
    "the quick brown fox jumps over the lazy dog and the quick brown cat",
    "she sells sea shells by the sea shore, the shells she sells are sea shells",
    "abababababababababababababababab",
    "Zwölf Boxkämpfer jagen Viktor quer über den großen Sylter Deich. 日本語のテキスト、日本語のテキスト。",
];

// Try to encode the sample texts
#[test]
fn test_token_decoding() {
    for input_data in SAMPLES {
        let mut vocab = Vocabulary::new();
        let encoded_file = vocab.learn(input_data, 1000, 1, 1);
        println!("{:?}", encoded_file);
        let mut s = String::new();
        vocab.decode(&encoded_file, &mut s);
        assert_eq!(input_data, s);
    }
}

#[test]
fn test_token_decoding2() {
    let input_data = "aaabdaaabac";

    let mut vocab = Vocabulary::new();
    let final_encoding = vocab.learn(input_data, 10, 1, 1);
    assert_eq!(final_encoding.len(), 5);

    let mut s = String::new();
    vocab.decode(&final_encoding, &mut s);
    assert_eq!("aaabdaaabac", s);
}
