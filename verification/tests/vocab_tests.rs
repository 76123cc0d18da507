use bigram_engine::loader::DataLoader;
use bigram_engine::vocab::{is_in_vocab, stoi, END_PAD, START_PAD, VOCAB_SIZE};

#[test]
fn stoi_maps_each_symbol() {
    assert_eq!(stoi('.'), 0);
    assert_eq!(stoi('a'), 1);
    assert_eq!(stoi('m'), 13);
    assert_eq!(stoi('z'), 26);
    assert_eq!(stoi(' '), 27);
    assert_eq!(stoi(START_PAD), 28);
    assert_eq!(stoi(END_PAD), 29);
}

#[test]
fn decode_gives_the_table() {
    let expected: Vec<char> = ".abcdefghijklmnopqrstuvwxyz ^$".chars().collect();
    assert_eq!(expected.len(), VOCAB_SIZE);
    for (n, c) in expected.iter().enumerate() {
        assert_eq!(DataLoader::decode(n), *c);
    }
}

#[test]
fn decode_then_encode_is_identity() {
    for n in 0..VOCAB_SIZE {
        assert_eq!(stoi(DataLoader::decode(n)), n);
    }
}

#[test]
fn encode_then_decode_is_identity() {
    for c in ".abcdefghijklmnopqrstuvwxyz ^$".chars() {
        assert_eq!(DataLoader::decode(stoi(c)), c);
    }
}

#[test]
fn vocabulary_membership() {
    assert!(is_in_vocab('q'));
    assert!(is_in_vocab('.'));
    assert!(is_in_vocab('^'));
    assert!(!is_in_vocab('A'));
    assert!(!is_in_vocab(','));
    assert!(!is_in_vocab('é'));
    assert!(!is_in_vocab('\n'));
}

#[test]
fn encode_line() {
    assert_eq!(DataLoader::encode("^ab. z$".to_string()), vec![28, 1, 2, 0, 27, 26, 29]);
    assert_eq!(DataLoader::encode(String::new()), Vec::<usize>::new());
}
