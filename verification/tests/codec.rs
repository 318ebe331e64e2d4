use wordle_solver::SolveError;
use wordle_solver::Word;
use wordle_solver::decode_word;
use wordle_solver::encode_word;
use wordle_solver::encode_words;
use wordle_solver::words_equal;

#[test]
fn encode_maps_letters_to_indices() {
    let w = encode_word("abcde").unwrap();
    assert_eq!(w.chars, [0, 1, 2, 3, 4]);
    let z = encode_word("zzzzz").unwrap();
    assert_eq!(z.chars, [25, 25, 25, 25, 25]);
}

#[test]
fn decode_inverts_encode() {
    for s in ["crane", "abcde", "zzzzz", "aabcd", "qwert"] {
        let w = encode_word(s).unwrap();
        assert_eq!(decode_word(&w), s);
    }
}

#[test]
fn encode_rejects_wrong_length() {
    assert_eq!(encode_word("abcd"), Err(SolveError::InvalidWord));
    assert_eq!(encode_word("abcdef"), Err(SolveError::InvalidWord));
    assert_eq!(encode_word(""), Err(SolveError::InvalidWord));
}

#[test]
fn encode_rejects_bad_characters() {
    assert_eq!(encode_word("abcdE"), Err(SolveError::InvalidWord));
    assert_eq!(encode_word("abc e"), Err(SolveError::InvalidWord));
    assert_eq!(encode_word("ab1de"), Err(SolveError::InvalidWord));
}

#[test]
fn encode_words_validates_every_entry() {
    let texts = vec![String::from("abcde"), String::from("crane")];
    let words = encode_words(&texts).unwrap();
    assert_eq!(words.len(), 2);
    assert_eq!(decode_word(&words[0]), "abcde");
    assert_eq!(decode_word(&words[1]), "crane");

    let bad = vec![String::from("abcde"), String::from("toolong")];
    assert_eq!(encode_words(&bad), Err(SolveError::InvalidWord));
}

#[test]
fn words_equal_compares_by_letters() {
    let a = encode_word("crane").unwrap();
    let b = encode_word("crane").unwrap();
    let c = encode_word("crate").unwrap();
    assert!(words_equal(&a, &b));
    assert!(!words_equal(&a, &c));
    let d = Word { chars: [2, 17, 0, 13, 4] };
    assert!(words_equal(&a, &d));
}
