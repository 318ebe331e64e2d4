use wordle_solver::determine_excluded;
use wordle_solver::encode_word;
use wordle_solver::mark_guess;
use wordle_solver::word_valid;

fn next_is_valid(word: &str, guess: &str, next: &str) -> bool {
    let word = encode_word(word).unwrap();
    let guess = encode_word(guess).unwrap();
    let candidate = encode_word(next).unwrap();
    let score = mark_guess(&word, &guess);
    let ex = determine_excluded(&guess, &score);
    word_valid(&guess, &candidate, &ex, &score)
}

#[test]
fn fail_yellow_again() {
    assert_eq!(next_is_valid("abcde", "bwxyz", "bhijk"), false);
}

#[test]
fn fail_reuse_excluded() {
    assert_eq!(next_is_valid("abcde", "jklmn", "juvwx"), false);
}

#[test]
fn fail_yellow_impossible() {
    assert_eq!(next_is_valid("abcde", "bwxyz", "hijkl"), false);
}

#[test]
fn suceed_green() {
    assert_eq!(next_is_valid("abcde", "abhij", "abklm"), true);
}

#[test]
fn suceed_allgreen() {
    assert_eq!(next_is_valid("abcde", "abcde", "abcde"), true);
}

#[test]
fn suceed_allyellow() {
    assert_eq!(next_is_valid("abcde", "edcba", "abcde"), true);
}

#[test]
fn suceed_yellow_swap() {
    assert_eq!(next_is_valid("abcde", "bahij", "abklm"), true);
}

#[test]
fn suceed_twoyellow_swap() {
    assert_eq!(next_is_valid("aabcd", "hiaaj", "aaklm"), true);
}

#[test]
fn suceed_twoyellow_shift() {
    assert_eq!(next_is_valid("aabcd", "hiaaj", "amkla"), true);
}

#[test]
fn fail_twoyellow_less() {
    assert_eq!(next_is_valid("aabcd", "hiaaj", "amklp"), false);
}

#[test]
fn suceed_secret_with_oversupplied_guess() {
    // the guess holds three `e`s, the secret one: the two excess copies are
    // excluded, yet the secret itself must survive its own feedback
    assert_eq!(next_is_valid("money", "melee", "money"), true);
}

#[test]
fn suceed_candidate_within_excess_exclusion_bound() {
    // one `e` is credited (green), two are excluded: a candidate with a
    // single `e` is allowed
    assert_eq!(next_is_valid("money", "melee", "mopey"), true);
}

#[test]
fn fail_candidate_beyond_excess_exclusion_bound() {
    // the feedback shows the secret holds exactly one `e`; three are too many
    assert_eq!(next_is_valid("money", "melee", "memee"), false);
}

#[test]
fn exclusions_count_absent_letters() {
    let secret = encode_word("abcde").unwrap();
    let guess = encode_word("jklmn").unwrap();
    let score = mark_guess(&secret, &guess);
    let ex = determine_excluded(&guess, &score);
    // j..n are each excluded once; nothing else is
    for (i, c) in ex.count.iter().enumerate() {
        let expected = if (9..=13).contains(&i) { 1 } else { 0 };
        assert_eq!(*c, expected);
    }
}

#[test]
fn exclusions_count_excess_copies() {
    // the secret holds one `a`; a guess with two sees the excess copy
    // excluded, so the exclusion entry is a count, not a boolean
    let secret = encode_word("abcde").unwrap();
    let guess = encode_word("aaaxy").unwrap();
    let score = mark_guess(&secret, &guess);
    let ex = determine_excluded(&guess, &score);
    assert_eq!(ex.count[0], 2);
    assert_eq!(ex.count[23], 1);
    assert_eq!(ex.count[24], 1);
}

#[test]
fn next_words_excludes_the_guess_itself() {
    let words: Vec<wordle_solver::Word> =
        ["abcde", "abcdf", "zzzzz"].iter().map(|t| encode_word(t).unwrap()).collect();
    let secret = encode_word("abcdf").unwrap();
    let guess = encode_word("zzzzz").unwrap();
    let score = mark_guess(&secret, &guess);
    let next = wordle_solver::next_words(&words, &score, &guess);
    let names: Vec<String> = next.iter().map(wordle_solver::decode_word).collect();
    assert_eq!(names, vec!["abcde", "abcdf"]);
}
