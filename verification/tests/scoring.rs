use wordle_solver::Mark;
use wordle_solver::SolveError;
use wordle_solver::cli_score;
use wordle_solver::count_word;
use wordle_solver::encode_word;
use wordle_solver::mark_guess;

fn marks(secret: &str, guess: &str) -> [Mark; 5] {
    let w = encode_word(secret).unwrap();
    let g = encode_word(guess).unwrap();
    mark_guess(&w, &g).marks
}

#[test]
fn self_score_is_all_green() {
    for s in ["abcde", "zzzzz", "aabcd", "crane"] {
        assert_eq!(marks(s, s), [Mark::Green; 5]);
    }
}

#[test]
fn absent_letters_are_excluded() {
    assert_eq!(marks("abcde", "jklmn"), [Mark::Excluded; 5]);
}

#[test]
fn present_letter_elsewhere_is_yellow() {
    assert_eq!(
        marks("abcde", "bwxyz"),
        [Mark::Yellow, Mark::Excluded, Mark::Excluded, Mark::Excluded, Mark::Excluded]
    );
}

#[test]
fn full_anagram_is_yellow_around_the_fixed_point() {
    // every letter is present; the middle letter sits at its own position
    assert_eq!(
        marks("abcde", "edcba"),
        [Mark::Yellow, Mark::Yellow, Mark::Green, Mark::Yellow, Mark::Yellow]
    );
}

#[test]
fn exact_prefix_is_green() {
    assert_eq!(
        marks("abcde", "abhij"),
        [Mark::Green, Mark::Green, Mark::Excluded, Mark::Excluded, Mark::Excluded]
    );
}

#[test]
fn duplicate_supply_is_consumed_left_to_right() {
    assert_eq!(
        marks("aabcd", "hiaaj"),
        [Mark::Excluded, Mark::Excluded, Mark::Yellow, Mark::Yellow, Mark::Excluded]
    );
}

#[test]
fn excess_copies_beyond_supply_are_excluded() {
    // the secret holds one `a`; the green at position 0 consumes it, so the
    // second `a` of the guess has no supply left and ends excluded
    assert_eq!(
        marks("abcde", "aaxyz"),
        [Mark::Green, Mark::Excluded, Mark::Excluded, Mark::Excluded, Mark::Excluded]
    );
}

#[test]
fn green_wins_over_earlier_yellow_claim() {
    // the `c` at position 2 matches exactly; the earlier `c` of the guess
    // must not starve it, and ends excluded once the single `c` is consumed
    assert_eq!(
        marks("abcba", "cacbb"),
        [Mark::Excluded, Mark::Yellow, Mark::Green, Mark::Green, Mark::Yellow]
    );
}

#[test]
fn count_word_tallies_letters() {
    let w = encode_word("aabca").unwrap();
    let cf = count_word(&w);
    assert_eq!(cf.count[0], 3);
    assert_eq!(cf.count[1], 1);
    assert_eq!(cf.count[2], 1);
    assert_eq!(cf.count[3], 0);
}

#[test]
fn cli_score_parses_each_mark() {
    let s = cli_score("xgy-g").unwrap();
    assert_eq!(s.marks, [Mark::Excluded, Mark::Green, Mark::Yellow, Mark::NoScore, Mark::Green]);
}

#[test]
fn cli_score_rejects_bad_characters() {
    assert!(matches!(cli_score("xgyab"), Err(SolveError::InvalidHint)));
    assert!(matches!(cli_score("XGYXG"), Err(SolveError::InvalidHint)));
}

#[test]
fn cli_score_rejects_wrong_length() {
    assert!(matches!(cli_score("xg"), Err(SolveError::InvalidHint)));
    assert!(matches!(cli_score("xgyxgy"), Err(SolveError::InvalidHint)));
}
