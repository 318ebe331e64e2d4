use wordle_solver::Score;
use wordle_solver::SolveError;
use wordle_solver::Word;
use wordle_solver::cli_score;
use wordle_solver::decode_word;
use wordle_solver::encode_word;
use wordle_solver::solve;
use wordle_solver::suggest_next;

fn dict(texts: &[&str]) -> Vec<Word> {
    texts.iter().map(|t| encode_word(t).unwrap()).collect()
}

#[test]
fn solve_reports_zero_when_opening_guess_is_the_secret() {
    let words = dict(&["abcde", "abcdf", "zzzzz"]);
    let secret = encode_word("abcde").unwrap();
    let (count, last) = solve(&words, &secret, &secret).unwrap();
    assert_eq!(count, 0);
    assert_eq!(decode_word(&last), "abcde");
}

#[test]
fn solve_reaches_the_secret() {
    let words = dict(&["abcde", "abcdf", "zzzzz"]);
    let secret = encode_word("abcdf").unwrap();
    let opening = encode_word("zzzzz").unwrap();
    let (count, last) = solve(&words, &secret, &opening).unwrap();
    assert_eq!(decode_word(&last), "abcdf");
    assert_eq!(count, 2);
}

#[test]
fn solve_survives_a_guess_with_excess_duplicates() {
    // "melee" over-supplies the secret's single `e`; the excess exclusions
    // must not knock the secret out of the pool
    let words = dict(&["money", "melee"]);
    let secret = encode_word("money").unwrap();
    let opening = encode_word("melee").unwrap();
    let (count, last) = solve(&words, &secret, &opening).unwrap();
    assert_eq!(decode_word(&last), "money");
    assert_eq!(count, 1);
}

#[test]
fn solve_fails_when_the_secret_is_outside_the_dictionary() {
    let words = dict(&["abcde"]);
    let secret = encode_word("fghij").unwrap();
    let opening = encode_word("abcde").unwrap();
    assert_eq!(solve(&words, &secret, &opening), Err(SolveError::ExhaustedCandidates));
}

#[test]
fn suggest_next_follows_the_feedback() {
    let words = dict(&["abcde", "abcdf", "zzzzz"]);
    let history: Vec<(Word, Score)> =
        vec![(encode_word("zzzzz").unwrap(), cli_score("xxxxx").unwrap())];
    let best = suggest_next(&words, &history).unwrap();
    // zzzzz is ruled out; abcdf and abcde tie and the earlier dictionary
    // entry wins
    assert_eq!(decode_word(&best), "abcde");
}

#[test]
fn suggest_next_with_no_feedback_ranks_the_whole_dictionary() {
    let words = dict(&["zzzzz", "abcdf", "abcde"]);
    let history: Vec<(Word, Score)> = Vec::new();
    let best = suggest_next(&words, &history).unwrap();
    assert_eq!(decode_word(&best), "abcdf");
}

#[test]
fn suggest_next_narrows_over_several_hints() {
    let words = dict(&["abcde", "abcdf", "abcdg", "zzzzz"]);
    // `zzzzz` all excluded, then `abcde` green but for the last letter,
    // which is excluded: only abcdf and abcdg remain, tied; the earlier
    // dictionary entry wins
    let history: Vec<(Word, Score)> = vec![
        (encode_word("zzzzz").unwrap(), cli_score("xxxxx").unwrap()),
        (encode_word("abcde").unwrap(), cli_score("ggggx").unwrap()),
    ];
    let best = suggest_next(&words, &history).unwrap();
    assert_eq!(decode_word(&best), "abcdf");
}

#[test]
fn suggest_next_reports_contradictory_feedback() {
    let words = dict(&["abcde", "abcdf", "zzzzz"]);
    let history: Vec<(Word, Score)> =
        vec![(encode_word("abcde").unwrap(), cli_score("ggggg").unwrap())];
    assert_eq!(suggest_next(&words, &history), Err(SolveError::ExhaustedCandidates));
}
