use wordle_solver::SolveError;
use wordle_solver::Word;
use wordle_solver::decode_word;
use wordle_solver::determine_candidates;
use wordle_solver::encode_word;
use wordle_solver::guess_total;
use wordle_solver::mark_guess;
use wordle_solver::next_words;
use wordle_solver::rankguesses;

fn dict(texts: &[&str]) -> Vec<Word> {
    texts.iter().map(|t| encode_word(t).unwrap()).collect()
}

#[test]
fn determine_candidates_drops_repeated_letters() {
    let words = dict(&["abcde", "aabcd", "zzzzz", "crane", "level"]);
    let cands = determine_candidates(&words);
    let names: Vec<String> = cands.iter().map(decode_word).collect();
    assert_eq!(names, vec!["abcde", "crane"]);
}

#[test]
fn guess_total_sums_surviving_pool_sizes() {
    let words = dict(&["abcde", "abcdf", "zzzzz"]);
    // abcde: leaves 0 of abcde, 1 of abcdf, 1 of zzzzz
    assert_eq!(guess_total(&words[0], &words), 2);
    assert_eq!(guess_total(&words[1], &words), 2);
    // zzzzz: leaves 2, 2 and 0
    assert_eq!(guess_total(&words[2], &words), 4);
}

#[test]
fn rank_orders_by_total_stably() {
    let words = dict(&["zzzzz", "abcdf", "abcde"]);
    let ranked = rankguesses(&words, &words).unwrap();
    let names: Vec<String> = ranked.iter().map(|(w, _)| decode_word(w)).collect();
    // abcdf and abcde tie at 2 and keep their dictionary order; zzzzz is last
    assert_eq!(names, vec!["abcdf", "abcde", "zzzzz"]);
    assert_eq!(ranked[0].1, 2);
    assert_eq!(ranked[1].1, 2);
    assert_eq!(ranked[2].1, 4);
}

#[test]
fn rank_is_reproducible() {
    let words = dict(&["lapse", "crane", "abbey", "zesty", "quart"]);
    let first = rankguesses(&words, &words).unwrap();
    for _ in 0..10 {
        let again = rankguesses(&words, &words).unwrap();
        assert_eq!(again, first);
    }
}

#[test]
fn rank_rejects_empty_secret_pool() {
    let words = dict(&["abcde"]);
    let empty: Vec<Word> = Vec::new();
    assert_eq!(rankguesses(&words, &empty), Err(SolveError::EmptyPool));
}

#[test]
fn average_ratio_stays_within_bounds() {
    let words = dict(&["abcde", "abcdf", "fghij", "klmno", "aabba"]);
    let ranked = rankguesses(&words, &words).unwrap();
    let square = (words.len() * words.len()) as u64;
    for (_, total) in ranked.iter() {
        assert!(*total <= square);
    }
}

#[test]
fn filtering_never_grows_the_pool() {
    let words = dict(&["abcde", "abcdf", "zzzzz", "vwxyz", "fghij"]);
    let secret = encode_word("abcdf").unwrap();
    let mut pool = words.clone();
    let mut guess = encode_word("vwxyz").unwrap();
    for _ in 0..3 {
        let score = mark_guess(&secret, &guess);
        let next = next_words(&pool, &score, &guess);
        assert!(next.len() <= pool.len());
        if next.is_empty() {
            break;
        }
        pool = next;
        guess = pool[0];
    }
}
