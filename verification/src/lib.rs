//! A verified core for solving the five-letter word-guessing game: feedback
//! scoring between a secret and a guess, candidate filtering consistent with
//! that feedback, and a ranking heuristic that orders guesses by how much of
//! the candidate pool they are expected to leave standing.

pub mod filter;
pub mod rank;
pub mod score;
pub mod solve;
pub mod word;

pub use filter::determine_excluded;
pub use filter::next_words;
pub use filter::word_valid;
pub use rank::determine_candidates;
pub use rank::guess_total;
pub use rank::rankguesses;
pub use score::Mark;
pub use score::Score;
pub use score::cli_score;
pub use score::mark_guess;
pub use solve::solve;
pub use solve::suggest_next;
pub use word::CharCount;
pub use word::SolveError;
pub use word::Word;
pub use word::count_word;
pub use word::decode_word;
pub use word::encode_word;
pub use word::encode_words;
pub use word::words_equal;
