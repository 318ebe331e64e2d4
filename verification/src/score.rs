//! Per-position feedback between a secret word and a guess, and the parsing
//! of feedback hints given by an outside caller.
//!
//! The scorer runs three passes: letters wholly absent from the secret are
//! excluded first, exact positional matches are then marked green and consume
//! supply, and finally the remaining positions are marked yellow left to
//! right while supply lasts, excluded once it is gone. The specification
//! below states the outcome of those passes in closed form, per position.

use vstd::prelude::*;
use crate::word::CharCount;
use crate::word::SolveError;
use crate::word::Word;
use crate::word::count_upto;
use crate::word::count_word;
use crate::word::counts_match;
use crate::word::lemma_count_upto_bounds;
use crate::word::lemma_count_upto_mono;
use crate::word::letter_count;
use crate::word::word_wf;

verus! {

/// Feedback for one guess position.
#[derive(Clone, Copy, Debug, PartialEq, Eq, Structural)]
pub enum Mark {
    /// Sentinel: the position has not been scored (only hints use it).
    NoScore,
    /// The letter has no remaining matching supply in the secret.
    Excluded,
    /// The letter is present in the secret, but not at this position.
    Yellow,
    /// The letter matches the secret at this exact position.
    Green,
}

/// Feedback for a whole guess: one mark per position.
#[derive(Clone, Copy, Debug)]
pub struct Score {
    pub marks: [Mark; 5],
}

impl View for Score {
    type V = Seq<Mark>;

    open spec fn view(&self) -> Seq<Mark> {
        self.marks@
    }
}

/// Number of positions `j < n` where the guess matches the secret exactly
/// and holds the letter `c`.
pub open spec fn green_upto(w: Seq<u8>, g: Seq<u8>, c: u8, n: int) -> int
    decreases n,
{
    if n <= 0 {
        0
    } else {
        green_upto(w, g, c, n - 1) + if g[n - 1] == c && w[n - 1] == g[n - 1] {
            1int
        } else {
            0int
        }
    }
}

/// Number of positions `j < n` where the guess holds the letter `c` without
/// matching the secret there.
pub open spec fn miss_upto(w: Seq<u8>, g: Seq<u8>, c: u8, n: int) -> int
    decreases n,
{
    if n <= 0 {
        0
    } else {
        miss_upto(w, g, c, n - 1) + if g[n - 1] == c && w[n - 1] != g[n - 1] {
            1int
        } else {
            0int
        }
    }
}

/// Supply of the letter `c` left for yellow marks: its count in the secret,
/// less what the green positions consumed.
pub open spec fn yellow_supply(w: Seq<u8>, g: Seq<u8>, c: u8) -> int {
    letter_count(w, c) - green_upto(w, g, c, 5)
}

/// The mark position `i` ends with: green on an exact match; otherwise
/// yellow while the earlier non-matching positions of the same letter have
/// not used up the secret's remaining supply; otherwise excluded.
pub open spec fn mark_spec(w: Seq<u8>, g: Seq<u8>, i: int) -> Mark {
    if g[i] == w[i] {
        Mark::Green
    } else if miss_upto(w, g, g[i], i) < yellow_supply(w, g, g[i]) {
        Mark::Yellow
    } else {
        Mark::Excluded
    }
}

/// The feedback a guess receives against a secret.
pub open spec fn score_spec(w: Seq<u8>, g: Seq<u8>) -> Seq<Mark> {
    Seq::new(5, |i: int| mark_spec(w, g, i))
}

pub proof fn lemma_green_le_count(w: Seq<u8>, g: Seq<u8>, c: u8, n: int)
    ensures
        green_upto(w, g, c, n) <= count_upto(w, c, n),
        0 <= green_upto(w, g, c, n) || n < 0,
    decreases n,
{
    if n > 0 {
        lemma_green_le_count(w, g, c, n - 1);
    }
}

pub proof fn lemma_miss_upto_bounds(w: Seq<u8>, g: Seq<u8>, c: u8, m: int, n: int)
    requires
        0 <= m <= n,
    ensures
        miss_upto(w, g, c, m) <= miss_upto(w, g, c, n),
    decreases n - m,
{
    if m < n {
        lemma_miss_upto_bounds(w, g, c, m + 1, n);
    }
}

/// What is left of a letter's supply while the third pass walks the guess:
/// the yellow supply less the earlier non-matching positions of that letter,
/// floored at zero.
pub open spec fn supply_left(w: Seq<u8>, g: Seq<u8>, c: u8, n: int) -> int {
    let r = yellow_supply(w, g, c) - miss_upto(w, g, c, n);
    if r < 0 {
        0
    } else {
        r
    }
}

/// Scores `guess` against `word`: green for exact matches, yellow for
/// letters present elsewhere within the secret's duplicate supply, excluded
/// otherwise. Every position ends scored.
pub fn mark_guess(word: &Word, guess: &Word) -> (score: Score)
    requires
        word_wf(word@),
        word_wf(guess@),
    ensures
        score@ == score_spec(word@, guess@),
        forall|i: int| 0 <= i < 5 ==> score@[i] != Mark::NoScore,
{
    let mut score = Score { marks: [Mark::NoScore; 5] };
    let mut cf: CharCount = count_word(word);

    // mark off excluded (totally non-present) letters
    for i in 0..5
        invariant
            word_wf(word@),
            word_wf(guess@),
            counts_match(cf.count@, word@),
            score.marks@.len() == 5,
            forall|j: int|
                0 <= j < i ==> score.marks@[j] == (if letter_count(word@, guess@[j]) == 0 {
                    Mark::Excluded
                } else {
                    Mark::NoScore
                }),
            forall|j: int| i <= j < 5 ==> score.marks@[j] == Mark::NoScore,
    {
        let gc = guess.chars[i] as usize;
        if cf.count[gc] == 0 {
            score.marks[i] = Mark::Excluded;
        }
    }

    // find exact matches and score them green
    for i in 0..5
        invariant
            word_wf(word@),
            word_wf(guess@),
            cf.count@.len() == 26,
            score.marks@.len() == 5,
            forall|c: int|
                0 <= c < 26 ==> cf.count@[c] as int == letter_count(word@, c as u8) - green_upto(
                    word@,
                    guess@,
                    c as u8,
                    i as int,
                ),
            forall|j: int|
                0 <= j < i ==> score.marks@[j] == (if word@[j] == guess@[j] {
                    Mark::Green
                } else if letter_count(word@, guess@[j]) == 0 {
                    Mark::Excluded
                } else {
                    Mark::NoScore
                }),
            forall|j: int|
                i <= j < 5 ==> score.marks@[j] == (if letter_count(word@, guess@[j]) == 0 {
                    Mark::Excluded
                } else {
                    Mark::NoScore
                }),
    {
        if guess.chars[i] == word.chars[i] {
            score.marks[i] = Mark::Green;
            let gc = guess.chars[i] as usize;
            proof {
                let c = guess@[i as int];
                lemma_green_le_count(word@, guess@, c, i as int);
                lemma_count_upto_mono(word@, c, i as int, 5);
            }
            cf.count[gc] = cf.count[gc] - 1;
        }
    }

    // find inexact matches and score them yellow while supply lasts
    for i in 0..5
        invariant
            word_wf(word@),
            word_wf(guess@),
            cf.count@.len() == 26,
            score.marks@.len() == 5,
            forall|c: int|
                0 <= c < 26 ==> cf.count@[c] as int == supply_left(word@, guess@, c as u8, i as int),
            forall|j: int| 0 <= j < i ==> score.marks@[j] == mark_spec(word@, guess@, j),
            forall|j: int|
                i <= j < 5 ==> score.marks@[j] == (if word@[j] == guess@[j] {
                    Mark::Green
                } else if letter_count(word@, guess@[j]) == 0 {
                    Mark::Excluded
                } else {
                    Mark::NoScore
                }),
    {
        proof {
            let c = guess@[i as int];
            lemma_green_le_count(word@, guess@, c, 5);
            lemma_miss_upto_bounds(word@, guess@, c, 0, i as int);
            if word@[i as int] == c {
                lemma_count_upto_mono(word@, c, i as int, 5);
            }
        }
        if score.marks[i] == Mark::NoScore {
            let gc = guess.chars[i] as usize;
            if cf.count[gc] > 0 {
                score.marks[i] = Mark::Yellow;
                cf.count[gc] = cf.count[gc] - 1;
            } else {
                score.marks[i] = Mark::Excluded;
            }
        }
    }
    proof {
        assert(score@ =~= score_spec(word@, guess@));
    }
    score
}

/// Self-score: a word guessed against itself is green at every position.
pub proof fn lemma_self_score(w: Seq<u8>)
    requires
        word_wf(w),
    ensures
        forall|i: int| 0 <= i < 5 ==> score_spec(w, w)[i] == Mark::Green,
{
}

/// A hint character an outside caller may give.
pub open spec fn hint_char_valid(c: char) -> bool {
    c == 'x' || c == 'g' || c == 'y' || c == '-'
}

/// A valid hint: five characters, each naming a mark.
pub open spec fn hint_valid(s: Seq<char>) -> bool {
    &&& s.len() == 5
    &&& forall|i: int| 0 <= i < 5 ==> hint_char_valid(#[trigger] s[i])
}

/// The mark a hint character names.
pub open spec fn hint_mark(c: char) -> Mark {
    if c == 'x' {
        Mark::Excluded
    } else if c == 'g' {
        Mark::Green
    } else if c == 'y' {
        Mark::Yellow
    } else {
        Mark::NoScore
    }
}

/// The marks a valid hint names, position by position.
pub open spec fn hint_spec(s: Seq<char>) -> Seq<Mark> {
    Seq::new(5, |i: int| hint_mark(s[i]))
}

/// Parses a five-character feedback hint (`x` excluded, `g` green, `y`
/// yellow, `-` unset) into a score; any other text is rejected.
pub fn cli_score(hint: &str) -> (r: Result<Score, SolveError>)
    ensures
        r is Ok <==> hint_valid(hint@),
        r is Ok ==> r->Ok_0@ == hint_spec(hint@),
        r is Err ==> r->Err_0 == SolveError::InvalidHint,
{
    let len = hint.unicode_len();
    if len != 5 {
        return Err(SolveError::InvalidHint);
    }
    let mut score = Score { marks: [Mark::NoScore; 5] };
    for i in 0..5
        invariant
            hint@.len() == 5,
            score.marks@.len() == 5,
            forall|j: int|
                0 <= j < i ==> hint_char_valid(#[trigger] hint@[j]) && score.marks@[j] == hint_mark(
                    hint@[j],
                ),
    {
        let c = hint.get_char(i);
        if c == 'x' {
            score.marks[i] = Mark::Excluded;
        } else if c == 'g' {
            score.marks[i] = Mark::Green;
        } else if c == 'y' {
            score.marks[i] = Mark::Yellow;
        } else if c == '-' {
            score.marks[i] = Mark::NoScore;
        } else {
            return Err(SolveError::InvalidHint);
        }
    }
    proof {
        assert(score@ =~= hint_spec(hint@));
    }
    Ok(score)
}

} // verus!
