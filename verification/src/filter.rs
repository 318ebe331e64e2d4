//! Candidate filtering: which words could still be the secret, given that a
//! guess received a particular score.

use vstd::prelude::*;
use crate::score::Mark;
use crate::score::Score;
use crate::score::green_upto;
use crate::score::lemma_green_le_count;
use crate::score::miss_upto;
use crate::score::score_spec;
use crate::score::yellow_supply;
use crate::word::CharCount;
use crate::word::Word;
use crate::word::count_upto;
use crate::word::count_word;
use crate::word::counts_match;
use crate::word::lemma_count_upto_bounds;
use crate::word::lemma_count_upto_mono;
use crate::word::letter_count;
use crate::word::word_wf;
use crate::word::words_equal;

verus! {

/// Number of positions `j < n` carrying the mark `m` for the guess letter `c`.
pub open spec fn mark_count_upto(g: Seq<u8>, marks: Seq<Mark>, m: Mark, c: u8, n: int) -> int
    decreases n,
{
    if n <= 0 {
        0
    } else {
        mark_count_upto(g, marks, m, c, n - 1) + if marks[n - 1] == m && g[n - 1] == c {
            1int
        } else {
            0int
        }
    }
}

pub proof fn lemma_mark_count_bounds(g: Seq<u8>, marks: Seq<Mark>, m: Mark, c: u8, n: int)
    requires
        0 <= n,
    ensures
        0 <= mark_count_upto(g, marks, m, c, n) <= n,
    decreases n,
{
    if n > 0 {
        lemma_mark_count_bounds(g, marks, m, c, n - 1);
    }
}

/// The per-letter counts of provably absent letters: how many positions the
/// score marks excluded, keyed by the guess's letter there. Counts, not
/// booleans: a letter can be present and still excluded in its excess copies.
pub open spec fn excl_counts(g: Seq<u8>, marks: Seq<Mark>) -> Seq<u8> {
    Seq::new(26, |c: int| mark_count_upto(g, marks, Mark::Excluded, c as u8, 5) as u8)
}

/// Derives from a guess and its score the letters (and counts) shown absent.
pub fn determine_excluded(guess: &Word, score: &Score) -> (ex: CharCount)
    requires
        word_wf(guess@),
    ensures
        ex.count@ == excl_counts(guess@, score@),
{
    let mut ex = CharCount { count: [0; 26] };
    for i in 0..5
        invariant
            word_wf(guess@),
            ex.count@.len() == 26,
            forall|c: int|
                0 <= c < 26 ==> ex.count@[c] as int == mark_count_upto(
                    guess@,
                    score@,
                    Mark::Excluded,
                    c as u8,
                    i as int,
                ),
    {
        proof {
            lemma_mark_count_bounds(guess@, score@, Mark::Excluded, guess@[i as int], i as int);
        }
        if score.marks[i] == Mark::Excluded {
            let gc = guess.chars[i] as usize;
            ex.count[gc] = ex.count[gc] + 1;
        }
    }
    proof {
        assert forall|c: int| 0 <= c < 26 implies ex.count@[c] == excl_counts(guess@, score@)[c] by {
            lemma_mark_count_bounds(guess@, score@, Mark::Excluded, c as u8, 5);
        }
        assert(ex.count@ =~= excl_counts(guess@, score@));
    }
    ex
}

/// A candidate is consistent with a scored guess when every letter with a
/// positive exclusion count bounds the candidate's copies (a letter wholly
/// absent allows none; one excluded only in its excess copies allows as
/// many as the guess's credited copies, the guess's count less the excluded
/// ones), the candidate agrees with the guess at every green position,
/// differs from it at every yellow position, and has enough supply of each
/// yellow letter left once the greens have consumed theirs.
pub open spec fn consistent_spec(g: Seq<u8>, cand: Seq<u8>, ex: Seq<u8>, marks: Seq<Mark>) -> bool {
    &&& forall|c: int|
        0 <= c < 26 && #[trigger] ex[c] > 0 ==> letter_count(cand, c as u8) + ex[c] as int
            <= letter_count(g, c as u8)
    &&& forall|i: int| 0 <= i < 5 && #[trigger] marks[i] == Mark::Green ==> cand[i] == g[i]
    &&& forall|i: int| 0 <= i < 5 && #[trigger] marks[i] == Mark::Yellow ==> cand[i] != g[i]
    &&& forall|i: int|
        0 <= i < 5 && #[trigger] marks[i] == Mark::Yellow ==> mark_count_upto(
            g,
            marks,
            Mark::Yellow,
            g[i],
            i,
        ) < letter_count(cand, g[i]) - mark_count_upto(g, marks, Mark::Green, g[i], 5)
}

/// Green marks whose candidate letter agrees with the guess consume no more
/// of a letter than the candidate holds.
proof fn lemma_green_marks_le_count(g: Seq<u8>, marks: Seq<Mark>, cand: Seq<u8>, c: u8, n: int)
    requires
        forall|j: int| 0 <= j < n && #[trigger] marks[j] == Mark::Green && g[j] == c ==> cand[j] == c,
    ensures
        mark_count_upto(g, marks, Mark::Green, c, n) <= count_upto(cand, c, n),
    decreases n,
{
    if n > 0 {
        lemma_green_marks_le_count(g, marks, cand, c, n - 1);
        lemma_count_upto_bounds(cand, c, n - 1);
    }
}

/// Decides whether `candidate` could be the secret, given that `guess`
/// received `score` and that `ex` counts the letters shown absent.
pub fn word_valid(guess: &Word, candidate: &Word, ex: &CharCount, score: &Score) -> (r: bool)
    requires
        word_wf(guess@),
        word_wf(candidate@),
    ensures
        r == consistent_spec(guess@, candidate@, ex.count@, score@),
{
    let mut candidate_cf = count_word(candidate);
    let guess_cf = count_word(guess);
    // does the word hold more copies of an excluded letter than the guess's
    // feedback allows?
    for c in 0..26
        invariant
            word_wf(guess@),
            word_wf(candidate@),
            counts_match(candidate_cf.count@, candidate@),
            counts_match(guess_cf.count@, guess@),
            ex.count@.len() == 26,
            forall|b: int|
                0 <= b < c && #[trigger] ex.count@[b] > 0 ==> letter_count(candidate@, b as u8)
                    + ex.count@[b] as int <= letter_count(guess@, b as u8),
    {
        if ex.count[c] > 0 {
            if (candidate_cf.count[c] as u16) + (ex.count[c] as u16) > (guess_cf.count[c] as u16) {
                return false;
            }
        }
    }
    // check green letters match; yellow letters don't
    for i in 0..5
        invariant
            word_wf(guess@),
            word_wf(candidate@),
            score@.len() == 5,
            candidate_cf.count@.len() == 26,
            forall|c: int|
                0 <= c < 26 ==> candidate_cf.count@[c] as int == letter_count(candidate@, c as u8)
                    - mark_count_upto(guess@, score@, Mark::Green, c as u8, i as int),
            forall|j: int|
                0 <= j < i && #[trigger] score@[j] == Mark::Green ==> candidate@[j] == guess@[j],
            forall|j: int|
                0 <= j < i && #[trigger] score@[j] == Mark::Yellow ==> candidate@[j] != guess@[j],
    {
        let m = score.marks[i];
        if m == Mark::Green {
            if candidate.chars[i] != guess.chars[i] {
                return false;
            }
            let gc = guess.chars[i] as usize;
            proof {
                let c = guess@[i as int];
                lemma_green_marks_le_count(guess@, score@, candidate@, c, i as int);
                lemma_count_upto_mono(candidate@, c, i as int, 5);
            }
            candidate_cf.count[gc] = candidate_cf.count[gc] - 1;
        }
        if m == Mark::Yellow && candidate.chars[i] == guess.chars[i] {
            return false;
        }
    }
    // check yellow letters possible
    for i in 0..5
        invariant
            word_wf(guess@),
            word_wf(candidate@),
            score@.len() == 5,
            candidate_cf.count@.len() == 26,
            forall|c: int|
                0 <= c < 26 ==> candidate_cf.count@[c] as int == letter_count(candidate@, c as u8)
                    - mark_count_upto(guess@, score@, Mark::Green, c as u8, 5) - mark_count_upto(
                    guess@,
                    score@,
                    Mark::Yellow,
                    c as u8,
                    i as int,
                ),
            forall|j: int|
                0 <= j < 5 && #[trigger] score@[j] == Mark::Green ==> candidate@[j] == guess@[j],
            forall|j: int|
                0 <= j < 5 && #[trigger] score@[j] == Mark::Yellow ==> candidate@[j] != guess@[j],
            forall|j: int|
                0 <= j < i && #[trigger] score@[j] == Mark::Yellow ==> mark_count_upto(
                    guess@,
                    score@,
                    Mark::Yellow,
                    guess@[j],
                    j,
                ) < letter_count(candidate@, guess@[j]) - mark_count_upto(
                    guess@,
                    score@,
                    Mark::Green,
                    guess@[j],
                    5,
                ),
    {
        if score.marks[i] == Mark::Yellow {
            let gc = guess.chars[i] as usize;
            proof {
                lemma_mark_count_bounds(guess@, score@, Mark::Yellow, guess@[i as int], i as int);
            }
            if candidate_cf.count[gc] == 0 {
                return false;
            }
            candidate_cf.count[gc] = candidate_cf.count[gc] - 1;
        }
    }
    true
}

/// The filter's keep condition: the word is not the guess itself and is
/// consistent with the scored guess.
pub open spec fn next_keeps(g: Seq<u8>, marks: Seq<Mark>) -> spec_fn(Word) -> bool {
    |w: Word| w@ != g && consistent_spec(g, w@, excl_counts(g, marks), marks)
}

/// Excludes the guess from the pool and keeps the words consistent with its
/// score; the pool never grows.
pub fn next_words(words: &Vec<Word>, score: &Score, guess: &Word) -> (res: Vec<Word>)
    requires
        word_wf(guess@),
        forall|k: int| 0 <= k < words@.len() ==> word_wf(#[trigger] words@[k]@),
    ensures
        res@ == words@.filter(next_keeps(guess@, score@)),
        res@.len() <= words@.len(),
        forall|k: int| 0 <= k < res@.len() ==> word_wf(#[trigger] res@[k]@),
{
    let mut res: Vec<Word> = Vec::new();
    let ex = determine_excluded(guess, score);
    let n = words.len();
    for i in 0..n
        invariant
            n == words@.len(),
            word_wf(guess@),
            forall|k: int| 0 <= k < words@.len() ==> word_wf(#[trigger] words@[k]@),
            ex.count@ == excl_counts(guess@, score@),
            res@ == words@.subrange(0, i as int).filter(next_keeps(guess@, score@)),
            forall|k: int| 0 <= k < res@.len() ==> word_wf(#[trigger] res@[k]@),
            res@.len() <= i,
    {
        let w = &words[i];
        proof {
            reveal(Seq::filter);
            let pre = words@.subrange(0, i as int);
            let nxt = words@.subrange(0, i as int + 1);
            assert(nxt.drop_last() =~= pre);
            assert(nxt.last() == words@[i as int]);
        }
        if !words_equal(w, guess) {
            if word_valid(guess, w, &ex, score) {
                res.push(*w);
            }
        }
    }
    proof {
        assert(words@.subrange(0, n as int) =~= words@);
    }
    res
}

/// An element the predicate drops makes the filtered sequence strictly
/// shorter than its source.
pub proof fn lemma_filter_skips_one<A>(s: Seq<A>, pred: spec_fn(A) -> bool, i: int)
    requires
        0 <= i < s.len(),
        !pred(s[i]),
    ensures
        s.filter(pred).len() < s.len(),
    decreases s.len(),
{
    reveal(Seq::filter);
    if i == s.len() - 1 {
        s.drop_last().lemma_filter_len(pred);
    } else {
        lemma_filter_skips_one(s.drop_last(), pred, i);
    }
}

/// Green and non-green occurrences of a letter partition its occurrences in
/// the guess.
pub proof fn lemma_green_miss_partition(w: Seq<u8>, g: Seq<u8>, c: u8, n: int)
    requires
        0 <= n,
    ensures
        green_upto(w, g, c, n) + miss_upto(w, g, c, n) == count_upto(g, c, n),
    decreases n,
{
    if n > 0 {
        lemma_green_miss_partition(w, g, c, n - 1);
    }
}

/// Non-matching occurrences only accumulate; one more appears as soon as a
/// non-matching position of the letter is passed.
pub proof fn lemma_miss_upto_mono(w: Seq<u8>, g: Seq<u8>, c: u8, m: int, n: int)
    requires
        0 <= m <= n,
    ensures
        miss_upto(w, g, c, m) <= miss_upto(w, g, c, n),
        m < n && g[m] == c && w[m] != g[m] ==> miss_upto(w, g, c, m) < miss_upto(w, g, c, n),
    decreases n - m,
{
    if m < n {
        lemma_miss_upto_mono(w, g, c, m + 1, n);
    }
}

/// In the score a secret gives, the green marks of a letter are exactly its
/// matching positions.
proof fn lemma_score_green_marks(w: Seq<u8>, g: Seq<u8>, c: u8, n: int)
    requires
        word_wf(w),
        word_wf(g),
        0 <= n <= 5,
    ensures
        mark_count_upto(g, score_spec(w, g), Mark::Green, c, n) == green_upto(w, g, c, n),
    decreases n,
{
    if n > 0 {
        lemma_score_green_marks(w, g, c, n - 1);
    }
}

/// In the score a secret gives, the yellow marks of a letter are among its
/// non-matching positions.
proof fn lemma_score_yellow_le_miss(w: Seq<u8>, g: Seq<u8>, c: u8, n: int)
    requires
        word_wf(w),
        word_wf(g),
        0 <= n <= 5,
    ensures
        mark_count_upto(g, score_spec(w, g), Mark::Yellow, c, n) <= miss_upto(w, g, c, n),
    decreases n,
{
    if n > 0 {
        lemma_score_yellow_le_miss(w, g, c, n - 1);
        lemma_miss_upto_mono(w, g, c, n - 1, n);
    }
}

/// In the score a secret gives, every position carries exactly one of
/// green, yellow and excluded, so the three counts of a letter partition
/// its occurrences in the guess.
proof fn lemma_score_marks_partition(w: Seq<u8>, g: Seq<u8>, c: u8, n: int)
    requires
        word_wf(w),
        word_wf(g),
        0 <= n <= 5,
    ensures
        mark_count_upto(g, score_spec(w, g), Mark::Green, c, n) + mark_count_upto(
            g,
            score_spec(w, g),
            Mark::Yellow,
            c,
            n,
        ) + mark_count_upto(g, score_spec(w, g), Mark::Excluded, c, n) == count_upto(g, c, n),
    decreases n,
{
    if n > 0 {
        lemma_score_marks_partition(w, g, c, n - 1);
    }
}

/// In the score a secret gives, the yellow marks of a letter consume its
/// non-matching positions in order until the supply left after the greens
/// runs out: their count is the smaller of the two.
proof fn lemma_score_yellow_min(w: Seq<u8>, g: Seq<u8>, c: u8, n: int)
    requires
        word_wf(w),
        word_wf(g),
        0 <= n <= 5,
    ensures
        mark_count_upto(g, score_spec(w, g), Mark::Yellow, c, n) == if miss_upto(w, g, c, n)
            <= yellow_supply(w, g, c) {
            miss_upto(w, g, c, n)
        } else {
            yellow_supply(w, g, c)
        },
    decreases n,
{
    lemma_green_le_count(w, g, c, 5);
    if n > 0 {
        lemma_score_yellow_min(w, g, c, n - 1);
    }
}

/// Soundness of the filter at a single word: the true secret is consistent
/// with the score it hands any guess. In particular, a letter acquires a
/// positive exclusion count only once its green and yellow marks account
/// for every copy the secret holds, so the secret itself always passes the
/// exclusion bound.
pub proof fn lemma_filter_sound(w: Seq<u8>, g: Seq<u8>)
    requires
        word_wf(w),
        word_wf(g),
    ensures
        consistent_spec(g, w, excl_counts(g, score_spec(w, g)), score_spec(w, g)),
{
    let marks = score_spec(w, g);
    let ex = excl_counts(g, marks);
    // a positive exclusion count means the green and yellow marks consumed
    // the secret's whole supply of the letter, and the excess is exactly
    // what the guess holds beyond the secret
    assert forall|c: int| 0 <= c < 26 && #[trigger] ex[c] > 0 implies letter_count(w, c as u8)
        + ex[c] as int <= letter_count(g, c as u8) by {
        let cb = c as u8;
        lemma_mark_count_bounds(g, marks, Mark::Excluded, cb, 5);
        lemma_score_marks_partition(w, g, cb, 5);
        lemma_score_green_marks(w, g, cb, 5);
        lemma_score_yellow_min(w, g, cb, 5);
        lemma_green_miss_partition(w, g, cb, 5);
        // if the yellows matched every non-green position, nothing was
        // excluded; so the yellows equal the remaining supply
        assert(mark_count_upto(g, marks, Mark::Yellow, cb, 5) == yellow_supply(w, g, cb));
    }
    // enough supply remains for every yellow mark
    assert forall|i: int| 0 <= i < 5 && #[trigger] marks[i] == Mark::Yellow implies mark_count_upto(
        g,
        marks,
        Mark::Yellow,
        g[i],
        i,
    ) < letter_count(w, g[i]) - mark_count_upto(g, marks, Mark::Green, g[i], 5) by {
        let c = g[i];
        lemma_score_yellow_le_miss(w, g, c, i);
        lemma_score_green_marks(w, g, c, 5);
        assert(miss_upto(w, g, c, i) < yellow_supply(w, g, c));
    }
}

/// Soundness of the filter over a pool: filtering a pool that contains the
/// secret, by the score the secret itself gave the guess, keeps the secret,
/// whenever the guess differs from it.
pub proof fn lemma_next_candidates_sound(pool: Seq<Word>, secret: Word, guess: Word, i: int)
    requires
        word_wf(secret@),
        word_wf(guess@),
        0 <= i < pool.len(),
        pool[i] == secret,
        secret@ != guess@,
    ensures
        pool.filter(next_keeps(guess@, score_spec(secret@, guess@))).contains(secret),
{
    lemma_filter_sound(secret@, guess@);
    pool.lemma_filter_contains(next_keeps(guess@, score_spec(secret@, guess@)), i);
}

} // verus!
