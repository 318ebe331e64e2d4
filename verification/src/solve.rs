//! The solving loop: score the current guess against the secret, filter the
//! pool by that score, rank the survivors against themselves, and take the
//! best-ranked word as the next guess, until the guess is the secret.

use vstd::prelude::*;
use crate::filter::lemma_filter_skips_one;
use crate::filter::lemma_filter_sound;
use crate::filter::next_keeps;
use crate::filter::next_words;
use crate::rank::lemma_sort_pairs_membership;
use crate::rank::lemma_sort_pairs_props;
use crate::rank::pairs_spec;
use crate::rank::rankguesses;
use crate::rank::sort_pairs;
use crate::score::Score;
use crate::score::mark_guess;
use crate::score::score_spec;
use crate::word::SolveError;
use crate::word::Word;
use crate::word::word_wf;
use crate::word::words_equal;

verus! {

/// Some word of the pool reads the same as `g`.
pub open spec fn has_word(pool: Seq<Word>, g: Word) -> bool {
    exists|j: int| 0 <= j < pool.len() && pool[j]@ == g@
}

/// Fuel that provably suffices for the solving recursion from this state:
/// the pool shrinks strictly once the guess is drawn from it, and the very
/// first guess may come from outside.
pub open spec fn solve_fuel(pool: Seq<Word>, g: Word) -> int {
    2 * pool.len() + if has_word(pool, g) {
        0int
    } else {
        1int
    }
}

/// The solving loop as a recursion: stop when the guess reads as the
/// secret; otherwise filter the pool by the score the secret gives the
/// guess, fail when nothing survives, and recurse on the best-ranked
/// survivor. The fuel only forces termination; `lemma_solve_rec_fuel`
/// shows any sufficient fuel gives the same result.
pub open spec fn solve_rec(pool: Seq<Word>, secret: Word, g: Word, fuel: int) -> Result<
    (int, Word),
    SolveError,
>
    decreases fuel,
{
    if g@ == secret@ {
        Ok((0, g))
    } else if fuel <= 0 {
        Err(SolveError::ExhaustedCandidates)
    } else {
        let np = pool.filter(next_keeps(g@, score_spec(secret@, g@)));
        if np.len() == 0 {
            Err(SolveError::ExhaustedCandidates)
        } else {
            match solve_rec(np, secret, sort_pairs(pairs_spec(np, np))[0].0, fuel - 1) {
                Ok(p) => Ok((p.0 + 1, p.1)),
                Err(e) => Err(e),
            }
        }
    }
}

/// After one recursion step the remaining fuel still suffices: the filtered
/// pool either lost the guess (strictly smaller) or the guess was outside,
/// and the next guess is always drawn from the filtered pool.
proof fn lemma_solve_step_fuel(pool: Seq<Word>, secret: Word, g: Word)
    requires
        g@ != secret@,
        pool.filter(next_keeps(g@, score_spec(secret@, g@))).len() > 0,
    ensures
        ({
            let np = pool.filter(next_keeps(g@, score_spec(secret@, g@)));
            solve_fuel(np, sort_pairs(pairs_spec(np, np))[0].0) <= solve_fuel(pool, g) - 1
        }),
{
    let np = pool.filter(next_keeps(g@, score_spec(secret@, g@)));
    let pairs = pairs_spec(np, np);
    let gn = sort_pairs(pairs)[0].0;
    pool.lemma_filter_len(next_keeps(g@, score_spec(secret@, g@)));
    lemma_sort_pairs_props(pairs);
    lemma_sort_pairs_membership(pairs, 0);
    let j = choose|j: int| 0 <= j < pairs.len() && pairs[j] == sort_pairs(pairs)[0];
    assert(np[j]@ == gn@);
    assert(has_word(np, gn));
    if has_word(pool, g) {
        let k = choose|k: int| 0 <= k < pool.len() && pool[k]@ == g@;
        lemma_filter_skips_one(pool, next_keeps(g@, score_spec(secret@, g@)), k);
    }
}

/// The result of the solving recursion does not depend on the fuel, as
/// long as the fuel suffices for the state it starts from.
pub proof fn lemma_solve_rec_fuel(pool: Seq<Word>, secret: Word, g: Word, f1: int, f2: int)
    requires
        f1 >= solve_fuel(pool, g),
        f2 >= solve_fuel(pool, g),
    ensures
        solve_rec(pool, secret, g, f1) == solve_rec(pool, secret, g, f2),
    decreases f1 + f2,
{
    if g@ != secret@ {
        let np = pool.filter(next_keeps(g@, score_spec(secret@, g@)));
        if np.len() > 0 {
            let gn = sort_pairs(pairs_spec(np, np))[0].0;
            lemma_solve_step_fuel(pool, secret, g);
            lemma_solve_rec_fuel(np, secret, gn, f1 - 1, f2 - 1);
        }
    }
}

/// The pool left after filtering `words` by each of the first `k` scored
/// guesses in turn.
pub open spec fn filtered_pool(words: Seq<Word>, history: Seq<(Word, Score)>, k: int) -> Seq<Word>
    decreases k,
{
    if k <= 0 {
        words
    } else {
        filtered_pool(words, history, k - 1).filter(
            next_keeps(history[k - 1].0@, history[k - 1].1@),
        )
    }
}

/// Pool size is non-increasing across successive filtering steps: a later
/// pool is never larger than an earlier one.
pub proof fn lemma_filtered_pool_mono(
    words: Seq<Word>,
    history: Seq<(Word, Score)>,
    j: int,
    k: int,
)
    requires
        0 <= j <= k,
    ensures
        filtered_pool(words, history, k).len() <= filtered_pool(words, history, j).len(),
    decreases k - j,
{
    if j < k {
        lemma_filtered_pool_mono(words, history, j, k - 1);
        filtered_pool(words, history, k - 1).lemma_filter_len(
            next_keeps(history[k - 1].0@, history[k - 1].1@),
        );
    }
}

/// The single best next guess after a run of scored guesses: the dictionary
/// is filtered by each scored guess in turn and the surviving pool is
/// ranked against itself. An empty surviving pool means the feedback was
/// contradictory or the secret is outside the dictionary.
pub fn suggest_next(words: &Vec<Word>, history: &Vec<(Word, Score)>) -> (r: Result<
    Word,
    SolveError,
>)
    requires
        forall|k: int| 0 <= k < words@.len() ==> word_wf(#[trigger] words@[k]@),
        forall|k: int| 0 <= k < history@.len() ==> word_wf((#[trigger] history@[k]).0@),
        words@.len() < 0x1_0000_0000,
    ensures
        r is Ok <==> filtered_pool(words@, history@, history@.len() as int).len() > 0,
        r is Err ==> r->Err_0 == SolveError::ExhaustedCandidates,
        r is Ok ==> {
            let pool = filtered_pool(words@, history@, history@.len() as int);
            r->Ok_0 == sort_pairs(pairs_spec(pool, pool))[0].0
        },
        r is Ok ==> word_wf(r->Ok_0@),
{
    let mut pool: Vec<Word> = Vec::new();
    let n = words.len();
    for k in 0..n
        invariant
            n == words@.len(),
            pool@ == words@.subrange(0, k as int),
    {
        pool.push(words[k]);
    }
    proof {
        assert(words@.subrange(0, n as int) =~= words@);
    }
    let m = history.len();
    for k in 0..m
        invariant
            m == history@.len(),
            forall|j: int| 0 <= j < history@.len() ==> word_wf((#[trigger] history@[j]).0@),
            pool@ == filtered_pool(words@, history@, k as int),
            pool@.len() <= words@.len(),
            words@.len() < 0x1_0000_0000,
            forall|j: int| 0 <= j < pool@.len() ==> word_wf(#[trigger] pool@[j]@),
    {
        let pair = &history[k];
        pool = next_words(&pool, &pair.1, &pair.0);
    }
    if pool.is_empty() {
        return Err(SolveError::ExhaustedCandidates);
    }
    match rankguesses(&pool, &pool) {
        Ok(ranked) => {
            proof {
                assert(pool@.contains(ranked@[0].0));
                let j = choose|j: int| 0 <= j < pool@.len() && pool@[j] == ranked@[0].0;
            }
            Ok(ranked[0].0)
        },
        Err(_) => Err(SolveError::ExhaustedCandidates),
    }
}

/// Adds already-taken rounds to the count a recursion result reports.
pub open spec fn add_count(r: Result<(int, Word), SolveError>, i: int) -> Result<
    (int, Word),
    SolveError,
> {
    match r {
        Ok(p) => Ok((p.0 + i, p.1)),
        Err(e) => Err(e),
    }
}

/// Runs the solving loop from an opening guess until it reaches the secret,
/// returning how many filtering rounds that took together with the final
/// guess, which is the secret itself; the pair is exactly what the
/// recursion `solve_rec` computes. The loop terminates: each ranked next
/// guess belongs to the pool, and the following filtering step removes it,
/// so the pool shrinks strictly. Filtering by feedback the secret itself
/// produced never discards the secret, so a secret drawn from the
/// dictionary is always found; an exhausted pool can only mean the secret
/// was outside, and ends the search instead of looping forever.
pub fn solve(words: &Vec<Word>, word: &Word, guess: &Word) -> (r: Result<(u32, Word), SolveError>)
    requires
        word_wf(word@),
        word_wf(guess@),
        forall|k: int| 0 <= k < words@.len() ==> word_wf(#[trigger] words@[k]@),
        words@.len() < 0xFFFF_FFFF,
    ensures
        r is Ok ==> solve_rec(words@, *word, *guess, 2 * words@.len() as int + 1) == Ok::<
            (int, Word),
            SolveError,
        >(((r->Ok_0).0 as int, (r->Ok_0).1)),
        r is Err ==> solve_rec(words@, *word, *guess, 2 * words@.len() as int + 1) == Err::<
            (int, Word),
            SolveError,
        >(r->Err_0),
        r is Ok ==> (r->Ok_0).1@ == word@,
        guess@ == word@ ==> r == Ok::<(u32, Word), SolveError>((0u32, *guess)),
        r is Ok && guess@ != word@ ==> (r->Ok_0).0 >= 1,
        r is Err ==> r->Err_0 == SolveError::ExhaustedCandidates && guess@ != word@,
        has_word(words@, *word) ==> r is Ok,
{
    let ghost full_rec = solve_rec(words@, *word, *guess, 2 * words@.len() as int + 1);
    let mut i: u32 = 0;
    let mut nw: Vec<Word> = Vec::new();
    let n = words.len();
    for k in 0..n
        invariant
            n == words@.len(),
            nw@ == words@.subrange(0, k as int),
    {
        nw.push(words[k]);
    }
    proof {
        assert(words@.subrange(0, n as int) =~= words@);
        assert forall|f: int| f >= solve_fuel(nw@, *guess) implies full_rec == add_count(
            solve_rec(nw@, *word, *guess, f),
            0,
        ) by {
            lemma_solve_rec_fuel(words@, *word, *guess, 2 * words@.len() as int + 1, f);
        }
    }
    let mut next_guess: Word = *guess;

    while !words_equal(&next_guess, word)
        invariant
            word_wf(word@),
            word_wf(guess@),
            word_wf(next_guess@),
            words@.len() < 0xFFFF_FFFF,
            full_rec == solve_rec(words@, *word, *guess, 2 * words@.len() as int + 1),
            forall|k: int| 0 <= k < nw@.len() ==> word_wf(#[trigger] nw@[k]@),
            nw@.len() <= words@.len(),
            i == 0 ==> next_guess == *guess && nw@ == words@,
            i >= 1 ==> i as int <= words@.len() + 1 - nw@.len() && has_word(nw@, next_guess)
                && guess@ != word@,
            has_word(words@, *word) ==> has_word(nw@, *word),
            forall|f: int| f >= solve_fuel(nw@, next_guess) ==> full_rec == add_count(
                solve_rec(nw@, *word, next_guess, f),
                i as int,
            ),
        decreases solve_fuel(nw@, next_guess),
    {
        let ghost old_pool = nw@;
        let ghost g0 = next_guess;
        let score = mark_guess(word, &next_guess);
        nw = next_words(&nw, &score, &next_guess);
        proof {
            if has_word(old_pool, g0) {
                let j = choose|j: int| 0 <= j < old_pool.len() && old_pool[j]@ == g0@;
                lemma_filter_skips_one(old_pool, next_keeps(g0@, score@), j);
            }
            if has_word(old_pool, *word) {
                // the secret survives its own feedback, so the pool keeps it
                let j = choose|j: int| 0 <= j < old_pool.len() && old_pool[j]@ == word@;
                lemma_filter_sound(word@, g0@);
                old_pool.lemma_filter_contains(next_keeps(g0@, score@), j);
                let k = choose|k: int| 0 <= k < nw@.len() && nw@[k] == old_pool[j];
                assert(nw@[k]@ == word@);
            }
        }
        if nw.len() == 0 {
            proof {
                if has_word(words@, *word) {
                    let k = choose|k: int| 0 <= k < nw@.len() && nw@[k]@ == word@;
                }
                let f0 = solve_fuel(old_pool, g0);
                assert(full_rec == add_count(solve_rec(old_pool, *word, g0, f0), i as int));
                assert(solve_rec(old_pool, *word, g0, f0) == Err::<(int, Word), SolveError>(
                    SolveError::ExhaustedCandidates,
                ));
            }
            return Err(SolveError::ExhaustedCandidates);
        }
        let ranked = match rankguesses(&nw, &nw) {
            Ok(v) => v,
            Err(_) => {
                return Err(SolveError::ExhaustedCandidates);
            },
        };
        next_guess = ranked[0].0;
        i = i + 1;
        proof {
            lemma_solve_step_fuel(old_pool, *word, g0);
            assert forall|f: int| f >= solve_fuel(nw@, next_guess) implies full_rec == add_count(
                solve_rec(nw@, *word, next_guess, f),
                i as int,
            ) by {
                let f0 = solve_fuel(old_pool, g0);
                assert(full_rec == add_count(solve_rec(old_pool, *word, g0, f0), (i - 1) as int));
                assert(f0 - 1 >= solve_fuel(nw@, next_guess));
                lemma_solve_rec_fuel(nw@, *word, next_guess, f0 - 1, f);
                assert(solve_rec(old_pool, *word, g0, f0) == (match solve_rec(
                    nw@,
                    *word,
                    next_guess,
                    f0 - 1,
                ) {
                    Ok(p) => Ok::<(int, Word), SolveError>((p.0 + 1, p.1)),
                    Err(e) => Err::<(int, Word), SolveError>(e),
                }));
            }
        }
    }
    proof {
        let f0 = solve_fuel(nw@, next_guess);
        assert(full_rec == add_count(solve_rec(nw@, *word, next_guess, f0), i as int));
        assert(solve_rec(nw@, *word, next_guess, f0) == Ok::<(int, Word), SolveError>((
            0,
            next_guess,
        )));
    }
    Ok((i, next_guess))
}

} // verus!
