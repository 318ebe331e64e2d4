//! Ranking candidate guesses by how much of the secret pool they are
//! expected to leave standing.
//!
//! For a guess `g` and a pool of possible secrets, every secret `w` is
//! scored hypothetically and the pool filtered by that score; the sizes of
//! the filtered pools are summed. Since every guess is averaged over the
//! same pool, ordering guesses by that integer sum orders them exactly as
//! the average remaining fraction (sum divided by the square of the pool
//! size) would, with no rounding. The per-guess sums are computed in
//! parallel; the final ordering is a stable sort, pinned to a
//! specification function, so the ranking is reproducible whatever the
//! parallel schedule.

use vstd::prelude::*;
use rayon::iter::IntoParallelRefIterator;
use rayon::iter::ParallelIterator;
use crate::filter::next_keeps;
use crate::filter::next_words;
use crate::score::mark_guess;
use crate::score::score_spec;
use crate::word::SolveError;
use crate::word::Word;
use crate::word::count_word;
use crate::word::counts_match;
use crate::word::letter_count;
use crate::word::word_wf;

verus! {

/// How many words of `pool` survive filtering by the score `secret` gives
/// `g`.
pub open spec fn next_len(pool: Seq<Word>, secret: Word, g: Seq<u8>) -> int {
    pool.filter(next_keeps(g, score_spec(secret@, g))).len() as int
}

/// Sum, over the first `k` pool words taken as hypothetical secrets, of how
/// many pool words would survive guessing `g` against them.
pub open spec fn total_upto(g: Seq<u8>, words: Seq<Word>, k: int) -> int
    decreases k,
{
    if k <= 0 {
        0
    } else {
        total_upto(g, words, k - 1) + next_len(words, words[k - 1], g)
    }
}

/// The ranking total of a guess: the sum over the whole pool. Dividing by
/// the square of the pool size gives the average remaining fraction.
pub open spec fn total_spec(g: Seq<u8>, words: Seq<Word>) -> int {
    total_upto(g, words, words.len() as int)
}

/// The ranking total never exceeds the square of the pool size: each of the
/// `k` filtering steps keeps at most the whole pool. The average remaining
/// fraction therefore always lies in `[0, 1]`.
pub proof fn lemma_total_bound(g: Seq<u8>, words: Seq<Word>, k: int)
    requires
        0 <= k <= words.len(),
    ensures
        0 <= total_upto(g, words, k) <= k * words.len(),
        total_upto(g, words, k) <= words.len() * words.len(),
    decreases k,
{
    if k > 0 {
        lemma_total_bound(g, words, k - 1);
        words.lemma_filter_len(next_keeps(g, score_spec(words[k - 1]@, g)));
        assert((k - 1) * words.len() + words.len() == k * words.len()) by (nonlinear_arith);
    }
    assert(k * words.len() <= words.len() * words.len()) by (nonlinear_arith)
        requires
            0 <= k <= words.len(),
    ;
}

/// The ranking total of one guess against a pool of possible secrets.
pub fn guess_total(guess: &Word, words: &Vec<Word>) -> (t: u64)
    requires
        word_wf(guess@),
        forall|k: int| 0 <= k < words@.len() ==> word_wf(#[trigger] words@[k]@),
        words@.len() < 0x1_0000_0000,
    ensures
        t as int == total_spec(guess@, words@),
{
    let mut t: u64 = 0;
    let n = words.len();
    for k in 0..n
        invariant
            n == words@.len(),
            n < 0x1_0000_0000,
            word_wf(guess@),
            forall|j: int| 0 <= j < words@.len() ==> word_wf(#[trigger] words@[j]@),
            t as int == total_upto(guess@, words@, k as int),
            t as int <= (k as int) * (n as int),
    {
        let score = mark_guess(&words[k], guess);
        let nw = next_words(words, &score, guess);
        proof {
            lemma_total_bound(guess@, words@, k as int);
            assert((k as int) * (n as int) + (n as int) == (k as int + 1) * (n as int))
                by (nonlinear_arith);
            assert((k as int + 1) * (n as int) < 0x1_0000_0000_0000_0000) by (nonlinear_arith)
                requires
                    0 <= k as int + 1 <= n as int,
                    (n as int) < 0x1_0000_0000,
            ;
        }
        t = t + nw.len() as u64;
    }
    t
}

/// The pairing of each candidate guess with its ranking total, in the
/// candidates' own order.
pub open spec fn pairs_spec(candidates: Seq<Word>, words: Seq<Word>) -> Seq<(Word, u64)> {
    Seq::new(candidates.len(), |i: int| (candidates[i], total_spec(candidates[i]@, words) as u64))
}

/// Relies on rayon's parallel iterator over a slice: `par_iter` is indexed,
/// `map` keeps it indexed, and collecting an indexed parallel iterator into
/// a `Vec` places each item at its input's position, so the output order
/// matches the input order whatever the parallel schedule. The closure only
/// copies the word and calls the verified `guess_total`, whose contract
/// gives each slot its value.
#[verifier::external_body]
fn par_guess_totals(candidates: &Vec<Word>, words: &Vec<Word>) -> (r: Vec<(Word, u64)>)
    requires
        forall|k: int| 0 <= k < candidates@.len() ==> word_wf(#[trigger] candidates@[k]@),
        forall|k: int| 0 <= k < words@.len() ==> word_wf(#[trigger] words@[k]@),
        words@.len() < 0x1_0000_0000,
    ensures
        r@.len() == candidates@.len(),
        forall|i: int|
            0 <= i < r@.len() ==> (#[trigger] r@[i]).0 == candidates@[i] && r@[i].1 as int
                == total_spec(candidates@[i]@, words@),
{
    candidates.par_iter().map(|g: &Word| (*g, guess_total(g, words))).collect()
}

/// Ordered by ranking total, smallest first.
pub open spec fn sorted_by_total(s: Seq<(Word, u64)>) -> bool {
    forall|i: int, j: int| 0 <= i <= j < s.len() ==> (#[trigger] s[i]).1 <= (#[trigger] s[j]).1
}

/// Inserts a pair into a sequence sorted by total, after every pair whose
/// total does not exceed it: a stable insertion position.
pub open spec fn insert_pair(s: Seq<(Word, u64)>, p: (Word, u64)) -> Seq<(Word, u64)>
    decreases s.len(),
{
    if s.len() == 0 || s.last().1 <= p.1 {
        s.push(p)
    } else {
        insert_pair(s.drop_last(), p).push(s.last())
    }
}

/// The stable sort of guess-total pairs by total: each pair in turn is
/// inserted after its equals, so pairs with equal totals keep their
/// original order.
pub open spec fn sort_pairs(s: Seq<(Word, u64)>) -> Seq<(Word, u64)>
    decreases s.len(),
{
    if s.len() == 0 {
        s
    } else {
        insert_pair(sort_pairs(s.drop_last()), s.last())
    }
}

/// Inserting adds the pair and keeps everything else: one more element, the
/// multiset grown by the pair, and every element drawn from the source.
pub proof fn lemma_insert_pair_props(s: Seq<(Word, u64)>, p: (Word, u64))
    ensures
        insert_pair(s, p).len() == s.len() + 1,
        insert_pair(s, p).to_multiset() == s.to_multiset().insert(p),
        forall|i: int|
            0 <= i < s.len() + 1 ==> (#[trigger] insert_pair(s, p)[i] == p || s.contains(
                insert_pair(s, p)[i],
            )),
    decreases s.len(),
{
    broadcast use vstd::seq_lib::group_to_multiset_ensures;

    if s.len() == 0 || s.last().1 <= p.1 {
        assert forall|i: int| 0 <= i < s.len() implies s.contains(s[i]) by {}
        assert(insert_pair(s, p).to_multiset() =~= s.to_multiset().insert(p));
    } else {
        let dl = s.drop_last();
        let l = s.last();
        lemma_insert_pair_props(dl, p);
        assert(s =~= dl.push(l));
        assert(s.to_multiset() == dl.push(l).to_multiset());
        assert(insert_pair(s, p).to_multiset() =~= dl.to_multiset().insert(p).insert(l));
        assert(s.to_multiset().insert(p) =~= dl.to_multiset().insert(l).insert(p));
        assert(dl.to_multiset().insert(p).insert(l) =~= dl.to_multiset().insert(l).insert(p));
        assert forall|i: int|
            0 <= i < s.len() + 1 implies (#[trigger] insert_pair(s, p)[i] == p || s.contains(
            insert_pair(s, p)[i],
        )) by {
            if i < s.len() {
                let q = insert_pair(dl, p)[i];
                if q != p {
                    let j = choose|j: int| 0 <= j < dl.len() && dl[j] == q;
                    assert(s[j] == q);
                }
            } else {
                assert(s[s.len() - 1] == l);
            }
        }
    }
}

/// Inserting into a sequence sorted by total keeps it sorted.
pub proof fn lemma_insert_pair_sorted(s: Seq<(Word, u64)>, p: (Word, u64))
    requires
        sorted_by_total(s),
    ensures
        sorted_by_total(insert_pair(s, p)),
    decreases s.len(),
{
    if s.len() == 0 || s.last().1 <= p.1 {
    } else {
        let dl = s.drop_last();
        let l = s.last();
        lemma_insert_pair_sorted(dl, p);
        lemma_insert_pair_props(dl, p);
        let t = insert_pair(dl, p).push(l);
        assert forall|i: int, j: int| 0 <= i <= j < t.len() implies (#[trigger] t[i]).1 <= (
        #[trigger] t[j]).1 by {
            if j == t.len() - 1 && i < j {
                let q = t[i];
                if q != p {
                    let m = choose|m: int| 0 <= m < dl.len() && dl[m] == q;
                    assert(s[m].1 <= s[s.len() - 1].1);
                }
            }
        }
    }
}

/// Sorting keeps the length, the multiset of pairs, and sorts by total: the
/// output is a permutation of the input, smallest total first, and pairs
/// with equal totals keep their original order by construction.
pub proof fn lemma_sort_pairs_props(s: Seq<(Word, u64)>)
    ensures
        sort_pairs(s).len() == s.len(),
        sort_pairs(s).to_multiset() == s.to_multiset(),
        sorted_by_total(sort_pairs(s)),
    decreases s.len(),
{
    broadcast use vstd::seq_lib::group_to_multiset_ensures;

    if s.len() > 0 {
        let dl = s.drop_last();
        let l = s.last();
        lemma_sort_pairs_props(dl);
        lemma_insert_pair_props(sort_pairs(dl), l);
        lemma_insert_pair_sorted(sort_pairs(dl), l);
        assert(s =~= dl.push(l));
        assert(s.to_multiset() == dl.push(l).to_multiset());
        assert(sort_pairs(s).to_multiset() =~= s.to_multiset());
    }
}

/// The pairs carrying one given total, in their order of appearance.
pub open spec fn with_total(s: Seq<(Word, u64)>, t: u64) -> Seq<(Word, u64)> {
    s.filter((|p: (Word, u64)| p.1 == t))
}

/// Inserting appends the pair to its equals and leaves every other total's
/// pairs in their order.
proof fn lemma_insert_pair_stable(s: Seq<(Word, u64)>, p: (Word, u64), t: u64)
    ensures
        p.1 == t ==> with_total(insert_pair(s, p), t) == with_total(s, t).push(p),
        p.1 != t ==> with_total(insert_pair(s, p), t) == with_total(s, t),
    decreases s.len(),
{
    reveal(Seq::filter);
    if s.len() == 0 || s.last().1 <= p.1 {
        assert(s.push(p).drop_last() =~= s);
    } else {
        let dl = s.drop_last();
        let l = s.last();
        lemma_insert_pair_stable(dl, p, t);
        assert(insert_pair(dl, p).push(l).drop_last() =~= insert_pair(dl, p));
        assert(dl.push(l) =~= s);
        assert(l.1 > p.1);
    }
}

/// Stability of the sort: for every total, the pairs carrying it come out
/// in exactly the order they went in — ties are broken by the original
/// iteration order.
pub proof fn lemma_sort_pairs_stable(s: Seq<(Word, u64)>, t: u64)
    ensures
        with_total(sort_pairs(s), t) == with_total(s, t),
    decreases s.len(),
{
    if s.len() > 0 {
        let dl = s.drop_last();
        let l = s.last();
        lemma_sort_pairs_stable(dl, t);
        lemma_insert_pair_stable(sort_pairs(dl), l, t);
        reveal(Seq::filter);
        assert(dl.push(l) =~= s);
    }
}

/// Every pair of the sorted sequence occurs in the source.
pub proof fn lemma_sort_pairs_membership(s: Seq<(Word, u64)>, i: int)
    requires
        0 <= i < sort_pairs(s).len(),
    ensures
        s.contains(sort_pairs(s)[i]),
{
    broadcast use vstd::seq_lib::group_to_multiset_ensures;

    lemma_sort_pairs_props(s);
    assert(sort_pairs(s).contains(sort_pairs(s)[i]));
    assert(sort_pairs(s).to_multiset().count(sort_pairs(s)[i]) > 0);
}

/// Inserts `p` into a vector sorted by total, keeping it sorted and placing
/// `p` after every pair whose total does not exceed it.
fn insert_sorted(v: &mut Vec<(Word, u64)>, p: (Word, u64))
    requires
        sorted_by_total(old(v)@),
    ensures
        final(v)@ == insert_pair(old(v)@, p),
{
    let ghost s = v@;
    let n = v.len();
    v.push(p);
    let mut j = n;
    while j > 0 && v[j - 1].1 > p.1
        invariant
            s.len() == n,
            v@.len() == n + 1,
            0 <= j <= n,
            v@ =~= s.subrange(0, j as int).push(p) + s.subrange(j as int, n as int),
            forall|m: int| j <= m < n ==> (#[trigger] s[m]).1 > p.1,
        decreases j,
    {
        let a = v[j - 1];
        v.set(j - 1, p);
        v.set(j, a);
        j = j - 1;
        proof {
            assert(v@ =~= s.subrange(0, j as int).push(p) + s.subrange(j as int, n as int));
        }
    }
    proof {
        lemma_insert_shape(s, p, j as int);
    }
}

/// Where the scan stopped is exactly the insertion point of `insert_pair`.
proof fn lemma_insert_shape(s: Seq<(Word, u64)>, p: (Word, u64), j: int)
    requires
        0 <= j <= s.len(),
        j > 0 ==> s[j - 1].1 <= p.1,
        forall|m: int| j <= m < s.len() ==> (#[trigger] s[m]).1 > p.1,
    ensures
        insert_pair(s, p) == s.subrange(0, j).push(p) + s.subrange(j, s.len() as int),
    decreases s.len(),
{
    if j == s.len() {
        assert(insert_pair(s, p) =~= s.subrange(0, j).push(p) + s.subrange(j, s.len() as int));
    } else {
        let dl = s.drop_last();
        assert(s[s.len() - 1].1 > p.1);
        lemma_insert_shape(dl, p, j);
        assert(dl.subrange(0, j) =~= s.subrange(0, j));
        assert(dl.subrange(j, dl.len() as int) =~= s.subrange(j, s.len() - 1));
        assert(insert_pair(s, p) =~= s.subrange(0, j).push(p) + s.subrange(j, s.len() as int));
    }
}

/// Sorts guess-total pairs by total, stably, pinned to `sort_pairs`.
fn sort_guesses(pairs: &Vec<(Word, u64)>) -> (r: Vec<(Word, u64)>)
    ensures
        r@ == sort_pairs(pairs@),
{
    let mut r: Vec<(Word, u64)> = Vec::new();
    let n = pairs.len();
    for i in 0..n
        invariant
            n == pairs@.len(),
            r@ == sort_pairs(pairs@.subrange(0, i as int)),
            sorted_by_total(r@),
    {
        proof {
            let pre = pairs@.subrange(0, i as int);
            let nxt = pairs@.subrange(0, i as int + 1);
            assert(nxt.drop_last() =~= pre);
            assert(nxt.last() == pairs@[i as int]);
            lemma_insert_pair_sorted(r@, pairs@[i as int]);
        }
        insert_sorted(&mut r, pairs[i]);
    }
    proof {
        assert(pairs@.subrange(0, n as int) =~= pairs@);
    }
    r
}

/// Ranks every candidate guess against the pool of possible secrets,
/// best first: each candidate is paired with its ranking total and the
/// pairs are sorted by total, stably, so the ordering is a function of the
/// inputs alone. An empty secret pool has no average and is rejected.
pub fn rankguesses(candidates: &Vec<Word>, words: &Vec<Word>) -> (r: Result<
    Vec<(Word, u64)>,
    SolveError,
>)
    requires
        forall|k: int| 0 <= k < candidates@.len() ==> word_wf(#[trigger] candidates@[k]@),
        forall|k: int| 0 <= k < words@.len() ==> word_wf(#[trigger] words@[k]@),
        words@.len() < 0x1_0000_0000,
    ensures
        r is Ok <==> words@.len() > 0,
        r is Err ==> r->Err_0 == SolveError::EmptyPool,
        r is Ok ==> r->Ok_0@ == sort_pairs(pairs_spec(candidates@, words@)),
        r is Ok ==> r->Ok_0@.len() == candidates@.len(),
        r is Ok ==> sorted_by_total(r->Ok_0@),
        r is Ok ==> forall|i: int|
            0 <= i < r->Ok_0@.len() ==> candidates@.contains((#[trigger] r->Ok_0@[i]).0),
        r is Ok ==> forall|i: int|
            0 <= i < r->Ok_0@.len() ==> (#[trigger] r->Ok_0@[i]).1 as int <= words@.len()
                * words@.len(),
{
    if words.is_empty() {
        return Err(SolveError::EmptyPool);
    }
    let pairs = par_guess_totals(candidates, words);
    proof {
        assert forall|i: int| 0 <= i < pairs@.len() implies pairs@[i] == pairs_spec(
            candidates@,
            words@,
        )[i] by {
            lemma_total_bound(candidates@[i]@, words@, words@.len() as int);
            assert(words@.len() * words@.len() < 0x1_0000_0000_0000_0000) by (nonlinear_arith)
                requires
                    words@.len() < 0x1_0000_0000,
            ;
        }
        assert(pairs@ =~= pairs_spec(candidates@, words@));
    }
    let sorted = sort_guesses(&pairs);
    proof {
        let ps = pairs_spec(candidates@, words@);
        lemma_sort_pairs_props(ps);
        assert forall|i: int| 0 <= i < sorted@.len() implies candidates@.contains(
            (#[trigger] sorted@[i]).0,
        ) && sorted@[i].1 as int <= words@.len() * words@.len() by {
            lemma_sort_pairs_membership(ps, i);
            let j = choose|j: int| 0 <= j < ps.len() && ps[j] == sorted@[i];
            assert(candidates@[j] == sorted@[i].0);
            lemma_total_bound(candidates@[j]@, words@, words@.len() as int);
        }
    }
    Ok(sorted)
}

/// A word whose every letter occurs at most once.
pub open spec fn no_repeats(w: Seq<u8>) -> bool {
    forall|c: int| 0 <= c < 26 ==> #[trigger] letter_count(w, c as u8) <= 1
}

/// Restricts a pool to the words without repeated letters: candidates for
/// an opening guess, where a duplicate letter would waste a probe.
pub fn determine_candidates(words: &Vec<Word>) -> (res: Vec<Word>)
    requires
        forall|k: int| 0 <= k < words@.len() ==> word_wf(#[trigger] words@[k]@),
    ensures
        res@ == words@.filter((|w: Word| no_repeats(w@))),
        res@.len() <= words@.len(),
        forall|k: int| 0 <= k < res@.len() ==> word_wf(#[trigger] res@[k]@),
{
    let mut res: Vec<Word> = Vec::new();
    let n = words.len();
    for i in 0..n
        invariant
            n == words@.len(),
            forall|k: int| 0 <= k < words@.len() ==> word_wf(#[trigger] words@[k]@),
            res@ == words@.subrange(0, i as int).filter((|w: Word| no_repeats(w@))),
            forall|k: int| 0 <= k < res@.len() ==> word_wf(#[trigger] res@[k]@),
            res@.len() <= i,
    {
        let word = &words[i];
        let cf = count_word(word);
        let mut valid = true;
        for c in 0..26
            invariant
                word_wf(word@),
                counts_match(cf.count@, word@),
                valid <==> (forall|b: int| 0 <= b < c ==> #[trigger] letter_count(word@, b as u8) <= 1),
        {
            if cf.count[c] > 1 {
                valid = false;
            }
        }
        proof {
            reveal(Seq::filter);
            let pre = words@.subrange(0, i as int);
            let nxt = words@.subrange(0, i as int + 1);
            assert(nxt.drop_last() =~= pre);
            assert(nxt.last() == words@[i as int]);
        }
        if valid {
            res.push(*word);
        }
    }
    proof {
        assert(words@.subrange(0, n as int) =~= words@);
        words@.lemma_filter_len((|w: Word| no_repeats(w@)));
    }
    res
}

} // verus!
