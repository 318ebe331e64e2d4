//! Words as fixed sequences of five letter indices, the codec between text
//! and that representation, and per-letter occurrence counts.

use vstd::prelude::*;

verus! {

/// The errors the solver can raise.
#[derive(Clone, Copy, Debug, PartialEq, Eq, Structural)]
pub enum SolveError {
    /// A word text is not exactly five lowercase ASCII letters.
    InvalidWord,
    /// A feedback hint holds a character outside `x`, `g`, `y`, `-`.
    InvalidHint,
    /// The candidate pool became empty while solving: the feedback seen so
    /// far is contradictory or the secret is outside the dictionary.
    ExhaustedCandidates,
    /// Ranking was invoked with an empty secret pool.
    EmptyPool,
}

/// A word: five letter indices, each in `[0, 26)`.
#[derive(Clone, Copy, Debug, PartialEq, Eq)]
pub struct Word {
    pub chars: [u8; 5],
}

impl View for Word {
    type V = Seq<u8>;

    open spec fn view(&self) -> Seq<u8> {
        self.chars@
    }
}

/// A well-formed word holds exactly five letter indices below 26.
pub open spec fn word_wf(w: Seq<u8>) -> bool {
    &&& w.len() == 5
    &&& forall|i: int| 0 <= i < 5 ==> w[i] < 26
}

/// Number of positions `j < n` of `s` holding the letter `c`.
pub open spec fn count_upto(s: Seq<u8>, c: u8, n: int) -> int
    decreases n,
{
    if n <= 0 {
        0
    } else {
        count_upto(s, c, n - 1) + if s[n - 1] == c {
            1int
        } else {
            0int
        }
    }
}

/// Number of occurrences of the letter `c` in the whole of `s`.
pub open spec fn letter_count(s: Seq<u8>, c: u8) -> int {
    count_upto(s, c, s.len() as int)
}

pub proof fn lemma_count_upto_bounds(s: Seq<u8>, c: u8, n: int)
    ensures
        0 <= count_upto(s, c, n),
        n >= 0 ==> count_upto(s, c, n) <= n,
    decreases n,
{
    if n > 0 {
        lemma_count_upto_bounds(s, c, n - 1);
    }
}

/// Counting over a longer prefix sees at least as many occurrences; a
/// matching position strictly in between adds at least one.
pub proof fn lemma_count_upto_mono(s: Seq<u8>, c: u8, m: int, n: int)
    requires
        0 <= m <= n,
    ensures
        count_upto(s, c, m) <= count_upto(s, c, n),
        m < n && s[m] == c ==> count_upto(s, c, m) < count_upto(s, c, n),
    decreases n - m,
{
    if m < n {
        lemma_count_upto_mono(s, c, m + 1, n);
    }
}

/// Per-letter counts match `w`: slot `c` holds the occurrences of `c` in `w`.
pub open spec fn counts_match(counts: Seq<u8>, w: Seq<u8>) -> bool {
    &&& counts.len() == 26
    &&& forall|c: int| 0 <= c < 26 ==> counts[c] as int == letter_count(w, c as u8)
}

/// How many times each of the 26 letters occurs in one word.
#[derive(Clone, Copy, Debug)]
pub struct CharCount {
    pub count: [u8; 26],
}

/// Tallies the occurrences of each letter of `word`.
pub fn count_word(word: &Word) -> (cf: CharCount)
    requires
        word_wf(word@),
    ensures
        counts_match(cf.count@, word@),
{
    let mut cf = CharCount { count: [0; 26] };
    for i in 0..5
        invariant
            word_wf(word@),
            cf.count@.len() == 26,
            forall|c: int| 0 <= c < 26 ==> cf.count@[c] as int == count_upto(word@, c as u8, i as int),
    {
        let idx = word.chars[i] as usize;
        proof {
            lemma_count_upto_bounds(word@, word@[i as int], i as int);
        }
        cf.count[idx] = cf.count[idx] + 1;
    }
    cf
}

/// Text that the codec accepts: exactly five lowercase ASCII letters.
pub open spec fn text_valid(s: Seq<char>) -> bool {
    &&& s.len() == 5
    &&& forall|i: int| 0 <= i < 5 ==> 'a' <= #[trigger] s[i] && s[i] <= 'z'
}

/// The letter indices a valid text encodes to.
pub open spec fn encode_spec(s: Seq<char>) -> Seq<u8> {
    Seq::new(5, |i: int| (s[i] as int - 'a' as int) as u8)
}

/// The text a well-formed word decodes to.
pub open spec fn decode_spec(w: Seq<u8>) -> Seq<char> {
    Seq::new(5, |i: int| (w[i] as int + 'a' as int) as char)
}

/// Maps five lowercase ASCII letters to their letter indices; any other
/// text is rejected.
pub fn encode_word(word: &str) -> (r: Result<Word, SolveError>)
    ensures
        r is Ok <==> text_valid(word@),
        r is Ok ==> word_wf(r->Ok_0@) && r->Ok_0@ == encode_spec(word@),
        r is Err ==> r->Err_0 == SolveError::InvalidWord,
{
    let len = word.unicode_len();
    if len != 5 {
        return Err(SolveError::InvalidWord);
    }
    let mut w = Word { chars: [0; 5] };
    for i in 0..5
        invariant
            word@.len() == 5,
            w.chars@.len() == 5,
            forall|j: int|
                0 <= j < i ==> 'a' <= #[trigger] word@[j] && word@[j] <= 'z' && w.chars@[j] as int
                    == word@[j] as int - 'a' as int,
    {
        let c = word.get_char(i);
        if c < 'a' || c > 'z' {
            return Err(SolveError::InvalidWord);
        }
        w.chars[i] = (c as u8) - 97;
    }
    proof {
        assert(w@ =~= encode_spec(word@));
    }
    Ok(w)
}

/// Relies on std's `String::push`: appends the character to the end of the
/// string.
pub assume_specification[ String::push ](s: &mut String, c: char)
    ensures
        final(s)@ == old(s)@.push(c),
;

/// Maps a word's letter indices back to their lowercase text; the inverse
/// of `encode_word`, total on well-formed words.
pub fn decode_word(word: &Word) -> (s: String)
    requires
        word_wf(word@),
    ensures
        s@ == decode_spec(word@),
{
    let mut s = String::new();
    for i in 0..5
        invariant
            word_wf(word@),
            s@.len() == i,
            forall|j: int| 0 <= j < i ==> s@[j] == decode_spec(word@)[j],
    {
        let b = word.chars[i];
        let c = (b + 97) as char;
        s.push(c);
    }
    proof {
        assert(s@ =~= decode_spec(word@));
    }
    s
}

/// Encodes a whole dictionary of texts, validating each entry; the first
/// invalid entry rejects the dictionary.
pub fn encode_words(texts: &Vec<String>) -> (r: Result<Vec<Word>, SolveError>)
    ensures
        r is Ok <==> (forall|k: int| 0 <= k < texts@.len() ==> text_valid(#[trigger] texts@[k]@)),
        r is Ok ==> r->Ok_0@.len() == texts@.len() && (forall|k: int|
            0 <= k < texts@.len() ==> word_wf(#[trigger] r->Ok_0@[k]@) && r->Ok_0@[k]@
                == encode_spec(texts@[k]@)),
        r is Err ==> r->Err_0 == SolveError::InvalidWord,
{
    let mut words: Vec<Word> = Vec::new();
    let n = texts.len();
    for k in 0..n
        invariant
            n == texts@.len(),
            words@.len() == k,
            forall|j: int| 0 <= j < k ==> text_valid(#[trigger] texts@[j]@),
            forall|j: int| 0 <= j < k ==> word_wf((#[trigger] words@[j])@),
            forall|j: int| 0 <= j < k ==> (#[trigger] words@[j])@ == encode_spec(texts@[j]@),
    {
        let w = match encode_word(texts[k].as_str()) {
            Ok(w) => w,
            Err(e) => {
                return Err(e);
            },
        };
        words.push(w);
    }
    Ok(words)
}

/// Round trip: decoding an encoded text gives the text back, for every
/// valid five-letter lowercase text.
pub proof fn lemma_round_trip(s: Seq<char>)
    requires
        text_valid(s),
    ensures
        decode_spec(encode_spec(s)) == s,
{
    assert(decode_spec(encode_spec(s)) =~= s);
}

/// Compares two words letter by letter; equality of the views.
pub fn words_equal(a: &Word, b: &Word) -> (r: bool)
    ensures
        r <==> a@ == b@,
{
    let r = a.chars[0] == b.chars[0] && a.chars[1] == b.chars[1] && a.chars[2] == b.chars[2]
        && a.chars[3] == b.chars[3] && a.chars[4] == b.chars[4];
    proof {
        if r {
            assert(a@ =~= b@);
        }
    }
    r
}

} // verus!
