//! Candidate filtering, guess scoring, and the suggestion engine.
//!
//! A word of the bank remains a candidate while it is consistent with
//! every recorded clue: it would have produced exactly the feedback each
//! clue records. A ranker scores a prospective guess by how it splits
//! the remaining candidates into feedback buckets; the engine returns
//! the bank word with the highest score, earliest bank position first.

use super::feedback::{feedback_spec, Clues, Color, WordClues};
use super::word_index::WordProcessor;
use vstd::prelude::*;

verus! {

/// The letter sequences of a sequence of indexed words.
pub open spec fn words_of(s: Seq<WordProcessor>) -> Seq<Seq<u8>> {
    s.map_values(|p: WordProcessor| p@)
}

/// Whether word `w` would have produced exactly the feedback clue `c` records.
pub open spec fn clue_matches(w: Seq<u8>, c: WordClues) -> bool {
    w.len() == c.word@.len() && c.clues@ == feedback_spec(c.word@, w)
}

/// Whether `w` is consistent with every recorded clue.
pub open spec fn consistent_all(w: Seq<u8>, clues: Seq<WordClues>) -> bool {
    forall|k: int| 0 <= k < clues.len() ==> clue_matches(w, #[trigger] clues[k])
}

/// The candidate set: the words of the bank consistent with every clue,
/// in bank order.
pub open spec fn candidates_spec(bank: Seq<Seq<u8>>, clues: Seq<WordClues>) -> Seq<Seq<u8>>
    decreases bank.len(),
{
    if bank.len() == 0 {
        Seq::empty()
    } else {
        let rest = candidates_spec(bank.drop_last(), clues);
        if consistent_all(bank.last(), clues) {
            rest.push(bank.last())
        } else {
            rest
        }
    }
}

/// Extending the bank by one word extends the candidate set by that word
/// exactly when the word is consistent.
proof fn lemma_candidates_push(bank: Seq<Seq<u8>>, clues: Seq<WordClues>, w: Seq<u8>)
    ensures
        candidates_spec(bank.push(w), clues) == if consistent_all(w, clues) {
            candidates_spec(bank, clues).push(w)
        } else {
            candidates_spec(bank, clues)
        },
{
    assert(bank.push(w).drop_last() =~= bank);
    assert(bank.push(w).last() == w);
}

/// Every candidate is a word of the bank, and is consistent with every clue.
proof fn lemma_candidates_elements(bank: Seq<Seq<u8>>, clues: Seq<WordClues>, i: int)
    requires
        0 <= i < candidates_spec(bank, clues).len(),
    ensures
        bank.contains(candidates_spec(bank, clues)[i]),
        consistent_all(candidates_spec(bank, clues)[i], clues),
    decreases bank.len(),
{
    if bank.len() > 0 {
        let rest = candidates_spec(bank.drop_last(), clues);
        if i < rest.len() {
            lemma_candidates_elements(bank.drop_last(), clues, i);
            let w = rest[i];
            let k = choose|k: int| 0 <= k < bank.drop_last().len() && bank.drop_last()[k] == w;
            assert(bank[k] == w);
        } else {
            assert(bank[bank.len() - 1] == bank.last());
        }
    }
}

/// A sequence whose words are all consistent filters to itself.
proof fn lemma_candidates_fixed(s: Seq<Seq<u8>>, clues: Seq<WordClues>)
    requires
        forall|i: int| 0 <= i < s.len() ==> consistent_all(#[trigger] s[i], clues),
    ensures
        candidates_spec(s, clues) == s,
    decreases s.len(),
{
    if s.len() > 0 {
        assert(consistent_all(s[s.len() - 1], clues));
        lemma_candidates_fixed(s.drop_last(), clues);
        assert(candidates_spec(s, clues) =~= s);
    } else {
        assert(candidates_spec(s, clues) =~= s);
    }
}

/// Filtering the candidate set again with the same clue list yields the
/// same set as filtering once.
pub proof fn lemma_candidates_idempotent(bank: Seq<Seq<u8>>, clues: Seq<WordClues>)
    ensures
        candidates_spec(candidates_spec(bank, clues), clues) == candidates_spec(bank, clues),
{
    let c = candidates_spec(bank, clues);
    assert forall|i: int| 0 <= i < c.len() implies consistent_all(#[trigger] c[i], clues) by {
        lemma_candidates_elements(bank, clues, i);
    }
    lemma_candidates_fixed(c, clues);
}

/// Adding a clue never increases the candidate set's size.
pub proof fn lemma_candidates_monotone(bank: Seq<Seq<u8>>, clues: Seq<WordClues>, clue: WordClues)
    ensures
        candidates_spec(bank, clues.push(clue)).len() <= candidates_spec(bank, clues).len(),
    decreases bank.len(),
{
    if bank.len() > 0 {
        lemma_candidates_monotone(bank.drop_last(), clues, clue);
        if consistent_all(bank.last(), clues.push(clue)) {
            assert forall|k: int| 0 <= k < clues.len() implies clue_matches(
                bank.last(),
                #[trigger] clues[k],
            ) by {
                assert(clues.push(clue)[k] == clues[k]);
                assert(clue_matches(bank.last(), clues.push(clue)[k]));
            }
            assert(consistent_all(bank.last(), clues));
        }
    }
}

/// The feedback each candidate solution would give for guess `word`.
pub open spec fn feedbacks_of(word: Seq<u8>, sols: Seq<Seq<u8>>) -> Seq<Seq<Color>> {
    sols.map_values(|s: Seq<u8>| feedback_spec(word, s))
}

/// How many of the first `k` feedback records equal `fb`.
pub open spec fn bucket_count(fbs: Seq<Seq<Color>>, fb: Seq<Color>, k: int) -> nat
    decreases k,
{
    if k <= 0 {
        0
    } else {
        bucket_count(fbs, fb, k - 1) + (if fbs[k - 1] == fb {
            1nat
        } else {
            0nat
        })
    }
}

/// The size of the largest feedback bucket rooted at one of the first
/// `k` records, counted over the whole sequence.
pub open spec fn max_bucket(fbs: Seq<Seq<Color>>, k: int) -> nat
    decreases k,
{
    if k <= 0 {
        0
    } else {
        let c = bucket_count(fbs, fbs[k - 1], fbs.len() as int);
        let m = max_bucket(fbs, k - 1);
        if c > m {
            c
        } else {
            m
        }
    }
}

/// How many distinct feedback records appear among the first `k`.
pub open spec fn distinct_count(fbs: Seq<Seq<Color>>, k: int) -> nat
    decreases k,
{
    if k <= 0 {
        0
    } else {
        distinct_count(fbs, k - 1) + (if exists|j: int| 0 <= j < k - 1 && #[trigger] fbs[j] == fbs[k - 1] {
            0nat
        } else {
            1nat
        })
    }
}

/// A bucket never holds more than the first `k` records.
proof fn lemma_bucket_count_le(fbs: Seq<Seq<Color>>, fb: Seq<Color>, k: int)
    requires
        k >= 0,
    ensures
        bucket_count(fbs, fb, k) <= k,
    decreases k,
{
    if k > 0 {
        lemma_bucket_count_le(fbs, fb, k - 1);
    }
}

/// A record's own bucket holds at least that record.
proof fn lemma_bucket_count_pos(fbs: Seq<Seq<Color>>, fb: Seq<Color>, i: int, k: int)
    requires
        0 <= i < k,
        fbs[i] == fb,
    ensures
        bucket_count(fbs, fb, k) >= 1,
    decreases k,
{
    if i < k - 1 {
        lemma_bucket_count_pos(fbs, fb, i, k - 1);
    }
}

/// The largest bucket never exceeds the number of records.
proof fn lemma_max_bucket_le(fbs: Seq<Seq<Color>>, k: int)
    ensures
        max_bucket(fbs, k) <= fbs.len(),
    decreases k,
{
    if k > 0 {
        lemma_max_bucket_le(fbs, k - 1);
        lemma_bucket_count_le(fbs, fbs[k - 1], fbs.len() as int);
    }
}

/// With at least one record, the largest bucket holds at least one.
proof fn lemma_max_bucket_pos(fbs: Seq<Seq<Color>>, k: int)
    requires
        1 <= k <= fbs.len(),
    ensures
        max_bucket(fbs, k) >= 1,
    decreases k,
{
    if k == 1 {
        lemma_bucket_count_pos(fbs, fbs[0], 0, fbs.len() as int);
    } else {
        lemma_max_bucket_pos(fbs, k - 1);
    }
}

/// No more distinct records than records.
proof fn lemma_distinct_count_le(fbs: Seq<Seq<Color>>, k: int)
    requires
        k >= 0,
    ensures
        distinct_count(fbs, k) <= k,
    decreases k,
{
    if k > 0 {
        lemma_distinct_count_le(fbs, k - 1);
    }
}

/// All records among the first `k` are distinct exactly when the
/// distinct count reaches `k`.
proof fn lemma_distinct_count_full(fbs: Seq<Seq<Color>>, k: int)
    requires
        k >= 0,
    ensures
        distinct_count(fbs, k) == k <==> (forall|i: int, j: int|
            0 <= i < j < k ==> fbs[i] != fbs[j]),
    decreases k,
{
    if k > 0 {
        lemma_distinct_count_full(fbs, k - 1);
        lemma_distinct_count_le(fbs, k - 1);
        let dup = exists|j: int| 0 <= j < k - 1 && #[trigger] fbs[j] == fbs[k - 1];
        if distinct_count(fbs, k) == k {
            assert(distinct_count(fbs, k - 1) == k - 1 && !dup);
            assert forall|i: int, j: int| 0 <= i < j < k implies fbs[i] != fbs[j] by {
                if j < k - 1 {
                } else {
                    assert(!(0 <= i < k - 1 && fbs[i] == fbs[k - 1]));
                }
            }
        }
        if forall|i: int, j: int| 0 <= i < j < k ==> fbs[i] != fbs[j] {
            assert forall|i: int, j: int| 0 <= i < j < k - 1 implies fbs[i] != fbs[j] by {}
            assert(distinct_count(fbs, k - 1) == k - 1);
            if dup {
                let j = choose|j: int| 0 <= j < k - 1 && #[trigger] fbs[j] == fbs[k - 1];
                assert(fbs[j] == fbs[k - 1]);
                assert(false);
            }
        }
    }
}

/// The minimize-worst-bucket score of `word` against candidate set `sols`:
/// the candidates ruled out even by the least informative feedback.
pub open spec fn worst_bucket_score(sols: Seq<Seq<u8>>, word: Seq<u8>) -> nat {
    let fbs = feedbacks_of(word, sols);
    (sols.len() - max_bucket(fbs, sols.len() as int)) as nat
}

/// The maximize-unique-partitions score of `word` against candidate set
/// `sols`: how many distinguishable feedback buckets the guess creates.
pub open spec fn unique_partitions_score(sols: Seq<Seq<u8>>, word: Seq<u8>) -> nat {
    distinct_count(feedbacks_of(word, sols), sols.len() as int)
}

/// The unique-partitions score never exceeds the number of candidates,
/// and reaches it exactly when the guess distinguishes every pair of
/// candidates.
pub proof fn lemma_unique_partitions_bound(sols: Seq<Seq<u8>>, word: Seq<u8>)
    ensures
        unique_partitions_score(sols, word) <= sols.len(),
        unique_partitions_score(sols, word) == sols.len() <==> (forall|i: int, j: int|
            0 <= i < j < sols.len() ==> feedback_spec(word, sols[i]) != feedback_spec(
                word,
                sols[j],
            )),
{
    let fbs = feedbacks_of(word, sols);
    let n = sols.len() as int;
    lemma_distinct_count_le(fbs, n);
    lemma_distinct_count_full(fbs, n);
    assert(forall|i: int| 0 <= i < n ==> fbs[i] == feedback_spec(word, #[trigger] sols[i]));
}

/// With at least one candidate, the minimize-worst-bucket score lies
/// between zero and one less than the number of candidates.
pub proof fn lemma_worst_bucket_range(sols: Seq<Seq<u8>>, word: Seq<u8>)
    requires
        sols.len() >= 1,
    ensures
        worst_bucket_score(sols, word) <= sols.len() - 1,
{
    let fbs = feedbacks_of(word, sols);
    lemma_max_bucket_pos(fbs, sols.len() as int);
    lemma_max_bucket_le(fbs, sols.len() as int);
}

/// Scores a prospective guess against the remaining candidate set;
/// higher is better. Ties are not broken here: that policy belongs to
/// the suggestion engine.
pub trait Ranker: Sync + Send {
    /// The score, over the mathematical model of the words.
    spec fn rank_spec(&self, solutions: Seq<Seq<u8>>, word: Seq<u8>) -> nat;

    /// Scores `word` against the remaining possible solutions.
    fn rank(&self, possible_solutions: &Vec<WordProcessor>, word: &WordProcessor) -> (r: usize)
        requires
            forall|k: int| #![auto]
                0 <= k < possible_solutions@.len() ==> possible_solutions@[k]@.len()
                    == word@.len(),
        ensures
            r == self.rank_spec(words_of(possible_solutions@), word@),
            r <= possible_solutions@.len(),
    ;
}

/// Computes, for each possible solution, the feedback `word` would earn.
fn feedback_table(possible_solutions: &Vec<WordProcessor>, word: &WordProcessor) -> (r: Vec<Clues>)
    requires
        forall|k: int| #![auto]
            0 <= k < possible_solutions@.len() ==> possible_solutions@[k]@.len() == word@.len(),
    ensures
        r@.len() == possible_solutions@.len(),
        forall|k: int| #![auto]
            0 <= k < r@.len() ==> r@[k]@ == feedbacks_of(word@, words_of(possible_solutions@))[k],
{
    let n = possible_solutions.len();
    let mut r: Vec<Clues> = Vec::new();
    let mut i: usize = 0;
    while i < n
        invariant
            i <= n == possible_solutions@.len(),
            forall|k: int| #![auto]
                0 <= k < possible_solutions@.len() ==> possible_solutions@[k]@.len() == word@.len(),
            r@.len() == i,
            forall|k: int| #![auto]
                0 <= k < i ==> r@[k]@ == feedback_spec(word@, possible_solutions@[k]@),
        decreases n - i,
    {
        let wc = WordClues::from_solution(word, &possible_solutions[i]);
        r.push(wc.clues);
        i = i + 1;
    }
    r
}

/// The minimax heuristic: score a guess by how many candidates even its
/// largest feedback bucket rules out.
pub struct LowestMaxBucketRanker;

impl LowestMaxBucketRanker {
    /// A minimize-worst-bucket ranker.
    pub fn new() -> (r: Self) {
        LowestMaxBucketRanker {  }
    }
}

impl Default for LowestMaxBucketRanker {
    fn default() -> (r: Self) {
        LowestMaxBucketRanker::new()
    }
}

impl Ranker for LowestMaxBucketRanker {
    open spec fn rank_spec(&self, solutions: Seq<Seq<u8>>, word: Seq<u8>) -> nat {
        worst_bucket_score(solutions, word)
    }

    fn rank(&self, possible_solutions: &Vec<WordProcessor>, word: &WordProcessor) -> (r: usize) {
        let fbs = feedback_table(possible_solutions, word);
        let ghost gfbs = feedbacks_of(word@, words_of(possible_solutions@));
        let n = fbs.len();
        let mut m: usize = 0;
        let mut i: usize = 0;
        while i < n
            invariant
                i <= n == fbs@.len() == gfbs.len(),
                forall|k: int| #![auto] 0 <= k < n ==> fbs@[k]@ == gfbs[k],
                m == max_bucket(gfbs, i as int),
                m <= n,
            decreases n - i,
        {
            let mut count: usize = 0;
            let mut j: usize = 0;
            while j < n
                invariant
                    j <= n == fbs@.len() == gfbs.len(),
                    i < n,
                    forall|k: int| #![auto] 0 <= k < n ==> fbs@[k]@ == gfbs[k],
                    count == bucket_count(gfbs, gfbs[i as int], j as int),
                    count <= j,
                decreases n - j,
            {
                if fbs[j] == fbs[i] {
                    count = count + 1;
                }
                j = j + 1;
            }
            if count > m {
                m = count;
            }
            proof {
                lemma_bucket_count_le(gfbs, gfbs[i as int], n as int);
            }
            i = i + 1;
        }
        proof {
            lemma_max_bucket_le(gfbs, n as int);
        }
        n - m
    }
}

/// The information heuristic: score a guess by how many distinct
/// feedback buckets it splits the candidates into.
pub struct LargestUniqueValuesRanker;

impl LargestUniqueValuesRanker {
    /// A maximize-unique-partitions ranker.
    pub fn new() -> (r: Self) {
        LargestUniqueValuesRanker {  }
    }
}

impl Default for LargestUniqueValuesRanker {
    fn default() -> (r: Self) {
        LargestUniqueValuesRanker::new()
    }
}

impl Ranker for LargestUniqueValuesRanker {
    open spec fn rank_spec(&self, solutions: Seq<Seq<u8>>, word: Seq<u8>) -> nat {
        unique_partitions_score(solutions, word)
    }

    fn rank(&self, possible_solutions: &Vec<WordProcessor>, word: &WordProcessor) -> (r: usize) {
        let fbs = feedback_table(possible_solutions, word);
        let ghost gfbs = feedbacks_of(word@, words_of(possible_solutions@));
        let n = fbs.len();
        let mut distinct: usize = 0;
        let mut i: usize = 0;
        while i < n
            invariant
                i <= n == fbs@.len() == gfbs.len(),
                forall|k: int| #![auto] 0 <= k < n ==> fbs@[k]@ == gfbs[k],
                distinct == distinct_count(gfbs, i as int),
                distinct <= i,
            decreases n - i,
        {
            let mut seen = false;
            let mut j: usize = 0;
            while j < i
                invariant
                    j <= i < n == fbs@.len() == gfbs.len(),
                    forall|k: int| #![auto] 0 <= k < n ==> fbs@[k]@ == gfbs[k],
                    seen ==> exists|k: int| 0 <= k < j && #[trigger] gfbs[k] == gfbs[i as int],
                    !seen ==> forall|k: int| 0 <= k < j ==> #[trigger] gfbs[k] != gfbs[i as int],
                decreases i - j,
            {
                if fbs[j] == fbs[i] {
                    seen = true;
                    proof {
                        assert(gfbs[j as int] == gfbs[i as int]);
                    }
                }
                j = j + 1;
            }
            if !seen {
                distinct = distinct + 1;
            }
            proof {
                if seen {
                    assert(exists|k: int| 0 <= k < i && #[trigger] gfbs[k] == gfbs[i as int]);
                } else {
                    assert(!exists|k: int| 0 <= k < i && #[trigger] gfbs[k] == gfbs[i as int]);
                }
            }
            i = i + 1;
        }
        distinct
    }
}

/// Whether `w` is consistent with every recorded clue.
fn is_consistent(w: &WordProcessor, clues: &Vec<WordClues>) -> (r: bool)
    ensures
        r == consistent_all(w@, clues@),
{
    let n = clues.len();
    let mut k: usize = 0;
    while k < n
        invariant
            k <= n == clues@.len(),
            forall|j: int| 0 <= j < k ==> clue_matches(w@, #[trigger] clues@[j]),
        decreases n - k,
    {
        let clue = &clues[k];
        if clue.word.word.len() != w.word.len() {
            assert(!clue_matches(w@, clues@[k as int]));
            return false;
        }
        let fb = WordClues::from_solution(&clue.word, w);
        if !(fb.clues == clue.clues) {
            assert(!clue_matches(w@, clues@[k as int]));
            return false;
        }
        k = k + 1;
    }
    true
}

/// Filters the word bank down to the words consistent with every clue.
///
/// Pure and deterministic: the bank is not changed, the candidate set is
/// recomputed from scratch, and bank order is kept.
pub fn filter_candidates(bank: &Vec<WordProcessor>, clues: &Vec<WordClues>) -> (r: Vec<
    WordProcessor,
>)
    ensures
        words_of(r@) == candidates_spec(words_of(bank@), clues@),
{
    let n = bank.len();
    let mut r: Vec<WordProcessor> = Vec::new();
    let mut i: usize = 0;
    while i < n
        invariant
            i <= n == bank@.len(),
            words_of(r@) == candidates_spec(words_of(bank@.take(i as int)), clues@),
        decreases n - i,
    {
        let ghost prefix = words_of(bank@.take(i as int));
        let ghost r0 = r@;
        if is_consistent(&bank[i], clues) {
            r.push(bank[i].clone());
            proof {
                assert(words_of(r@) =~= words_of(r0).push(bank@[i as int]@));
            }
        }
        proof {
            assert(bank@.take(i + 1) =~= bank@.take(i as int).push(bank@[i as int]));
            assert(words_of(bank@.take(i + 1)) =~= prefix.push(bank@[i as int]@));
            lemma_candidates_push(prefix, clues@, bank@[i as int]@);
        }
        i = i + 1;
    }
    proof {
        assert(bank@.take(n as int) =~= bank@);
    }
    r
}

/// Whether bank position `k` holds a best guess: no bank word scores
/// higher against `cands` under `ranker`, and no earlier word scores as
/// high.
pub open spec fn best_at<T: Ranker>(
    ranker: &T,
    cands: Seq<Seq<u8>>,
    bank: Seq<Seq<u8>>,
    k: int,
) -> bool {
    &&& 0 <= k < bank.len()
    &&& forall|j: int| #![auto]
        0 <= j < bank.len() ==> ranker.rank_spec(cands, bank[j]) <= ranker.rank_spec(
            cands,
            bank[k],
        )
    &&& forall|j: int| #![auto]
        0 <= j < k ==> ranker.rank_spec(cands, bank[j]) < ranker.rank_spec(cands, bank[k])
}

/// All words of a bank share one length.
pub open spec fn bank_uniform(bank: Seq<Seq<u8>>) -> bool {
    forall|i: int, j: int| #![auto]
        0 <= i < bank.len() && 0 <= j < bank.len() ==> bank[i].len() == bank[j].len()
}

/// The suggestion engine: a word bank, fixed for the session, plus the
/// clues recorded so far.
pub struct WordSuggestor {
    /// The full vocabulary; every suggestion is one of these words.
    pub word_bank: Vec<WordProcessor>,
    /// The clues accumulated over past rounds.
    pub word_clues: Vec<WordClues>,
}

impl WordSuggestor {
    /// The words of the bank, in order.
    pub open spec fn bank(&self) -> Seq<Seq<u8>> {
        words_of(self.word_bank@)
    }

    /// The clues recorded so far.
    pub open spec fn clues(&self) -> Seq<WordClues> {
        self.word_clues@
    }

    /// All bank words share one length.
    pub open spec fn wf(&self) -> bool {
        bank_uniform(self.bank())
    }

    /// An engine over `word_bank`, with no clues yet.
    ///
    /// The bank's words must share one length: the puzzle length.
    pub fn new(word_bank: Vec<WordProcessor>) -> (r: Self)
        requires
            bank_uniform(words_of(word_bank@)),
        ensures
            r.bank() == words_of(word_bank@),
            r.clues().len() == 0,
            r.wf(),
    {
        WordSuggestor { word_bank, word_clues: Vec::new() }
    }

    /// Records one more clue.
    pub fn add_clue(&mut self, word_clue: WordClues)
        ensures
            final(self).word_clues@ == old(self).word_clues@.push(word_clue),
            final(self).word_bank@ == old(self).word_bank@,
            final(self).wf() == old(self).wf(),
    {
        self.word_clues.push(word_clue);
    }

    /// Suggests the next guess.
    ///
    /// With no candidate left the clue set is contradictory and the
    /// result is empty; with exactly one candidate that candidate is
    /// returned verbatim, without scoring. Otherwise every bank word is
    /// scored against the candidate set and the best is returned, ties
    /// broken by first position in bank order.
    pub fn suggest_word<T: Ranker>(&self, ranker: &T) -> (r: Vec<u8>)
        requires
            self.wf(),
        ensures
            candidates_spec(self.bank(), self.clues()).len() == 0 ==> r@ == Seq::<u8>::empty(),
            candidates_spec(self.bank(), self.clues()).len() == 1 ==> r@ == candidates_spec(
                self.bank(),
                self.clues(),
            )[0],
            candidates_spec(self.bank(), self.clues()).len() > 1 ==> exists|k: int|
                #![auto]
                best_at(ranker, candidates_spec(self.bank(), self.clues()), self.bank(), k) && r@
                    == self.bank()[k],
    {
        let ghost cands = candidates_spec(self.bank(), self.clues());
        let possible = filter_candidates(&self.word_bank, &self.word_clues);
        if possible.len() == 0 {
            return Vec::new();
        }
        if possible.len() == 1 {
            proof {
                assert(words_of(possible@)[0] == possible@[0]@);
            }
            return vstd::slice::slice_to_vec(possible[0].word.as_slice());
        }
        proof {
            assert forall|k: int, j: int|
                0 <= k < possible@.len() && 0 <= j < self.word_bank@.len() implies (
            #[trigger] possible@[k])@.len() == (#[trigger] self.word_bank@[j])@.len() by {
                assert(words_of(possible@)[k] == possible@[k]@);
                lemma_candidates_elements(self.bank(), self.clues(), k);
                let m = choose|m: int| 0 <= m < self.bank().len() && self.bank()[m] == cands[k];
                assert(self.bank()[m].len() == self.bank()[j].len());
            }
        }
        let n = self.word_bank.len();
        let mut best_idx: usize = 0;
        let mut best = ranker.rank(&possible, &self.word_bank[0]);
        let mut i: usize = 1;
        while i < n
            invariant
                1 <= i <= n == self.word_bank@.len(),
                best_idx < i,
                cands == candidates_spec(self.bank(), self.clues()),
                words_of(possible@) == cands,
                forall|k: int, j: int|
                    0 <= k < possible@.len() && 0 <= j < self.word_bank@.len() ==> (
                #[trigger] possible@[k])@.len() == (#[trigger] self.word_bank@[j])@.len(),
                best == ranker.rank_spec(cands, self.bank()[best_idx as int]),
                forall|j: int| #![auto]
                    0 <= j < i ==> ranker.rank_spec(cands, self.bank()[j]) <= best,
                forall|j: int| #![auto]
                    0 <= j < best_idx ==> ranker.rank_spec(cands, self.bank()[j]) < best,
            decreases n - i,
        {
            let sc = ranker.rank(&possible, &self.word_bank[i]);
            if sc > best {
                best = sc;
                best_idx = i;
            }
            i = i + 1;
        }
        let r = vstd::slice::slice_to_vec(self.word_bank[best_idx].word.as_slice());
        proof {
            assert(r@ == self.bank()[best_idx as int]);
        }
        r
    }
}

} // verus!
