//! Ranking guesses: how the candidates spread over the feedback patterns
//! of a guess, and the order in which scored guesses are suggested.

use crate::engine::{gives_feedback, WordleSolver};
use crate::matrix::{lemma_row_bounds, table_entry};
use crate::oracle::{pattern_code, PatternCode, PATTERN_BUCKETS};
use crate::word::{lemma_key_injective, lemma_word_len, lemma_word_view_injective, word_key, Word};
use rayon::iter::{IntoParallelRefIterator, ParallelIterator};
use vstd::prelude::*;

verus! {

/// How many of `candidates` would give the feedback `code` for `guess`.
pub open spec fn feedback_count(guess: Word, candidates: Seq<Word>, code: int) -> nat {
    candidates.filter(gives_feedback(guess, code as PatternCode)).len()
}

/// Whether `counts` is the spread of `candidates` over the feedback
/// patterns of `guess`: one count per pattern code.
pub open spec fn is_feedback_spread(counts: Seq<usize>, guess: Word, candidates: Seq<Word>)
    -> bool {
    &&& counts.len() == 243
    &&& forall|c: int| 0 <= c < 243 ==> #[trigger] counts[c] == feedback_count(guess, candidates, c)
}

/// Two spreads of the same candidates for the same guess are the same.
pub proof fn lemma_spread_unique(
    first: Seq<usize>,
    second: Seq<usize>,
    guess: Word,
    candidates: Seq<Word>,
)
    requires
        is_feedback_spread(first, guess, candidates),
        is_feedback_spread(second, guess, candidates),
    ensures
        first == second,
{
    assert(first =~= second);
}

/// The candidates paired with their scores, in candidate order.
pub open spec fn paired_with_scores(candidates: Seq<Word>, scores: Seq<u64>) -> Seq<ScoredGuess> {
    Seq::new(candidates.len(), |i: int| ScoredGuess { word: candidates[i], score: scores[i] })
}

/// A guess with the integer that stands for its score: a larger integer is
/// a better score.
#[derive(Clone, Copy, Debug, PartialEq, Eq)]
pub struct ScoredGuess {
    pub word: Word,
    pub score: u64,
}

/// Whether `a` is suggested before `b`: the better score first, and among
/// equal scores the word that comes first in the dictionary.
pub open spec fn ranks_before(a: ScoredGuess, b: ScoredGuess) -> bool {
    a.score > b.score || (a.score == b.score && word_key(a.word@) < word_key(b.word@))
}

/// Whether `s` is in suggestion order.
pub open spec fn is_ranked(s: Seq<ScoredGuess>) -> bool {
    forall|i: int, j: int| 0 <= i < j < s.len() ==> !ranks_before(#[trigger] s[j], #[trigger] s[i])
}

/// Of two different scored guesses one ranks before the other.
pub proof fn lemma_ranks_total(a: ScoredGuess, b: ScoredGuess)
    ensures
        a == b || ranks_before(a, b) || ranks_before(b, a),
        !(ranks_before(a, b) && ranks_before(b, a)),
{
    broadcast use lemma_word_len;

    if a.score == b.score && word_key(a.word@) == word_key(b.word@) {
        lemma_key_injective(a.word@, b.word@);
        lemma_word_view_injective(a.word, b.word);
    }
}

/// The suggestion order of a collection of scored guesses is unique: two
/// rankings of the same guesses are the same sequence.
pub proof fn lemma_ranking_unique(a: Seq<ScoredGuess>, b: Seq<ScoredGuess>)
    requires
        is_ranked(a),
        is_ranked(b),
        a.to_multiset() == b.to_multiset(),
    ensures
        a == b,
    decreases a.len(),
{
    broadcast use vstd::seq_lib::group_to_multiset_ensures;

    vstd::seq_lib::to_multiset_len(a);
    vstd::seq_lib::to_multiset_len(b);
    assert(a.len() == b.len());
    if a.len() == 0 {
        assert(a =~= b);
    } else {
        let x = a[0];
        let y = b[0];
        assert(a.contains(x));
        assert(b.contains(y));
        assert(b.to_multiset().count(x) > 0);
        assert(a.to_multiset().count(y) > 0);
        assert(b.contains(x));
        assert(a.contains(y));
        let i = choose|i: int| 0 <= i < b.len() && b[i] == x;
        let j = choose|j: int| 0 <= j < a.len() && a[j] == y;
        lemma_ranks_total(x, y);
        assert(x == y);
        vstd::seq_lib::to_multiset_remove(a, 0);
        vstd::seq_lib::to_multiset_remove(b, 0);
        assert(a.remove(0) =~= a.drop_first());
        assert(b.remove(0) =~= b.drop_first());
        assert(is_ranked(a.drop_first())) by {
            assert forall|i: int, j: int| 0 <= i < j < a.drop_first().len() implies !ranks_before(
                #[trigger] a.drop_first()[j],
                #[trigger] a.drop_first()[i],
            ) by {
                assert(!ranks_before(a[j + 1], a[i + 1]));
            }
        }
        assert(is_ranked(b.drop_first())) by {
            assert forall|i: int, j: int| 0 <= i < j < b.drop_first().len() implies !ranks_before(
                #[trigger] b.drop_first()[j],
                #[trigger] b.drop_first()[i],
            ) by {
                assert(!ranks_before(b[j + 1], b[i + 1]));
            }
        }
        lemma_ranking_unique(a.drop_first(), b.drop_first());
        assert(a =~= seq![x] + a.drop_first());
        assert(b =~= seq![y] + b.drop_first());
    }
}

/// Whether `a` is suggested before `b`.
pub fn ranked_before(a: &ScoredGuess, b: &ScoredGuess) -> (r: bool)
    ensures
        r == ranks_before(*a, *b),
{
    a.score > b.score || (a.score == b.score && a.word.key() < b.word.key())
}

/// If `c` does not come before `b` and `b` does not come before `a`, then
/// `c` does not come before `a`.
proof fn lemma_ranks_transitive(a: ScoredGuess, b: ScoredGuess, c: ScoredGuess)
    requires
        !ranks_before(b, a),
        !ranks_before(c, b),
    ensures
        !ranks_before(c, a),
{
}

/// Merges two rankings into one.
fn merge_ranked(a: &Vec<ScoredGuess>, b: &Vec<ScoredGuess>) -> (r: Vec<ScoredGuess>)
    requires
        is_ranked(a@),
        is_ranked(b@),
    ensures
        is_ranked(r@),
        r@.to_multiset() == a@.to_multiset().add(b@.to_multiset()),
{
    broadcast use vstd::multiset::group_multiset_axioms;

    let mut out: Vec<ScoredGuess> = Vec::new();
    let mut i: usize = 0;
    let mut j: usize = 0;
    proof {
        let none = Seq::<ScoredGuess>::empty();
        assert(a@.take(0) =~= none);
        assert(b@.take(0) =~= none);
        assert(out@ =~= none);
        assert(none + none =~= none);
        vstd::seq_lib::lemma_multiset_commutative(none, none);
    }
    while i < a.len() || j < b.len()
        invariant
            i <= a@.len(),
            j <= b@.len(),
            is_ranked(a@),
            is_ranked(b@),
            is_ranked(out@),
            out@.to_multiset() == a@.take(i as int).to_multiset().add(
                b@.take(j as int).to_multiset(),
            ),
            i < a@.len() ==> forall|k: int|
                0 <= k < out@.len() ==> !ranks_before(a@[i as int], #[trigger] out@[k]),
            j < b@.len() ==> forall|k: int|
                0 <= k < out@.len() ==> !ranks_before(b@[j as int], #[trigger] out@[k]),
        decreases (a@.len() - i) + (b@.len() - j),
    {
        let take_left = if i == a.len() {
            false
        } else if j == b.len() {
            true
        } else {
            !ranked_before(&b[j], &a[i])
        };
        let ghost before = out@;
        if take_left {
            let x = a[i];
            out.push(x);
            proof {
                vstd::seq_lib::to_multiset_build(before, x);
                vstd::seq_lib::to_multiset_build(a@.take(i as int), x);
                assert(a@.take(i + 1) =~= a@.take(i as int).push(x));
                assert(out@.to_multiset() =~= a@.take(i + 1).to_multiset().add(
                    b@.take(j as int).to_multiset(),
                ));
                if i + 1 < a@.len() {
                    assert forall|k: int| 0 <= k < out@.len() implies !ranks_before(
                        a@[i + 1],
                        #[trigger] out@[k],
                    ) by {
                        assert(!ranks_before(a@[i + 1], a@[i as int]));
                        if k < before.len() {
                            assert(out@[k] == before[k]);
                            lemma_ranks_transitive(before[k], x, a@[i + 1]);
                        }
                    }
                }
            }
            i += 1;
        } else {
            let x = b[j];
            out.push(x);
            proof {
                vstd::seq_lib::to_multiset_build(before, x);
                vstd::seq_lib::to_multiset_build(b@.take(j as int), x);
                assert(b@.take(j + 1) =~= b@.take(j as int).push(x));
                assert(out@.to_multiset() =~= a@.take(i as int).to_multiset().add(
                    b@.take(j + 1).to_multiset(),
                ));
                if i < a@.len() {
                    lemma_ranks_total(x, a@[i as int]);
                }
                if j + 1 < b@.len() {
                    assert forall|k: int| 0 <= k < out@.len() implies !ranks_before(
                        b@[j + 1],
                        #[trigger] out@[k],
                    ) by {
                        assert(!ranks_before(b@[j + 1], b@[j as int]));
                        if k < before.len() {
                            assert(out@[k] == before[k]);
                            lemma_ranks_transitive(before[k], x, b@[j + 1]);
                        }
                    }
                }
            }
            j += 1;
        }
    }
    proof {
        assert(a@.take(i as int) =~= a@);
        assert(b@.take(j as int) =~= b@);
    }
    out
}

/// Ranks `items[lo..hi]` by halving and merging.
fn rank_range(items: &Vec<ScoredGuess>, lo: usize, hi: usize) -> (r: Vec<ScoredGuess>)
    requires
        lo <= hi <= items.len(),
    ensures
        is_ranked(r@),
        r@.to_multiset() == items@.subrange(lo as int, hi as int).to_multiset(),
    decreases hi - lo,
{
    if hi - lo <= 1 {
        let mut r: Vec<ScoredGuess> = Vec::new();
        if lo < hi {
            r.push(items[lo]);
        }
        assert(r@ =~= items@.subrange(lo as int, hi as int));
        r
    } else {
        let mid = lo + (hi - lo) / 2;
        let left = rank_range(items, lo, mid);
        let right = rank_range(items, mid, hi);
        proof {
            let whole = items@.subrange(lo as int, hi as int);
            let first = items@.subrange(lo as int, mid as int);
            let second = items@.subrange(mid as int, hi as int);
            assert(whole =~= first + second);
            vstd::seq_lib::lemma_multiset_commutative(first, second);
        }
        merge_ranked(&left, &right)
    }
}

/// Puts scored guesses in suggestion order: best score first, equal scores
/// in dictionary order of their words. The result holds the same guesses,
/// each as often as it was given.
pub fn rank_guesses(items: Vec<ScoredGuess>) -> (r: Vec<ScoredGuess>)
    ensures
        is_ranked(r@),
        r@.to_multiset() == items@.to_multiset(),
{
    let n = items.len();
    assert(items@.subrange(0, n as int) =~= items@);
    rank_range(&items, 0, n)
}

impl WordleSolver {
    /// How the candidates spread over the feedback patterns of the word at
    /// vocabulary position `guess_idx`: one scan of its table row.
    pub(crate) fn spread_for_index(&self, guess_idx: usize) -> (counts: Vec<usize>)
        requires
            self.wf(),
            guess_idx < self@.vocabulary.len(),
        ensures
            is_feedback_spread(counts@, self@.vocabulary[guess_idx as int], self@.candidates),
    {
        let n = self.core.word_count;
        let table_len = self.core.pattern_matrix.len();
        proof {
            lemma_row_bounds(n as int, guess_idx as int);
            assert(table_len == n * n);
        }
        let row_start = guess_idx * n;
        let ghost guess = self.core.words@[guess_idx as int];
        let ghost cands = self.candidate_words@;
        let mut buckets: Vec<usize> = vec![0usize; PATTERN_BUCKETS];
        proof {
            assert forall|c: int| 0 <= c < 243 implies #[trigger] buckets@[c] == feedback_count(
                guess,
                cands.take(0),
                c,
            ) by {
                reveal(Seq::filter);
                assert(cands.take(0) =~= Seq::<Word>::empty());
            }
        }
        let mut i: usize = 0;
        while i < self.candidate_indices.len()
            invariant
                self.wf(),
                i <= self.candidate_indices@.len(),
                n == self.core.words@.len(),
                guess_idx < n,
                row_start == guess_idx * n,
                row_start + n <= n * n,
                n * n == self.core.pattern_matrix@.len(),
                n * n <= usize::MAX,
                guess == self.core.words@[guess_idx as int],
                cands == self.candidate_words@,
                buckets@.len() == 243,
                forall|c: int|
                    0 <= c < 243 ==> #[trigger] buckets@[c] == feedback_count(
                        guess,
                        cands.take(i as int),
                        c,
                    ),
            decreases self.candidate_indices@.len() - i,
        {
            let target_idx = self.candidate_indices[i];
            let code = self.core.pattern_matrix[row_start + target_idx] as usize;
            let ghost before = buckets@;
            proof {
                let target = self.core.words@[target_idx as int];
                assert(cands[i as int] == target);
                assert(table_entry(
                    self.core.pattern_matrix@,
                    n as int,
                    guess_idx as int,
                    target_idx as int,
                ) == pattern_code(guess@, target@));
                crate::oracle::lemma_pattern_code_range(guess@, target@);
                assert(code == pattern_code(guess@, target@));
                assert(cands.take(i + 1).drop_last() =~= cands.take(i as int));
                assert forall|c: int| 0 <= c < 243 implies feedback_count(
                    guess,
                    cands.take(i + 1),
                    c,
                ) == #[trigger] before[c] + (if c == code { 1int } else { 0int }) by {
                    reveal(Seq::filter);
                }
                cands.take(i as int).lemma_filter_len(gives_feedback(guess, code as PatternCode));
            }
            buckets[code] = buckets[code] + 1;
            i += 1;
        }
        proof {
            assert(cands.take(i as int) =~= cands);
        }
        buckets
    }

    /// How the candidates spread over the feedback patterns of `guess`;
    /// none if `guess` is not a word of the vocabulary.
    pub fn feedback_spread(&self, guess: Word) -> (r: Option<Vec<usize>>)
        requires
            self.wf(),
        ensures
            match r {
                Some(counts) => self@.vocabulary.contains(guess) && is_feedback_spread(
                    counts@,
                    guess,
                    self@.candidates,
                ),
                None => !self@.vocabulary.contains(guess),
            },
    {
        match self.index_of(guess) {
            Some(i) => Some(self.spread_for_index(i)),
            None => None,
        }
    }

    /// The candidates in suggestion order, given the score of each:
    /// `scores[i]` stands for the score of candidate `i`. None if there is
    /// not exactly one score per candidate.
    pub fn scored_guesses(&self, scores: &[u64]) -> (r: Option<Vec<ScoredGuess>>)
        ensures
            r is Some <==> scores@.len() == self@.candidates.len(),
            r matches Some(ranked) ==> is_ranked(ranked@) && ranked@.to_multiset()
                == paired_with_scores(self@.candidates, scores@).to_multiset(),
    {
        let n = self.candidate_words.len();
        if scores.len() != n {
            return None;
        }
        let mut items: Vec<ScoredGuess> = Vec::new();
        let mut i: usize = 0;
        while i < n
            invariant
                i <= n,
                n == self.candidate_words@.len(),
                n == scores@.len(),
                items@ == paired_with_scores(self@.candidates, scores@).take(i as int),
            decreases n - i,
        {
            items.push(ScoredGuess { word: self.candidate_words[i], score: scores[i] });
            assert(items@ =~= paired_with_scores(self@.candidates, scores@).take(i + 1));
            i += 1;
        }
        assert(items@ =~= paired_with_scores(self@.candidates, scores@));
        Some(rank_guesses(items))
    }

    /// The spread of every candidate, taken as a guess, in candidate order.
    pub fn candidate_spreads(&self) -> (r: Vec<Vec<usize>>)
        requires
            self.wf(),
        ensures
            r@.len() == self@.candidates.len(),
            forall|i: int|
                0 <= i < r@.len() ==> is_feedback_spread(
                    (#[trigger] r@[i])@,
                    self@.candidates[i],
                    self@.candidates,
                ),
    {
        spreads_in_parallel(self)
    }
}

/// Hands the candidates to rayon: `par_iter` walks the candidate positions,
/// `map` runs `spread_for_index` on each, and `collect` gathers the results
/// into a vector in the order of the positions. The contract claims exactly
/// that: entry `i` is what `spread_for_index` returns for candidate `i`.
#[verifier::external_body]
fn spreads_in_parallel(solver: &WordleSolver) -> (r: Vec<Vec<usize>>)
    requires
        solver.wf(),
    ensures
        r@.len() == solver@.candidates.len(),
        forall|i: int|
            0 <= i < r@.len() ==> is_feedback_spread(
                (#[trigger] r@[i])@,
                solver@.candidates[i],
                solver@.candidates,
            ),
{
    solver.candidate_indices.par_iter().map(|&guess_idx| solver.spread_for_index(guess_idx)).collect()
}

} // verus!
