//! The solver engine: a set of candidate words over a shared pattern
//! table, narrowed turn by turn.

use crate::load::{fails_to_load, is_vocabulary_of, load_word_list, LoadError};
use crate::matrix::{build_pattern_matrix, is_pattern_table, lemma_row_bounds, table_entry};
use crate::oracle::{pattern_code, PatternCode, ALL_GREEN_CODE, PATTERN_BUCKETS};
use crate::word::{
    lemma_key_injective, lemma_word_len, lemma_word_view_injective, word_key, word_text, Word,
};
use std::collections::HashMap;
use std::sync::Arc;
use vstd::prelude::*;
use vstd::string::StringExecFns;

verus! {

broadcast use vstd::std_specs::hash::group_hash_axioms;

/// Where a game stands after a turn.
#[derive(Clone, Copy, Debug, PartialEq, Eq, Structural)]
pub enum GameStatus {
    Won,
    Lost,
    Ongoing,
}

/// Why a turn was refused.
#[derive(Clone, Copy, Debug, PartialEq, Eq)]
pub enum SolverError {
    /// The feedback is not a pattern code.
    InvalidResultsPattern,
    /// The guess is not a word of the vocabulary.
    GuessNotInWordList(Word),
    /// No candidate would give this feedback for this guess.
    InconsistentFeedback,
}

/// The text of each refusal; the guess stands between the two parts of the
/// second.
pub open spec fn solver_error_text(e: SolverError) -> Seq<char> {
    match e {
        SolverError::InvalidResultsPattern => "Invalid results: use exactly 5 characters from G, Y, and B"@,
        SolverError::GuessNotInWordList(word) => "Guess '"@ + word_text(word@)
            + "' is not in the solver word list"@,
        SolverError::InconsistentFeedback => "Inconsistent feedback: no candidate matches that guess/pattern pair"@,
    }
}

impl SolverError {
    /// The refusal in words.
    pub fn message(&self) -> (s: String)
        ensures
            s@ == solver_error_text(*self),
    {
        match self {
            SolverError::InvalidResultsPattern => String::from_str(
                "Invalid results: use exactly 5 characters from G, Y, and B",
            ),
            SolverError::GuessNotInWordList(word) => {
                let mut s = String::from_str("Guess '");
                let w = word.to_string();
                s.append(w.as_str());
                s.append("' is not in the solver word list");
                s
            },
            SolverError::InconsistentFeedback => String::from_str(
                "Inconsistent feedback: no candidate matches that guess/pattern pair",
            ),
        }
    }
}

/// What can be observed of a solver.
pub struct SolverState {
    /// The full vocabulary, in load order.
    pub vocabulary: Seq<Word>,
    /// The words still possible, in vocabulary order.
    pub candidates: Seq<Word>,
    /// How many turns have been applied.
    pub attempts: nat,
    /// How many turns a game allows.
    pub max_attempts: nat,
}

/// Whether `chosen` holds the words of `words` at the ascending
/// `positions`.
pub open spec fn is_selection(words: Seq<Word>, positions: Seq<int>, chosen: Seq<Word>) -> bool {
    &&& positions.len() == chosen.len()
    &&& forall|k: int|
        0 <= k < positions.len() ==> 0 <= (#[trigger] positions[k]) < words.len()
            && words[positions[k]] == chosen[k]
    &&& forall|a: int, b: int|
        0 <= a < b < positions.len() ==> (#[trigger] positions[a]) < (#[trigger] positions[b])
}

/// The test that a candidate passes when it would give `feedback` for
/// `guess`.
pub open spec fn gives_feedback(guess: Word, feedback: PatternCode) -> spec_fn(Word) -> bool {
    |w: Word| pattern_code(guess@, w@) == feedback
}

/// The state in which a fresh solver over `vocabulary` starts.
pub open spec fn initial_state(vocabulary: Seq<Word>) -> SolverState {
    SolverState { vocabulary, candidates: vocabulary, attempts: 0, max_attempts: 6 }
}

/// What applying a turn does: the state that follows, or the reason for
/// refusing the turn. A refused turn leaves the state as it was.
pub open spec fn turn_outcome(s: SolverState, guess: Word, feedback: PatternCode) -> Result<
    SolverState,
    SolverError,
> {
    if feedback >= 243 {
        Err(SolverError::InvalidResultsPattern)
    } else if !s.vocabulary.contains(guess) {
        Err(SolverError::GuessNotInWordList(guess))
    } else {
        let next = s.candidates.filter(gives_feedback(guess, feedback));
        if next.len() == 0 {
            Err(SolverError::InconsistentFeedback)
        } else {
            Ok(
                SolverState {
                    vocabulary: s.vocabulary,
                    candidates: next,
                    attempts: s.attempts + 1,
                    max_attempts: s.max_attempts,
                },
            )
        }
    }
}

/// The status reported for an accepted turn, given the state it led to.
pub open spec fn status_after(s: SolverState, feedback: PatternCode) -> GameStatus {
    if feedback == 242 {
        GameStatus::Won
    } else if s.attempts >= s.max_attempts {
        GameStatus::Lost
    } else {
        GameStatus::Ongoing
    }
}

/// Whether `index` maps the key of every word to a position that holds a
/// word with that key, and nothing else.
pub(crate) open spec fn is_word_index(words: Seq<Word>, index: Map<u64, usize>) -> bool {
    &&& forall|k: u64| #[trigger]
        index.contains_key(k) ==> index[k] < words.len() && word_key(words[index[k] as int]@) == k
    &&& forall|i: int|
        0 <= i < words.len() ==> index.contains_key(#[trigger] word_key(words[i]@) as u64)
}

/// What all solvers over one vocabulary share: the words, where each is
/// found, and the pattern table.
pub(crate) struct SolverCore {
    pub(crate) words: Vec<Word>,
    pub(crate) word_to_index: HashMap<u64, usize>,
    pub(crate) pattern_matrix: Vec<u8>,
    pub(crate) word_count: usize,
}

impl SolverCore {
    pub(crate) open spec fn wf(&self) -> bool {
        &&& self.word_count == self.words@.len()
        &&& is_pattern_table(self.words@, self.pattern_matrix@)
        &&& is_word_index(self.words@, self.word_to_index@)
    }
}

/// A solver: the candidates that remain and the turns counted so far.
pub struct WordleSolver {
    pub(crate) core: Arc<SolverCore>,
    pub(crate) candidate_indices: Vec<usize>,
    pub(crate) candidate_words: Vec<Word>,
    pub(crate) attempts: usize,
    pub(crate) max_attempts: usize,
}

/// `Arc::clone` of the standard library: a second handle to the same
/// shared value, which is not copied.
#[verifier::external_body]
fn share_core(core: &Arc<SolverCore>) -> (r: Arc<SolverCore>)
    ensures
        r == *core,
{
    Arc::clone(core)
}

/// A copy of `v`.
fn copy_of<T: Copy>(v: &Vec<T>) -> (r: Vec<T>)
    ensures
        r@ == v@,
{
    let mut r: Vec<T> = Vec::new();
    let mut i: usize = 0;
    while i < v.len()
        invariant
            i <= v.len(),
            r@ == v@.take(i as int),
        decreases v.len() - i,
    {
        r.push(v[i]);
        i += 1;
    }
    r
}

impl View for WordleSolver {
    type V = SolverState;

    open(crate) spec fn view(&self) -> SolverState {
        SolverState {
            vocabulary: self.core.words@,
            candidates: self.candidate_words@,
            attempts: self.attempts as nat,
            max_attempts: self.max_attempts as nat,
        }
    }
}

impl Clone for WordleSolver {
    /// A second solver in the same state; the pattern table is shared.
    fn clone(&self) -> (r: Self)
        ensures
            r@ == self@,
            self.wf() ==> r.wf(),
    {
        WordleSolver {
            core: share_core(&self.core),
            candidate_indices: copy_of(&self.candidate_indices),
            candidate_words: copy_of(&self.candidate_words),
            attempts: self.attempts,
            max_attempts: self.max_attempts,
        }
    }
}

impl WordleSolver {
    /// The invariant of a solver: the table belongs to the vocabulary, the
    /// candidates are words of it at ascending positions, candidates remain
    /// while there is a vocabulary, and the counter can still be read.
    pub open(crate) spec fn wf(&self) -> bool {
        &&& self.core.wf()
        &&& self.candidate_indices@.len() == self.candidate_words@.len()
        &&& forall|i: int, j: int|
            0 <= i < j < self.candidate_indices@.len() ==> (#[trigger] self.candidate_indices@[i])
                < (#[trigger] self.candidate_indices@[j])
        &&& forall|i: int|
            0 <= i < self.candidate_indices@.len() ==> (#[trigger] self.candidate_indices@[i])
                < self.core.words@.len() && self.candidate_words@[i]
                == self.core.words@[self.candidate_indices@[i] as int]
        &&& self.core.words@.len() > 0 ==> self.candidate_words@.len() > 0
        &&& self.attempts < usize::MAX
    }

    /// What the invariant means for the observable state.
    pub proof fn lemma_wf(&self)
        requires
            self.wf(),
        ensures
            self@.attempts < usize::MAX,
            self@.vocabulary.len() > 0 ==> self@.candidates.len() > 0,
            forall|w: Word| self@.candidates.contains(w) ==> self@.vocabulary.contains(w),
            exists|positions: Seq<int>| is_selection(self@.vocabulary, positions, self@.candidates),
    {
        let positions = Seq::new(
            self.candidate_indices@.len(),
            |k: int| self.candidate_indices@[k] as int,
        );
        assert(is_selection(self@.vocabulary, positions, self@.candidates));
        assert forall|w: Word| self@.candidates.contains(w) implies self@.vocabulary.contains(
            w,
        ) by {
            let i = choose|i: int| 0 <= i < self@.candidates.len() && self@.candidates[i] == w;
            let g = self.candidate_indices@[i];
            assert(self.core.words@[g as int] == w);
        }
    }

    /// A fresh solver over `word_list`: every word is a candidate, no turn
    /// has been applied, and a game allows six.
    pub fn from_word_list(word_list: Vec<Word>) -> (r: Self)
        requires
            word_list.len() * word_list.len() <= usize::MAX,
        ensures
            r.wf(),
            r@ == initial_state(word_list@),
    {
        let word_count = word_list.len();
        let pattern_matrix = build_pattern_matrix(&word_list);
        let mut word_to_index: HashMap<u64, usize> = HashMap::with_capacity(word_count);
        let mut candidate_indices: Vec<usize> = Vec::new();
        let mut idx: usize = 0;
        while idx < word_count
            invariant
                idx <= word_count,
                word_count == word_list.len(),
                candidate_indices@.len() == idx,
                forall|j: int| 0 <= j < idx ==> candidate_indices@[j] == j,
                forall|k: u64| #[trigger]
                    word_to_index@.contains_key(k) ==> word_to_index@[k] < idx && word_key(
                        word_list@[word_to_index@[k] as int]@,
                    ) == k,
                forall|j: int|
                    0 <= j < idx ==> word_to_index@.contains_key(
                        #[trigger] word_key(word_list@[j]@) as u64,
                    ),
            decreases word_count - idx,
        {
            let k = word_list[idx].key();
            if !word_to_index.contains_key(&k) {
                word_to_index.insert(k, idx);
            }
            candidate_indices.push(idx);
            idx += 1;
        }
        let candidate_words = copy_of(&word_list);
        let core = Arc::new(
            SolverCore { words: word_list, word_to_index, pattern_matrix, word_count },
        );
        WordleSolver { core, candidate_indices, candidate_words, attempts: 0, max_attempts: 6 }
    }

    /// A fresh solver over the vocabulary that the text of a word list
    /// holds. A text that holds no vocabulary is refused for the reason the
    /// loader gives; one with more words than a table can be addressed for is
    /// refused as too large.
    pub fn new(text: &str) -> (r: Result<Self, LoadError>)
        ensures
            match r {
                Ok(solver) => {
                    &&& solver.wf()
                    &&& is_vocabulary_of(text@, solver@.vocabulary)
                    &&& solver@ == initial_state(solver@.vocabulary)
                },
                Err(LoadError::TooLarge) => exists|words: Seq<Word>|
                    is_vocabulary_of(text@, words) && words.len() * words.len() > usize::MAX,
                Err(e) => fails_to_load(text@, e),
            },
    {
        let words = match load_word_list(text) {
            Ok(words) => words,
            Err(e) => {
                return Err(e);
            },
        };
        let n = words.len();
        match n.checked_mul(n) {
            Some(_) => Ok(Self::from_word_list(words)),
            None => Err(LoadError::TooLarge),
        }
    }

    /// The words still possible, in vocabulary order.
    pub fn candidates(&self) -> (r: &[Word])
        ensures
            r@ == self@.candidates,
    {
        self.candidate_words.as_slice()
    }

    /// The number of the turn that comes next, counting from 1.
    pub fn attempt_number(&self) -> (r: usize)
        requires
            self.wf(),
        ensures
            r == self@.attempts + 1,
    {
        self.attempts + 1
    }

    /// How many turns a game allows.
    pub fn max_attempts(&self) -> (r: usize)
        ensures
            r == self@.max_attempts,
    {
        self.max_attempts
    }

    /// Where `word` stands in the vocabulary, if it is part of it.
    pub(crate) fn index_of(&self, word: Word) -> (r: Option<usize>)
        requires
            self.wf(),
        ensures
            match r {
                Some(i) => i < self@.vocabulary.len() && self@.vocabulary[i as int] == word,
                None => !self@.vocabulary.contains(word),
            },
    {
        broadcast use lemma_word_len;

        let k = word.key();
        match self.core.word_to_index.get(&k) {
            Some(i) => {
                proof {
                    let found = self.core.words@[*i as int];
                    lemma_key_injective(found@, word@);
                    lemma_word_view_injective(found, word);
                }
                Some(*i)
            },
            None => {
                proof {
                    if self@.vocabulary.contains(word) {
                        let j = choose|j: int|
                            0 <= j < self@.vocabulary.len() && self@.vocabulary[j] == word;
                        assert(self.core.word_to_index@.contains_key(
                            word_key(self.core.words@[j]@) as u64,
                        ));
                    }
                }
                None
            },
        }
    }

    /// Applies a turn. The feedback must be a pattern code and the guess a
    /// word of the vocabulary; the candidates are then narrowed to those that
    /// would give exactly this feedback for this guess. If none would, the
    /// turn is refused. A refused turn changes nothing. An accepted turn is
    /// counted, and wins on the all-correct pattern, loses once the allowed
    /// number of turns is used up, and otherwise leaves the game open.
    pub fn next_turn(&mut self, guess: Word, feedback: PatternCode) -> (r: Result<
        GameStatus,
        SolverError,
    >)
        requires
            old(self).wf(),
            old(self)@.attempts + 2 <= usize::MAX,
        ensures
            final(self).wf(),
            match turn_outcome(old(self)@, guess, feedback) {
                Ok(s) => final(self)@ == s && r == Ok::<GameStatus, SolverError>(
                    status_after(s, feedback),
                ),
                Err(e) => final(self)@ == old(self)@ && r == Err::<GameStatus, SolverError>(e),
            },
            r is Ok ==> forall|w: Word| #[trigger]
                final(self)@.candidates.contains(w) ==> old(self)@.candidates.contains(w)
                    && pattern_code(guess@, w@) == feedback,
            r is Ok ==> forall|w: Word|
                old(self)@.vocabulary.contains(w) && pattern_code(guess@, w@) != feedback
                    ==> !(#[trigger] final(self)@.candidates.contains(w)),
            r is Ok ==> forall|w: Word|
                old(self)@.candidates.contains(w) && pattern_code(guess@, w@) == feedback
                    ==> #[trigger] final(self)@.candidates.contains(w),
    {
        if feedback as usize >= PATTERN_BUCKETS {
            return Err(SolverError::InvalidResultsPattern);
        }
        let code_u8 = feedback as u8;
        let guess_idx = match self.index_of(guess) {
            Some(i) => i,
            None => {
                return Err(SolverError::GuessNotInWordList(guess));
            },
        };
        let n = self.core.word_count;
        let table_len = self.core.pattern_matrix.len();
        proof {
            lemma_row_bounds(n as int, guess_idx as int);
            assert(table_len == n * n);
        }
        let row_start = guess_idx * n;
        let ghost pred = gives_feedback(guess, feedback);
        let ghost cands = self.candidate_words@;
        let mut next_indices: Vec<usize> = Vec::new();
        let mut next_words: Vec<Word> = Vec::new();
        let mut i: usize = 0;
        while i < self.candidate_indices.len()
            invariant
                *self == *old(self),
                self.wf(),
                i <= self.candidate_indices@.len(),
                n == self.core.words@.len(),
                guess_idx < n,
                row_start == guess_idx * n,
                row_start + n <= n * n,
                n * n == self.core.pattern_matrix@.len(),
                n * n <= usize::MAX,
                self.core.words@[guess_idx as int] == guess,
                feedback < 243,
                code_u8 == feedback,
                pred == gives_feedback(guess, feedback),
                cands == self.candidate_words@,
                next_words@ == cands.take(i as int).filter(pred),
                next_indices@.len() == next_words@.len(),
                forall|j: int|
                    0 <= j < next_indices@.len() ==> (#[trigger] next_indices@[j]) < n
                        && next_words@[j] == self.core.words@[next_indices@[j] as int],
                forall|a: int, b: int|
                    0 <= a < b < next_indices@.len() ==> (#[trigger] next_indices@[a])
                        < (#[trigger] next_indices@[b]),
                forall|a: int, b: int|
                    0 <= a < next_indices@.len() && i <= b < self.candidate_indices@.len() ==> (
                    #[trigger] next_indices@[a]) < (#[trigger] self.candidate_indices@[b]),
            decreases self.candidate_indices@.len() - i,
        {
            let target_idx = self.candidate_indices[i];
            proof {
                let target = self.core.words@[target_idx as int];
                assert(cands[i as int] == target);
                assert(table_entry(
                    self.core.pattern_matrix@,
                    n as int,
                    guess_idx as int,
                    target_idx as int,
                ) == pattern_code(guess@, target@));
                crate::oracle::lemma_pattern_code_range(guess@, target@);
                assert(cands.take(i + 1).drop_last() =~= cands.take(i as int));
                reveal(Seq::filter);
            }
            if self.core.pattern_matrix[row_start + target_idx] == code_u8 {
                next_indices.push(target_idx);
                next_words.push(self.core.words[target_idx]);
            }
            i += 1;
        }
        proof {
            assert(cands.take(i as int) =~= cands);
            assert forall|w: Word|
                old(self)@.candidates.contains(w) && pattern_code(guess@, w@)
                    == feedback implies #[trigger] next_words@.contains(w) by {
                let j = choose|j: int| 0 <= j < cands.len() && cands[j] == w;
                cands.lemma_filter_contains(pred, j);
            }
            assert forall|w: Word| #[trigger]
                next_words@.contains(w) implies old(self)@.candidates.contains(w) && pattern_code(
                guess@,
                w@,
            ) == feedback by {
                cands.lemma_filter_contains_rev(pred, w);
                let j = choose|j: int| 0 <= j < next_words@.len() && next_words@[j] == w;
                cands.lemma_filter_pred(pred, j);
            }
            self.lemma_wf();
        }
        if next_indices.len() == 0 {
            return Err(SolverError::InconsistentFeedback);
        }
        self.candidate_indices = next_indices;
        self.candidate_words = next_words;
        self.attempts = self.attempts + 1;
        Ok(self.check_game_status(feedback))
    }

    /// The status of the turn just counted.
    fn check_game_status(&self, code: PatternCode) -> (r: GameStatus)
        ensures
            r == status_after(self@, code),
    {
        if code == ALL_GREEN_CODE {
            GameStatus::Won
        } else if self.attempts >= self.max_attempts {
            GameStatus::Lost
        } else {
            GameStatus::Ongoing
        }
    }

    /// Whether `word` belongs to the vocabulary.
    pub fn contains_word(&self, word: Word) -> (r: bool)
        requires
            self.wf(),
        ensures
            r == self@.vocabulary.contains(word),
    {
        self.index_of(word).is_some()
    }
}

} // verus!
