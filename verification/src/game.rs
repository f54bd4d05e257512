//! Game mode: a secret word drawn from the vocabulary, and guesses scored
//! against it.

use crate::engine::{gives_feedback, status_after, turn_outcome, GameStatus, SolverError};
use crate::oracle::{
    lemma_pack_digits, pattern_code, pattern_digit, simulate_results_pattern, PatternCode,
};
use crate::session::{session_after_turn, GameSession};
use crate::word::{lemma_word_len, lemma_word_view_injective, Word};
use rand::seq::SliceRandom;
use vstd::prelude::*;

verus! {

/// Draws through rand's `SliceRandom::choose` with the thread's generator:
/// one element of the slice, or nothing if the slice is empty. Which element
/// is chance; the contract says only that it is one of them.
#[verifier::external_body]
fn choose_word(words: &[Word]) -> (r: Option<Word>)
    ensures
        words@.len() == 0 ==> r is None,
        words@.len() > 0 ==> r is Some && words@.contains(r->0),
{
    let mut rng = rand::thread_rng();
    words.choose(&mut rng).copied()
}

/// Picks the secret of a game among `words`: some word of the list, none if
/// the list is empty.
pub fn pick_secret(words: &[Word]) -> (r: Option<Word>)
    ensures
        words@.len() == 0 ==> r is None,
        words@.len() > 0 ==> r is Some && words@.contains(r->0),
{
    choose_word(words)
}

/// A guess scores the all-correct pattern against exactly one target:
/// itself.
pub proof fn lemma_all_correct_iff_equal(g: Seq<u8>, t: Seq<u8>)
    requires
        g.len() == 5,
        t.len() == 5,
    ensures
        pattern_code(g, t) == 242 <==> g == t,
{
    lemma_pack_digits(
        pattern_digit(g, t, 0),
        pattern_digit(g, t, 1),
        pattern_digit(g, t, 2),
        pattern_digit(g, t, 3),
        pattern_digit(g, t, 4),
    );
    lemma_pack_digits(2, 2, 2, 2, 2);
    if pattern_code(g, t) == 242 {
        assert(pattern_digit(g, t, 0) == 2);
        assert(pattern_digit(g, t, 1) == 2);
        assert(pattern_digit(g, t, 2) == 2);
        assert(pattern_digit(g, t, 3) == 2);
        assert(pattern_digit(g, t, 4) == 2);
        assert(g =~= t);
    }
}

/// Scores `guess` against `secret` and offers the turn to the session.
/// While the secret is still a candidate, a guess from the vocabulary is
/// never refused and the secret stays a candidate; the turn wins exactly
/// when the guess is the secret.
pub fn play_guess(session: &mut GameSession, secret: Word, guess: Word) -> (r: Result<
    GameStatus,
    SolverError,
>)
    requires
        old(session).wf(),
        old(session)@.turns.len() + 2 <= usize::MAX,
    ensures
        final(session).wf(),
        final(session)@ == session_after_turn(
            old(session)@,
            guess,
            pattern_code(guess@, secret@) as PatternCode,
        ),
        match turn_outcome(
            old(session)@.current,
            guess,
            pattern_code(guess@, secret@) as PatternCode,
        ) {
            Ok(s) => r == Ok::<GameStatus, SolverError>(
                status_after(s, pattern_code(guess@, secret@) as PatternCode),
            ),
            Err(e) => r == Err::<GameStatus, SolverError>(e),
        },
        old(session)@.current.vocabulary.contains(guess)
            && old(session)@.current.candidates.contains(secret)
            ==> r is Ok && final(session)@.current.candidates.contains(secret),
        r is Ok ==> (r == Ok::<GameStatus, SolverError>(GameStatus::Won) <==> guess == secret),
{
    broadcast use lemma_word_len;

    let feedback = simulate_results_pattern(guess, secret);
    proof {
        lemma_all_correct_iff_equal(guess@, secret@);
        lemma_word_view_injective(guess, secret);
        let cands = old(session)@.current.candidates;
        if cands.contains(secret) {
            let j = choose|j: int| 0 <= j < cands.len() && cands[j] == secret;
            cands.lemma_filter_contains(gives_feedback(guess, feedback), j);
        }
    }
    session.apply_turn(guess, feedback)
}

} // verus!
