//! A game session: a solver together with the log of accepted turns, so
//! that the last turn can be taken back.

use crate::engine::{
    initial_state, status_after, turn_outcome, GameStatus, SolverError, SolverState, WordleSolver,
};
use crate::load::{fails_to_load, is_vocabulary_of, LoadError};
use crate::oracle::PatternCode;
use crate::word::Word;
use vstd::prelude::*;

verus! {

/// An accepted turn: the guess and the feedback it received.
#[derive(Clone, Copy, Debug, PartialEq, Eq)]
pub struct Turn {
    pub guess: Word,
    pub feedback: PatternCode,
}

/// What can be observed of a session.
pub struct SessionState {
    /// The state the solver started in.
    pub initial: SolverState,
    /// The state the solver is in now.
    pub current: SolverState,
    /// The accepted turns, oldest first.
    pub turns: Seq<Turn>,
}

/// The state reached by applying `turns` in order from `start`; none if one
/// of them is refused.
pub open spec fn replay(start: SolverState, turns: Seq<Turn>) -> Option<SolverState>
    decreases turns.len(),
{
    if turns.len() == 0 {
        Some(start)
    } else {
        match replay(start, turns.drop_last()) {
            Some(s) => match turn_outcome(s, turns.last().guess, turns.last().feedback) {
                Ok(next) => Some(next),
                Err(_) => None,
            },
            None => None,
        }
    }
}

/// Whether the current state of a session is what its log leads to.
pub open spec fn is_consistent(s: SessionState) -> bool {
    replay(s.initial, s.turns) == Some(s.current)
}

/// The session after a turn is offered: an accepted turn moves the solver
/// on and is logged, a refused one changes nothing.
pub open spec fn session_after_turn(s: SessionState, guess: Word, feedback: PatternCode)
    -> SessionState {
    match turn_outcome(s.current, guess, feedback) {
        Ok(next) => SessionState {
            initial: s.initial,
            current: next,
            turns: s.turns.push(Turn { guess, feedback }),
        },
        Err(_) => s,
    }
}

/// The session after the last turn is taken back: the log loses its last
/// entry and the solver stands where the remaining entries lead. With an
/// empty log nothing changes.
pub open spec fn session_after_undo(s: SessionState) -> SessionState {
    if s.turns.len() == 0 {
        s
    } else {
        SessionState {
            initial: s.initial,
            current: replay(s.initial, s.turns.drop_last())->0,
            turns: s.turns.drop_last(),
        }
    }
}

/// Every accepted turn is counted once.
pub proof fn lemma_replay_counts(start: SolverState, turns: Seq<Turn>)
    requires
        replay(start, turns) is Some,
    ensures
        replay(start, turns)->0.attempts == start.attempts + turns.len(),
        replay(start, turns)->0.max_attempts == start.max_attempts,
        replay(start, turns)->0.vocabulary == start.vocabulary,
        replay(start, turns.take(turns.len() - 1)) is Some || turns.len() == 0,
    decreases turns.len(),
{
    if turns.len() > 0 {
        assert(turns.take(turns.len() - 1) =~= turns.drop_last());
        lemma_replay_counts(start, turns.drop_last());
    }
}

/// Taking back a turn that was just accepted restores the session as it
/// was before the turn.
pub proof fn lemma_undo_inverts_apply(s: SessionState, guess: Word, feedback: PatternCode)
    requires
        is_consistent(s),
        turn_outcome(s.current, guess, feedback) is Ok,
    ensures
        is_consistent(session_after_turn(s, guess, feedback)),
        session_after_undo(session_after_turn(s, guess, feedback)) == s,
{
    let after = session_after_turn(s, guess, feedback);
    assert(after.turns.drop_last() =~= s.turns);
}

/// Within the allowed number of turns a game is only ever won or open, and
/// the turn that uses up the allowance without the all-correct pattern
/// loses: from a fresh solver, the turn with number `turns.len()` is lost
/// exactly when that number has reached the allowance.
pub proof fn lemma_loss_detection(vocabulary: Seq<Word>, turns: Seq<Turn>)
    requires
        turns.len() > 0,
        replay(initial_state(vocabulary), turns) is Some,
        turns.last().feedback != 242,
    ensures
        turns.len() < 6 ==> status_after(
            replay(initial_state(vocabulary), turns)->0,
            turns.last().feedback,
        ) == GameStatus::Ongoing,
        turns.len() >= 6 ==> status_after(
            replay(initial_state(vocabulary), turns)->0,
            turns.last().feedback,
        ) == GameStatus::Lost,
{
    lemma_replay_counts(initial_state(vocabulary), turns);
}

/// The all-correct pattern wins whatever the number of turns used.
pub proof fn lemma_win_detection(s: SolverState)
    ensures
        status_after(s, 242) == GameStatus::Won,
{
}

/// A solver with its turn log.
pub struct GameSession {
    initial_solver: WordleSolver,
    solver: WordleSolver,
    turns: Vec<Turn>,
}

impl View for GameSession {
    type V = SessionState;

    closed spec fn view(&self) -> SessionState {
        SessionState { initial: self.initial_solver@, current: self.solver@, turns: self.turns@ }
    }
}

impl GameSession {
    /// The invariant of a session: both solvers are well formed, the first
    /// is fresh, and the second stands where the log leads.
    pub closed spec fn wf(&self) -> bool {
        &&& self.initial_solver.wf()
        &&& self.solver.wf()
        &&& self.initial_solver@ == initial_state(self.initial_solver@.vocabulary)
        &&& is_consistent(self@)
    }

    /// What the invariant means for the observable state.
    pub proof fn lemma_wf(&self)
        requires
            self.wf(),
        ensures
            is_consistent(self@),
            self@.initial == initial_state(self@.initial.vocabulary),
            self@.current.attempts == self@.turns.len(),
            self@.current.attempts < usize::MAX,
    {
        lemma_replay_counts(self@.initial, self@.turns);
        self.solver.lemma_wf();
    }

    /// A session over the vocabulary that the text of a word list holds,
    /// with an empty log.
    pub fn new(text: &str) -> (r: Result<Self, LoadError>)
        ensures
            match r {
                Ok(session) => {
                    &&& session.wf()
                    &&& is_vocabulary_of(text@, session@.initial.vocabulary)
                    &&& session@.current == session@.initial
                    &&& session@.turns.len() == 0
                },
                Err(LoadError::TooLarge) => exists|words: Seq<Word>|
                    is_vocabulary_of(text@, words) && words.len() * words.len() > usize::MAX,
                Err(e) => fails_to_load(text@, e),
            },
    {
        match WordleSolver::new(text) {
            Ok(solver) => Ok(
                GameSession { initial_solver: solver.clone(), solver, turns: Vec::new() },
            ),
            Err(e) => Err(e),
        }
    }

    /// The solver as it stands.
    pub fn solver(&self) -> (r: &WordleSolver)
        ensures
            r@ == self@.current,
            self.wf() ==> r.wf(),
    {
        &self.solver
    }

    /// The accepted turns, oldest first.
    pub fn turns(&self) -> (r: &[Turn])
        ensures
            r@ == self@.turns,
    {
        self.turns.as_slice()
    }

    /// Offers a turn to the solver. An accepted turn is logged and its
    /// status returned; a refused turn is reported with the solver's error
    /// and leaves the session as it was.
    pub fn apply_turn(&mut self, guess: Word, feedback: PatternCode) -> (r: Result<
        GameStatus,
        SolverError,
    >)
        requires
            old(self).wf(),
            old(self)@.turns.len() + 2 <= usize::MAX,
        ensures
            final(self).wf(),
            final(self)@ == session_after_turn(old(self)@, guess, feedback),
            match turn_outcome(old(self)@.current, guess, feedback) {
                Ok(s) => r == Ok::<GameStatus, SolverError>(status_after(s, feedback)),
                Err(e) => r == Err::<GameStatus, SolverError>(e),
            },
    {
        proof {
            self.lemma_wf();
        }
        let status = match self.solver.next_turn(guess, feedback) {
            Ok(status) => status,
            Err(e) => {
                return Err(e);
            },
        };
        self.turns.push(Turn { guess, feedback });
        proof {
            assert(self.turns@.drop_last() =~= old(self).turns@);
        }
        Ok(status)
    }

    /// A fresh solver taken through the whole log again.
    fn replay_turns(&self) -> (r: Result<WordleSolver, SolverError>)
        requires
            self.initial_solver.wf(),
            self.initial_solver@.attempts + self.turns@.len() + 1 <= usize::MAX,
        ensures
            match replay(self.initial_solver@, self.turns@) {
                Some(s) => r is Ok && r->Ok_0@ == s && r->Ok_0.wf(),
                None => r is Err,
            },
    {
        let mut rebuilt = self.initial_solver.clone();
        let mut i: usize = 0;
        while i < self.turns.len()
            invariant
                i <= self.turns@.len(),
                rebuilt.wf(),
                self.initial_solver@.attempts + self.turns@.len() + 1 <= usize::MAX,
                replay(self.initial_solver@, self.turns@.take(i as int)) == Some(rebuilt@),
            decreases self.turns@.len() - i,
        {
            let turn = self.turns[i];
            proof {
                lemma_replay_counts(self.initial_solver@, self.turns@.take(i as int));
                assert(self.turns@.take(i + 1).drop_last() =~= self.turns@.take(i as int));
            }
            match rebuilt.next_turn(turn.guess, turn.feedback) {
                Ok(_) => {},
                Err(e) => {
                    proof {
                        lemma_replay_fails(self.initial_solver@, self.turns@, i + 1);
                    }
                    return Err(e);
                },
            }
            i += 1;
        }
        proof {
            assert(self.turns@.take(i as int) =~= self.turns@);
        }
        Ok(rebuilt)
    }

    /// Takes back the last accepted turn: the log loses its last entry and
    /// the solver is rebuilt from the entries that remain. Returns whether a
    /// turn was taken back, which is the case exactly when the log was not
    /// empty.
    pub fn undo(&mut self) -> (r: bool)
        requires
            old(self).wf(),
        ensures
            final(self).wf(),
            r == (old(self)@.turns.len() > 0),
            final(self)@ == session_after_undo(old(self)@),
    {
        proof {
            self.lemma_wf();
            lemma_replay_counts(self@.initial, self@.turns);
        }
        let popped_turn = match self.turns.pop() {
            Some(turn) => turn,
            None => {
                return false;
            },
        };
        proof {
            assert(self.turns@ =~= old(self).turns@.drop_last());
            assert(old(self).turns@.take(old(self).turns@.len() - 1) =~= self.turns@);
        }
        match self.replay_turns() {
            Ok(rebuilt) => {
                self.solver = rebuilt;
                true
            },
            Err(_) => {
                self.turns.push(popped_turn);
                false
            },
        }
    }
}

/// Once a prefix of the log is refused, the whole log is.
proof fn lemma_replay_fails(start: SolverState, turns: Seq<Turn>, k: int)
    requires
        0 <= k <= turns.len(),
        replay(start, turns.take(k)) is None,
    ensures
        replay(start, turns) is None,
    decreases turns.len() - k,
{
    if k < turns.len() {
        assert(turns.take(k + 1).drop_last() =~= turns.take(k));
        lemma_replay_fails(start, turns, k + 1);
    } else {
        assert(turns.take(k) =~= turns);
    }
}

} // verus!
