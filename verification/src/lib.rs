//! A Wordle guessing engine: feedback simulation, a precomputed pattern
//! table, candidate filtering, and sessions with undo.

pub mod commands;
pub mod engine;
pub mod game;
pub mod load;
pub mod matrix;
pub mod oracle;
pub mod ranking;
pub mod session;
pub mod text;
pub mod word;

pub use crate::commands::{
    command_summary, parse_game_decision, parse_solver_choice, parse_solver_feedback,
    GameDecision, SolverChoiceDecision, SolverFeedbackDecision,
};
pub use crate::engine::{GameStatus, SolverError, WordleSolver};
pub use crate::game::{pick_secret, play_guess};
pub use crate::load::{load_word_list, LoadError};
pub use crate::oracle::{
    parse_results_code, results_code_to_string, simulate_results_code, simulate_results_pattern,
    PatternCode, ALL_GREEN_CODE, PATTERN_BUCKETS,
};
pub use crate::ranking::{rank_guesses, ScoredGuess};
pub use crate::session::{GameSession, Turn};
pub use crate::word::{parse_word5, Word};
