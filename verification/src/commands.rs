//! What a line typed by the player means, in each mode.

use crate::oracle::{parse_code_spec, parse_results_chars, PatternCode};
use crate::text::{
    after_token, chars_of, first_token, parse_count, parse_count_spec, range_is, skip_white,
    token_stop, trim, trim_range,
};
use crate::word::{parse_word_chars, parse_word_spec, Word};
use vstd::prelude::*;
use vstd::string::StringExecFns;

verus! {

/// What a line means in game mode.
#[derive(Clone, Copy, Debug, PartialEq, Eq)]
pub enum GameDecision {
    SubmitGuess(Word),
    Help,
    Hints(usize),
    Status,
    Board,
    Undo,
    ExitMode,
    UnknownCommand,
    InvalidGuess,
}

/// What a line means when the solver asks which of several guesses to take.
#[derive(Clone, Copy, Debug, PartialEq, Eq)]
pub enum SolverChoiceDecision {
    Pick(Word),
    InvalidChoice,
}

/// What a line means when the solver asks for the feedback of a guess.
#[derive(Clone, Copy, Debug, PartialEq, Eq)]
pub enum SolverFeedbackDecision {
    SubmitFeedback(PatternCode),
    Help,
    Status,
    Top(usize),
    Cands(usize),
    Board,
    UndoRestart,
    ExitMode,
    InvalidInput,
}

/// The uppercase form of an ASCII letter; any other character is itself.
pub open spec fn ascii_upper(c: char) -> char {
    if 97 <= c as u32 <= 122 {
        ((c as u32) - 32) as char
    } else {
        c
    }
}

/// `s` with its ASCII letters in uppercase.
pub open spec fn to_upper(s: Seq<char>) -> Seq<char> {
    Seq::new(s.len(), |i: int| ascii_upper(s[i]))
}

/// The count that a command line asks for: what its second token writes,
/// at least 1; `default` where there is no second token or it writes no
/// count.
pub open spec fn count_argument(line: Seq<char>, default: nat) -> nat {
    let n = match parse_count_spec(first_token(after_token(line))) {
        Some(n) => n,
        None => default,
    };
    if n < 1 {
        1
    } else {
        n
    }
}

/// The meaning of a line in solver mode. A feedback text, in either case,
/// submits its code; otherwise the first token is a command word, in
/// either case, and the second may be a count.
pub open spec fn solver_feedback_decision(raw: Seq<char>) -> SolverFeedbackDecision {
    let upper = to_upper(trim(raw));
    if upper.len() == 0 {
        SolverFeedbackDecision::InvalidInput
    } else if parse_code_spec(upper) is Some {
        SolverFeedbackDecision::SubmitFeedback(parse_code_spec(upper)->0 as PatternCode)
    } else {
        let cmd = first_token(upper);
        let n = count_argument(upper, 10) as usize;
        if cmd == "HELP"@ {
            SolverFeedbackDecision::Help
        } else if cmd == "STATUS"@ {
            SolverFeedbackDecision::Status
        } else if cmd == "TOP"@ {
            SolverFeedbackDecision::Top(n)
        } else if cmd == "CANDS"@ {
            SolverFeedbackDecision::Cands(n)
        } else if cmd == "BOARD"@ {
            SolverFeedbackDecision::Board
        } else if cmd == "UNDO"@ {
            SolverFeedbackDecision::UndoRestart
        } else if cmd == "EXIT"@ {
            SolverFeedbackDecision::ExitMode
        } else {
            SolverFeedbackDecision::InvalidInput
        }
    }
}

/// The meaning of a command of game mode, given without its leading `/`,
/// trimmed and in uppercase: the first token is the command word and the
/// second may be a count.
pub open spec fn game_command(upper: Seq<char>) -> GameDecision {
    let cmd = first_token(upper);
    let n = count_argument(upper, 5) as usize;
    if cmd == "HELP"@ {
        GameDecision::Help
    } else if cmd == "HINT"@ {
        GameDecision::Hints(n)
    } else if cmd == "STATUS"@ {
        GameDecision::Status
    } else if cmd == "BOARD"@ {
        GameDecision::Board
    } else if cmd == "UNDO"@ {
        GameDecision::Undo
    } else if cmd == "EXIT"@ {
        GameDecision::ExitMode
    } else {
        GameDecision::UnknownCommand
    }
}

/// Whether `d` is the meaning of a line in game mode. A line that starts
/// with `/` is a command, in either case; any other line is a guess, valid
/// if it is a word.
pub open spec fn is_game_decision(raw: Seq<char>, d: GameDecision) -> bool {
    let t = trim(raw);
    if t.len() == 0 {
        d == GameDecision::InvalidGuess
    } else if t[0] == '/' {
        d == game_command(to_upper(trim(t.skip(1))))
    } else {
        match parse_word_spec(t) {
            Some(letters) => d matches GameDecision::SubmitGuess(w) && w@ == letters,
            None => d == GameDecision::InvalidGuess,
        }
    }
}

/// Whether `d` is the meaning of a line that picks one of `words`: the
/// empty line picks the first, a count picks by rank, and a word picks
/// itself if it is among them.
pub open spec fn is_solver_choice(input: Seq<char>, words: Seq<Word>, d: SolverChoiceDecision)
    -> bool {
    if input.len() == 0 {
        d == SolverChoiceDecision::Pick(words[0])
    } else if parse_count_spec(input) is Some && 1 <= parse_count_spec(input)->0 <= words.len() {
        d == SolverChoiceDecision::Pick(words[parse_count_spec(input)->0 - 1])
    } else if parse_word_spec(input) is Some && (exists|i: int|
        0 <= i < words.len() && (#[trigger] words[i])@ == parse_word_spec(input)->0) {
        d matches SolverChoiceDecision::Pick(w) && w@ == parse_word_spec(input)->0
    } else {
        d == SolverChoiceDecision::InvalidChoice
    }
}

/// The names of the commands, separated by single spaces.
pub open spec fn joined_names(commands: Seq<(&'static str, &'static str)>) -> Seq<char>
    decreases commands.len(),
{
    if commands.len() == 0 {
        Seq::empty()
    } else if commands.len() == 1 {
        commands[0].0@
    } else {
        joined_names(commands.drop_last()) + " "@ + commands.last().0@
    }
}

/// The trimmed part of `chars[lo..hi]` with its ASCII letters in uppercase.
fn upper_trimmed(chars: &Vec<char>, lo: usize, hi: usize) -> (r: Vec<char>)
    requires
        lo <= hi <= chars.len(),
    ensures
        r@ == to_upper(trim(chars@.subrange(lo as int, hi as int))),
{
    let (a, b) = trim_range(chars, lo, hi);
    let ghost t = chars@.subrange(a as int, b as int);
    let mut r: Vec<char> = Vec::new();
    let mut i: usize = a;
    while i < b
        invariant
            a <= i <= b <= chars.len(),
            t == chars@.subrange(a as int, b as int),
            r@ == to_upper(t).take(i - a),
        decreases b - i,
    {
        let c = chars[i];
        let u: u32 = c as u32;
        assert(t[i - a] == c);
        let up: char = if 97 <= u && u <= 122 {
            ((u - 32) as u8) as char
        } else {
            c
        };
        r.push(up);
        assert(r@ =~= to_upper(t).take(i - a + 1));
        i += 1;
    }
    assert(r@ =~= to_upper(t));
    r
}

/// The count that the second token of `line` asks for.
fn read_count_argument(line: &Vec<char>, default: usize) -> (n: usize)
    ensures
        n == count_argument(line@, default as nat),
{
    let len = line.len();
    assert(line@.subrange(0, len as int) =~= line@);
    let a = skip_white(line, 0, len);
    let b = token_stop(line, a, len);
    let ghost t = line@.subrange(a as int, len as int);
    assert(t.skip(b - a) =~= line@.subrange(b as int, len as int));
    let c = skip_white(line, b, len);
    let d = token_stop(line, c, len);
    let ghost t2 = line@.subrange(c as int, len as int);
    assert(t2.take(d - c) =~= line@.subrange(c as int, d as int));
    let n = match parse_count(line, c, d) {
        Some(n) => n,
        None => default,
    };
    if n < 1 {
        1
    } else {
        n
    }
}

/// The bounds of the first token of `line`.
fn first_token_range(line: &Vec<char>) -> (r: (usize, usize))
    ensures
        r.0 <= r.1 <= line.len(),
        line@.subrange(r.0 as int, r.1 as int) == first_token(line@),
{
    let len = line.len();
    assert(line@.subrange(0, len as int) =~= line@);
    let a = skip_white(line, 0, len);
    let b = token_stop(line, a, len);
    assert(line@.subrange(a as int, len as int).take(b - a) =~= line@.subrange(
        a as int,
        b as int,
    ));
    (a, b)
}

/// Reads a line typed while the solver waits for feedback.
pub fn parse_solver_feedback(raw: &str) -> (r: SolverFeedbackDecision)
    ensures
        r == solver_feedback_decision(raw@),
{
    let chars = chars_of(raw);
    assert(chars@.subrange(0, chars@.len() as int) =~= chars@);
    let upper = upper_trimmed(&chars, 0, chars.len());
    if upper.len() == 0 {
        return SolverFeedbackDecision::InvalidInput;
    }
    match parse_results_chars(&upper) {
        Some(code) => {
            return SolverFeedbackDecision::SubmitFeedback(code);
        },
        None => {},
    }
    let (a, b) = first_token_range(&upper);
    let n = read_count_argument(&upper, 10);
    if range_is(&upper, a, b, "HELP") {
        SolverFeedbackDecision::Help
    } else if range_is(&upper, a, b, "STATUS") {
        SolverFeedbackDecision::Status
    } else if range_is(&upper, a, b, "TOP") {
        SolverFeedbackDecision::Top(n)
    } else if range_is(&upper, a, b, "CANDS") {
        SolverFeedbackDecision::Cands(n)
    } else if range_is(&upper, a, b, "BOARD") {
        SolverFeedbackDecision::Board
    } else if range_is(&upper, a, b, "UNDO") {
        SolverFeedbackDecision::UndoRestart
    } else if range_is(&upper, a, b, "EXIT") {
        SolverFeedbackDecision::ExitMode
    } else {
        SolverFeedbackDecision::InvalidInput
    }
}

/// Reads a line typed in game mode.
pub fn parse_game_decision(raw: &str) -> (r: GameDecision)
    ensures
        is_game_decision(raw@, r),
{
    let chars = chars_of(raw);
    assert(chars@.subrange(0, chars@.len() as int) =~= chars@);
    let (a, b) = trim_range(&chars, 0, chars.len());
    let ghost t = chars@.subrange(a as int, b as int);
    if a == b {
        return GameDecision::InvalidGuess;
    }
    assert(t[0] == chars@[a as int]);
    if chars[a] == '/' {
        assert(t.skip(1) =~= chars@.subrange(a + 1, b as int));
        let upper = upper_trimmed(&chars, a + 1, b);
        let (c, d) = first_token_range(&upper);
        let n = read_count_argument(&upper, 5);
        return if range_is(&upper, c, d, "HELP") {
            GameDecision::Help
        } else if range_is(&upper, c, d, "HINT") {
            GameDecision::Hints(n)
        } else if range_is(&upper, c, d, "STATUS") {
            GameDecision::Status
        } else if range_is(&upper, c, d, "BOARD") {
            GameDecision::Board
        } else if range_is(&upper, c, d, "UNDO") {
            GameDecision::Undo
        } else if range_is(&upper, c, d, "EXIT") {
            GameDecision::ExitMode
        } else {
            GameDecision::UnknownCommand
        };
    }
    match parse_word_chars(&chars, a, b) {
        Some(w) => GameDecision::SubmitGuess(w),
        None => GameDecision::InvalidGuess,
    }
}

/// Reads a line that picks one of several equally ranked guesses. The
/// empty line stands for the first of them, so there must be one.
pub fn parse_solver_choice(input: &str, words: &[Word]) -> (r: SolverChoiceDecision)
    requires
        input@.len() == 0 ==> words@.len() > 0,
    ensures
        is_solver_choice(input@, words@, r),
{
    broadcast use crate::word::lemma_word_len;

    let chars = chars_of(input);
    if chars.len() == 0 {
        return SolverChoiceDecision::Pick(words[0]);
    }
    assert(chars@.subrange(0, chars@.len() as int) =~= chars@);
    match parse_count(&chars, 0, chars.len()) {
        Some(k) => {
            if 1 <= k && k <= words.len() {
                return SolverChoiceDecision::Pick(words[k - 1]);
            }
        },
        None => {},
    }
    match parse_word_chars(&chars, 0, chars.len()) {
        Some(w) => {
            let mut i: usize = 0;
            while i < words.len()
                invariant
                    i <= words@.len(),
                    chars@ == input@,
                    chars@.len() > 0,
                    parse_word_spec(chars@) == Some(w@),
                    !(parse_count_spec(chars@) is Some && 1 <= parse_count_spec(chars@)->0
                        <= words@.len()),
                    forall|j: int| 0 <= j < i ==> (#[trigger] words@[j])@ != w@,
                decreases words@.len() - i,
            {
                if words[i] == w {
                    return SolverChoiceDecision::Pick(w);
                }
                proof {
                    crate::word::lemma_word_view_injective(words@[i as int], w);
                }
                i += 1;
            }
        },
        None => {},
    }
    SolverChoiceDecision::InvalidChoice
}

/// The names of the commands on one line.
pub fn command_summary(commands: &[(&'static str, &'static str)]) -> (s: String)
    ensures
        s@ == joined_names(commands@),
{
    let mut s = String::new();
    let mut i: usize = 0;
    assert(commands@.take(0) =~= Seq::empty());
    while i < commands.len()
        invariant
            i <= commands@.len(),
            s@ == joined_names(commands@.take(i as int)),
        decreases commands@.len() - i,
    {
        proof {
            assert(commands@.take(i + 1).drop_last() =~= commands@.take(i as int));
            reveal_strlit(" ");
        }
        if i > 0 {
            s.append(" ");
        }
        s.append(commands[i].0);
        proof {
            if i == 0 {
                assert(s@ =~= commands@[0].0@);
            }
        }
        i += 1;
    }
    assert(commands@.take(i as int) =~= commands@);
    s
}

} // verus!
