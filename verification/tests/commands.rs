use wordle_solver::{
    command_summary, parse_game_decision, parse_solver_choice, parse_solver_feedback,
    parse_word5, GameDecision, SolverChoiceDecision, SolverFeedbackDecision, Word,
};

fn w(s: &str) -> Word {
    parse_word5(s).unwrap()
}

#[test]
fn feedback_lines_submit_their_code() {
    assert_eq!(parse_solver_feedback("GYBBG"), SolverFeedbackDecision::SubmitFeedback(167));
    assert_eq!(parse_solver_feedback("  gybbg \n"), SolverFeedbackDecision::SubmitFeedback(167));
    assert_eq!(parse_solver_feedback("ggggg"), SolverFeedbackDecision::SubmitFeedback(242));
    assert_eq!(parse_solver_feedback("bbbbb"), SolverFeedbackDecision::SubmitFeedback(0));
}

#[test]
fn solver_commands_are_read_in_either_case() {
    assert_eq!(parse_solver_feedback("help"), SolverFeedbackDecision::Help);
    assert_eq!(parse_solver_feedback("HELP me please"), SolverFeedbackDecision::Help);
    assert_eq!(parse_solver_feedback("Status"), SolverFeedbackDecision::Status);
    assert_eq!(parse_solver_feedback("board"), SolverFeedbackDecision::Board);
    assert_eq!(parse_solver_feedback("undo"), SolverFeedbackDecision::UndoRestart);
    assert_eq!(parse_solver_feedback(" exit "), SolverFeedbackDecision::ExitMode);
}

#[test]
fn solver_counts_default_to_ten_and_are_at_least_one() {
    assert_eq!(parse_solver_feedback("top"), SolverFeedbackDecision::Top(10));
    assert_eq!(parse_solver_feedback("top 3"), SolverFeedbackDecision::Top(3));
    assert_eq!(parse_solver_feedback("TOP   25  9"), SolverFeedbackDecision::Top(25));
    assert_eq!(parse_solver_feedback("top 0"), SolverFeedbackDecision::Top(1));
    assert_eq!(parse_solver_feedback("top +7"), SolverFeedbackDecision::Top(7));
    assert_eq!(parse_solver_feedback("top 007"), SolverFeedbackDecision::Top(7));
    assert_eq!(parse_solver_feedback("top -7"), SolverFeedbackDecision::Top(10));
    assert_eq!(parse_solver_feedback("top abc"), SolverFeedbackDecision::Top(10));
    assert_eq!(parse_solver_feedback("top 3x"), SolverFeedbackDecision::Top(10));
    assert_eq!(parse_solver_feedback("top +"), SolverFeedbackDecision::Top(10));
    assert_eq!(
        parse_solver_feedback("top 99999999999999999999999999"),
        SolverFeedbackDecision::Top(10)
    );
    assert_eq!(parse_solver_feedback("cands"), SolverFeedbackDecision::Cands(10));
    assert_eq!(parse_solver_feedback("cands\t4"), SolverFeedbackDecision::Cands(4));
    assert_eq!(
        parse_solver_feedback("cands 18446744073709551615"),
        SolverFeedbackDecision::Cands(usize::MAX)
    );
}

#[test]
fn other_solver_lines_are_invalid() {
    assert_eq!(parse_solver_feedback(""), SolverFeedbackDecision::InvalidInput);
    assert_eq!(parse_solver_feedback("   "), SolverFeedbackDecision::InvalidInput);
    assert_eq!(parse_solver_feedback("gybb"), SolverFeedbackDecision::InvalidInput);
    assert_eq!(parse_solver_feedback("hint"), SolverFeedbackDecision::InvalidInput);
    assert_eq!(parse_solver_feedback("/help"), SolverFeedbackDecision::InvalidInput);
    assert_eq!(parse_solver_feedback("tops 3"), SolverFeedbackDecision::InvalidInput);
}

#[test]
fn game_lines_are_guesses_unless_they_start_with_a_slash() {
    assert_eq!(parse_game_decision("crane"), GameDecision::SubmitGuess(w("crane")));
    assert_eq!(parse_game_decision("  CRANE\n"), GameDecision::SubmitGuess(w("crane")));
    assert_eq!(parse_game_decision("help"), GameDecision::InvalidGuess);
    assert_eq!(parse_game_decision("cr4ne"), GameDecision::InvalidGuess);
    assert_eq!(parse_game_decision(""), GameDecision::InvalidGuess);
    assert_eq!(parse_game_decision(" \t "), GameDecision::InvalidGuess);
    assert_eq!(parse_game_decision("undos"), GameDecision::SubmitGuess(w("undos")));
}

#[test]
fn game_commands_are_read_in_either_case() {
    assert_eq!(parse_game_decision("/help"), GameDecision::Help);
    assert_eq!(parse_game_decision("/ HELP"), GameDecision::Help);
    assert_eq!(parse_game_decision("/status"), GameDecision::Status);
    assert_eq!(parse_game_decision("/Board now"), GameDecision::Board);
    assert_eq!(parse_game_decision(" /undo"), GameDecision::Undo);
    assert_eq!(parse_game_decision("/exit"), GameDecision::ExitMode);
    assert_eq!(parse_game_decision("/hint"), GameDecision::Hints(5));
    assert_eq!(parse_game_decision("/hint 2"), GameDecision::Hints(2));
    assert_eq!(parse_game_decision("/hint 0"), GameDecision::Hints(1));
    assert_eq!(parse_game_decision("/hint many"), GameDecision::Hints(5));
    assert_eq!(parse_game_decision("/"), GameDecision::UnknownCommand);
    assert_eq!(parse_game_decision("/   "), GameDecision::UnknownCommand);
    assert_eq!(parse_game_decision("/top 3"), GameDecision::UnknownCommand);
    assert_eq!(parse_game_decision("//help"), GameDecision::UnknownCommand);
}

#[test]
fn a_choice_is_a_rank_a_word_or_nothing() {
    let words = [w("arise"), w("raise"), w("serai")];
    assert_eq!(parse_solver_choice("", &words), SolverChoiceDecision::Pick(w("arise")));
    assert_eq!(parse_solver_choice("1", &words), SolverChoiceDecision::Pick(w("arise")));
    assert_eq!(parse_solver_choice("3", &words), SolverChoiceDecision::Pick(w("serai")));
    assert_eq!(parse_solver_choice("+2", &words), SolverChoiceDecision::Pick(w("raise")));
    assert_eq!(parse_solver_choice("0", &words), SolverChoiceDecision::InvalidChoice);
    assert_eq!(parse_solver_choice("4", &words), SolverChoiceDecision::InvalidChoice);
    assert_eq!(parse_solver_choice(" 2", &words), SolverChoiceDecision::InvalidChoice);
    assert_eq!(parse_solver_choice("RAISE", &words), SolverChoiceDecision::Pick(w("raise")));
    assert_eq!(parse_solver_choice(" serai ", &words), SolverChoiceDecision::Pick(w("serai")));
    assert_eq!(parse_solver_choice("irate", &words), SolverChoiceDecision::InvalidChoice);
    assert_eq!(parse_solver_choice("rais", &words), SolverChoiceDecision::InvalidChoice);
    assert_eq!(parse_solver_choice("1", &[]), SolverChoiceDecision::InvalidChoice);
    assert_eq!(parse_solver_choice("raise", &[]), SolverChoiceDecision::InvalidChoice);
}

#[test]
fn command_names_are_joined_by_spaces() {
    let commands = [
        ("/HELP", "Show this command list"),
        ("/HINT [n]", "Show top n suggested guesses (default 5)"),
        ("/EXIT", "Return to main menu"),
    ];
    assert_eq!(command_summary(&commands), "/HELP /HINT [n] /EXIT");
    assert_eq!(command_summary(&commands[..1]), "/HELP");
    assert_eq!(command_summary(&[]), "");
}

#[test]
fn counts_are_read_as_the_standard_library_reads_them() {
    let tokens = [
        "0", "1", "9", "10", "42", "+42", "++42", "-42", "4 2", "４２", "0x10", "1e3", "1_000",
        "00000000000000000000000000000000007", "18446744073709551615", "18446744073709551616",
        "+18446744073709551615", "99999999999999999999", "+", "-", "", "٣", "12a", "a12", "1.5",
    ];
    for token in tokens {
        let line = format!("top {token}");
        let second = line.split_whitespace().nth(1);
        let expected = second.and_then(|s| s.parse::<usize>().ok()).unwrap_or(10).max(1);
        assert_eq!(parse_solver_feedback(&line), SolverFeedbackDecision::Top(expected), "{token:?}");
        let line = format!("/hint\u{2003}{token}\u{a0}tail");
        let second = line.split_whitespace().nth(1);
        let expected = second.and_then(|s| s.parse::<usize>().ok()).unwrap_or(5).max(1);
        assert_eq!(parse_game_decision(&line), GameDecision::Hints(expected), "{token:?}");
    }
}

#[test]
fn only_ascii_letters_change_case() {
    assert_eq!(parse_solver_feedback("ｈｅｌｐ"), SolverFeedbackDecision::InvalidInput);
    assert_eq!(parse_solver_feedback("hélp"), SolverFeedbackDecision::InvalidInput);
    assert_eq!(parse_solver_feedback("\u{a0}Help\u{2009}"), SolverFeedbackDecision::Help);
    assert_eq!(parse_game_decision("\u{3000}/exit\u{85}"), GameDecision::ExitMode);
    assert_eq!(parse_game_decision("/ｅxit"), GameDecision::UnknownCommand);
}
