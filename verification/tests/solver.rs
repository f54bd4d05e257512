use wordle_solver::{
    load_word_list, parse_results_code, parse_word5, results_code_to_string,
    simulate_results_code, simulate_results_pattern, GameStatus, LoadError, SolverError, Word,
    WordleSolver,
};

fn word(s: &str) -> Word {
    parse_word5(s).unwrap()
}

fn small_vocabulary() -> Vec<Word> {
    vec![word("arise"), word("raise"), word("serai"), word("irate")]
}

#[test]
fn duplicate_letters_match_wordle_oracle() {
    let guess = word("allee");
    let target = word("apple");
    let code = simulate_results_code(&guess, &target);
    assert_eq!(code, parse_results_code("GYBBG").unwrap());
}

#[test]
fn pattern_code_round_trip() {
    for pattern in ["BBBBB", "GYBBG", "YYYYY", "GGGGG"] {
        let code = parse_results_code(pattern).unwrap();
        assert_eq!(results_code_to_string(code), pattern);
    }
}

#[test]
fn next_turn_filters_by_oracle_code() {
    let words = small_vocabulary();
    let mut solver = WordleSolver::from_word_list(words);

    let status = solver
        .next_turn(word("raise"), parse_results_code("YYGGG").unwrap())
        .unwrap();
    assert_eq!(status, GameStatus::Ongoing);
    assert_eq!(solver.candidates(), &[word("arise")]);
}

#[test]
fn next_turn_accepts_guess_not_in_current_candidates() {
    let words = small_vocabulary();
    let mut solver = WordleSolver::from_word_list(words);

    solver
        .next_turn(word("raise"), parse_results_code("YYGGG").unwrap())
        .unwrap();
    let feedback = simulate_results_pattern(word("serai"), word("arise"));
    let status = solver.next_turn(word("serai"), feedback).unwrap();
    assert_eq!(status, GameStatus::Ongoing);
    assert_eq!(solver.candidates(), &[word("arise")]);
}

#[test]
fn inconsistent_feedback_does_not_mutate_state() {
    let words = small_vocabulary();
    let mut solver = WordleSolver::from_word_list(words);
    let before = solver.candidates().to_vec();

    let err = solver
        .next_turn(word("raise"), parse_results_code("BBBBB").unwrap())
        .unwrap_err();
    assert_eq!(err, SolverError::InconsistentFeedback);
    assert_eq!(solver.candidates(), before.as_slice());
    assert_eq!(solver.attempt_number(), 1);
}

#[test]
fn load_word_list_deduplicates_while_preserving_order() {
    let loaded = load_word_list("apple\nberry\nAPPLE\nchase\n").unwrap();

    assert_eq!(loaded, vec![word("apple"), word("berry"), word("chase")]);
}

#[test]
fn load_word_list_rejects_invalid_lines() {
    let err = load_word_list("apple\nbad!\nchase\n").unwrap_err();

    assert_eq!(err, LoadError::InvalidLine(2));
}

#[test]
fn unknown_guess_is_refused_and_named() {
    let mut solver = WordleSolver::from_word_list(small_vocabulary());
    let err = solver.next_turn(word("crane"), 0).unwrap_err();
    assert_eq!(err, SolverError::GuessNotInWordList(word("crane")));
    assert_eq!(solver.candidates().len(), 4);
    assert_eq!(solver.attempt_number(), 1);
}

#[test]
fn feedback_outside_the_codes_is_refused() {
    let mut solver = WordleSolver::from_word_list(small_vocabulary());
    let err = solver.next_turn(word("raise"), 243).unwrap_err();
    assert_eq!(err, SolverError::InvalidResultsPattern);
    // The range check comes before the vocabulary check.
    let err = solver.next_turn(word("crane"), 9999).unwrap_err();
    assert_eq!(err, SolverError::InvalidResultsPattern);
    assert_eq!(solver.candidates().len(), 4);
}

#[test]
fn all_correct_feedback_wins_on_any_turn() {
    let mut solver = WordleSolver::from_word_list(small_vocabulary());
    let status = solver.next_turn(word("arise"), 242).unwrap();
    assert_eq!(status, GameStatus::Won);
    assert_eq!(solver.candidates(), &[word("arise")]);

    let mut late = WordleSolver::from_word_list(small_vocabulary());
    let yyggg = parse_results_code("YYGGG").unwrap();
    for _ in 0..7 {
        late.next_turn(word("raise"), yyggg).unwrap();
    }
    assert_eq!(late.next_turn(word("arise"), 242).unwrap(), GameStatus::Won);
}

#[test]
fn sixth_turn_without_a_win_loses() {
    let mut solver = WordleSolver::from_word_list(small_vocabulary());
    let yyggg = parse_results_code("YYGGG").unwrap();
    for turn in 1..=5 {
        assert_eq!(solver.attempt_number(), turn);
        let status = solver.next_turn(word("raise"), yyggg).unwrap();
        assert_eq!(status, GameStatus::Ongoing);
    }
    assert_eq!(solver.next_turn(word("raise"), yyggg).unwrap(), GameStatus::Lost);
    assert_eq!(solver.attempt_number(), 7);
    assert_eq!(solver.max_attempts(), 6);
    assert_eq!(solver.next_turn(word("raise"), yyggg).unwrap(), GameStatus::Lost);
}

#[test]
fn remaining_candidates_agree_with_the_oracle() {
    let words = small_vocabulary();
    for guess in &words {
        for target in &words {
            let feedback = simulate_results_pattern(*guess, *target);
            let mut solver = WordleSolver::from_word_list(words.clone());
            solver.next_turn(*guess, feedback).unwrap();
            let expected: Vec<Word> = words
                .iter()
                .copied()
                .filter(|w| simulate_results_pattern(*guess, *w) == feedback)
                .collect();
            assert_eq!(solver.candidates(), expected.as_slice());
            assert!(solver.candidates().contains(target));
        }
    }
}

#[test]
fn fresh_solver_holds_the_whole_vocabulary() {
    let solver = WordleSolver::from_word_list(small_vocabulary());
    assert_eq!(solver.candidates(), small_vocabulary().as_slice());
    assert_eq!(solver.attempt_number(), 1);
    assert_eq!(solver.max_attempts(), 6);
    assert!(solver.contains_word(word("serai")));
    assert!(!solver.contains_word(word("crane")));
}

#[test]
fn empty_vocabulary_gives_a_solver_without_candidates() {
    let mut solver = WordleSolver::from_word_list(Vec::new());
    assert!(solver.candidates().is_empty());
    let err = solver.next_turn(word("raise"), 0).unwrap_err();
    assert_eq!(err, SolverError::GuessNotInWordList(word("raise")));
}

#[test]
fn repeated_words_in_the_vocabulary_are_found_at_their_first_place() {
    let words = vec![word("arise"), word("raise"), word("arise")];
    let mut solver = WordleSolver::from_word_list(words);
    let status = solver.next_turn(word("arise"), 242).unwrap();
    assert_eq!(status, GameStatus::Won);
    assert_eq!(solver.candidates(), &[word("arise"), word("arise")]);
}

#[test]
fn a_cloned_solver_moves_on_its_own() {
    let first = WordleSolver::from_word_list(small_vocabulary());
    let mut copy = first.clone();
    copy.next_turn(word("raise"), parse_results_code("YYGGG").unwrap()).unwrap();
    assert_eq!(copy.candidates(), &[word("arise")]);
    assert_eq!(copy.attempt_number(), 2);
    assert_eq!(first.candidates().len(), 4);
    assert_eq!(first.attempt_number(), 1);
    assert!(copy.contains_word(word("irate")));
}

#[test]
fn solver_from_text_loads_or_reports() {
    let solver = WordleSolver::new("arise\nraise\nARISE\n").unwrap();
    assert_eq!(solver.candidates(), &[word("arise"), word("raise")]);
    assert_eq!(WordleSolver::new("").err(), Some(LoadError::Empty));
    assert_eq!(WordleSolver::new("arise\nxx\n").err(), Some(LoadError::InvalidLine(2)));
}

#[test]
fn solver_error_messages() {
    assert_eq!(
        SolverError::InvalidResultsPattern.message(),
        "Invalid results: use exactly 5 characters from G, Y, and B"
    );
    assert_eq!(
        SolverError::GuessNotInWordList(word("crane")).message(),
        "Guess 'crane' is not in the solver word list"
    );
    assert_eq!(
        SolverError::InconsistentFeedback.message(),
        "Inconsistent feedback: no candidate matches that guess/pattern pair"
    );
}
