use wordle_solver::{
    parse_word5, rank_guesses, simulate_results_pattern, ScoredGuess, Word, WordleSolver,
};

fn w(s: &str) -> Word {
    parse_word5(s).unwrap()
}

fn scored(word: &str, score: u64) -> ScoredGuess {
    ScoredGuess { word: w(word), score }
}

fn solver() -> WordleSolver {
    WordleSolver::from_word_list(vec![w("arise"), w("raise"), w("serai"), w("irate")])
}

#[test]
fn better_scores_first_then_dictionary_order() {
    let ranked = rank_guesses(vec![
        scored("raise", 5),
        scored("arise", 5),
        scored("serai", 9),
        scored("irate", 1),
        scored("aaaaa", 5),
    ]);
    assert_eq!(
        ranked,
        vec![
            scored("serai", 9),
            scored("aaaaa", 5),
            scored("arise", 5),
            scored("raise", 5),
            scored("irate", 1),
        ]
    );
    assert!(rank_guesses(Vec::new()).is_empty());
    assert_eq!(rank_guesses(vec![scored("arise", 0)]), vec![scored("arise", 0)]);
}

#[test]
fn ranking_does_not_depend_on_the_order_given() {
    let items = vec![
        scored("raise", 7),
        scored("arise", 7),
        scored("serai", 7),
        scored("irate", u64::MAX),
        scored("allee", 0),
        scored("raise", 7),
    ];
    let expected = rank_guesses(items.clone());
    let mut rotated = items.clone();
    for _ in 0..items.len() {
        rotated.rotate_left(1);
        assert_eq!(rank_guesses(rotated.clone()), expected);
    }
    let mut reversed = items;
    reversed.reverse();
    assert_eq!(rank_guesses(reversed), expected);
    assert_eq!(rank_guesses(expected.clone()), expected);
}

#[test]
fn spread_counts_candidates_per_feedback() {
    let solver = solver();
    let counts = solver.feedback_spread(w("raise")).unwrap();
    assert_eq!(counts.len(), 243);
    assert_eq!(counts[238], 1);
    assert_eq!(counts[242], 1);
    assert_eq!(counts[121], 1);
    assert_eq!(counts[175], 1);
    assert_eq!(counts.iter().sum::<usize>(), 4);
    assert_eq!(solver.feedback_spread(w("crane")), None);
}

#[test]
fn spread_follows_the_candidates_as_they_shrink() {
    let mut solver = solver();
    let feedback = simulate_results_pattern(w("serai"), w("irate"));
    solver.next_turn(w("serai"), feedback).unwrap();
    let candidates = solver.candidates().to_vec();
    let counts = solver.feedback_spread(w("raise")).unwrap();
    for code in 0..243u16 {
        let expected = candidates
            .iter()
            .filter(|t| simulate_results_pattern(w("raise"), **t) == code)
            .count();
        assert_eq!(counts[code as usize], expected);
    }
}

#[test]
fn every_candidate_gets_its_own_spread() {
    let mut solver = solver();
    let all = solver.candidate_spreads();
    assert_eq!(all.len(), 4);
    for (i, word) in solver.candidates().to_vec().iter().enumerate() {
        assert_eq!(Some(all[i].clone()), solver.feedback_spread(*word));
        assert_eq!(all[i][242], 1);
    }
    assert_ne!(all[0], all[1]);
    solver.next_turn(w("raise"), 238).unwrap();
    let one = solver.candidate_spreads();
    assert_eq!(one.len(), 1);
    assert_eq!(one[0][242], 1);
    assert_eq!(one[0].iter().sum::<usize>(), 1);
}

#[test]
fn ranking_agrees_with_a_plain_sort() {
    let words = ["arise", "raise", "serai", "irate", "allee", "apple", "zzzzz", "aaaaa"];
    let mut state: u64 = 0x2545_f491_4f6c_dd1d;
    let mut items = Vec::new();
    for _ in 0..1000 {
        state ^= state << 13;
        state ^= state >> 7;
        state ^= state << 17;
        let word = words[(state % 8) as usize];
        items.push(scored(word, (state >> 8) % 5));
    }
    let mut expected = items.clone();
    expected.sort_by(|a, b| b.score.cmp(&a.score).then_with(|| a.word.cmp(&b.word)));
    assert_eq!(rank_guesses(items), expected);
}

#[test]
fn candidates_are_ranked_by_the_scores_given() {
    let solver = solver();
    let ranked = solver.scored_guesses(&[3, 8, 3, 8]).unwrap();
    assert_eq!(
        ranked,
        vec![scored("irate", 8), scored("raise", 8), scored("arise", 3), scored("serai", 3)]
    );
    assert_eq!(solver.scored_guesses(&[1, 2, 3]), None);
    assert_eq!(solver.scored_guesses(&[1, 2, 3, 4, 5]), None);
    assert_eq!(solver.scored_guesses(&[0, 0, 0, 0]), solver.scored_guesses(&[0, 0, 0, 0]));
    let empty = WordleSolver::from_word_list(Vec::new());
    assert_eq!(empty.scored_guesses(&[]), Some(Vec::new()));
}

#[test]
fn entropy_order_of_the_small_vocabulary() {
    // "serai" cannot tell "arise" from "raise"; every other guess splits the
    // four candidates into four groups of one.
    let solver = solver();
    let entropies: Vec<f64> = solver
        .candidate_spreads()
        .iter()
        .map(|counts| {
            let n: usize = counts.iter().sum();
            let mut h = 0.0f64;
            for &c in counts.iter().filter(|c| **c > 0) {
                let p = c as f64 / n as f64;
                h -= p * p.log2();
            }
            h
        })
        .collect();
    assert_eq!(entropies, [2.0, 2.0, 1.5, 2.0]);
    let scores: Vec<u64> = entropies.iter().map(|h| h.to_bits()).collect();
    let ranked = solver.scored_guesses(&scores).unwrap();
    let order: Vec<String> = ranked.iter().map(|g| g.word.to_string()).collect();
    assert_eq!(order, ["arise", "irate", "raise", "serai"]);
    assert_eq!(f64::from_bits(ranked[3].score), 1.5);
}
