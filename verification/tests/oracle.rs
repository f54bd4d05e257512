use wordle_solver::matrix::build_pattern_matrix;
use wordle_solver::{
    parse_results_code, parse_word5, results_code_to_string, simulate_results_code,
    simulate_results_pattern, Word, ALL_GREEN_CODE, PATTERN_BUCKETS,
};

fn w(s: &str) -> Word {
    parse_word5(s).unwrap()
}

fn feedback(guess: &str, target: &str) -> String {
    results_code_to_string(simulate_results_pattern(w(guess), w(target)))
}

#[test]
fn every_code_survives_text_and_back() {
    for code in 0..243u16 {
        let text = results_code_to_string(code);
        assert_eq!(text.len(), 5);
        assert_eq!(parse_results_code(&text), Some(code));
    }
}

#[test]
fn every_feedback_text_survives_code_and_back() {
    let letters = ['B', 'Y', 'G'];
    let mut seen = 0;
    for a in letters {
        for b in letters {
            for c in letters {
                for d in letters {
                    for e in letters {
                        let text: String = [a, b, c, d, e].iter().collect();
                        let code = parse_results_code(&text).unwrap();
                        assert!(code < 243);
                        assert_eq!(results_code_to_string(code), text);
                        seen += 1;
                    }
                }
            }
        }
    }
    assert_eq!(seen, PATTERN_BUCKETS);
}

#[test]
fn code_digits_are_least_significant_first() {
    assert_eq!(parse_results_code("BBBBB"), Some(0));
    assert_eq!(parse_results_code("YBBBB"), Some(1));
    assert_eq!(parse_results_code("GBBBB"), Some(2));
    assert_eq!(parse_results_code("BYBBB"), Some(3));
    assert_eq!(parse_results_code("BBBBG"), Some(162));
    assert_eq!(parse_results_code("GYBBG"), Some(167));
    assert_eq!(parse_results_code("YYGGG"), Some(238));
    assert_eq!(parse_results_code("GGGGG"), Some(ALL_GREEN_CODE));
    assert_eq!(ALL_GREEN_CODE, 242);
    assert_eq!(results_code_to_string(5), "GYBBB");
    assert_eq!(results_code_to_string(121), "YYYYY");
}

#[test]
fn malformed_feedback_text_is_rejected() {
    assert_eq!(parse_results_code(""), None);
    assert_eq!(parse_results_code("GGGG"), None);
    assert_eq!(parse_results_code("GGGGGG"), None);
    assert_eq!(parse_results_code("ggggg"), None);
    assert_eq!(parse_results_code("GYxBG"), None);
    assert_eq!(parse_results_code(" GYBBG"), None);
    assert_eq!(parse_results_code("GYBB\u{e9}"), None);
}

#[test]
fn greens_are_taken_before_yellows() {
    assert_eq!(feedback("allee", "apple"), "GYBBG");
    assert_eq!(feedback("raise", "arise"), "YYGGG");
    assert_eq!(feedback("raise", "serai"), "YYYYY");
    assert_eq!(feedback("raise", "irate"), "YYYBG");
    assert_eq!(feedback("speed", "abide"), "BBYBY");
    assert_eq!(feedback("speed", "erase"), "YBYYB");
    assert_eq!(feedback("eerie", "there"), "YBYBG");
    assert_eq!(feedback("abcde", "fghij"), "BBBBB");
    assert_eq!(feedback("llama", "ladle"), "GYYBB");
}

#[test]
fn a_word_scores_all_correct_against_itself_only() {
    let words = [w("arise"), w("raise"), w("serai"), w("irate"), w("allee")];
    for g in &words {
        for t in &words {
            let code = simulate_results_code(g, t);
            assert!(code < 243);
            assert_eq!(code == ALL_GREEN_CODE, g == t);
        }
    }
}

#[test]
fn pattern_table_holds_the_oracle_for_every_pair() {
    let words = vec![w("arise"), w("raise"), w("serai"), w("irate"), w("allee"), w("apple")];
    let table = build_pattern_matrix(&words);
    let n = words.len();
    assert_eq!(table.len(), n * n);
    for g in 0..n {
        for t in 0..n {
            assert_eq!(table[g * n + t] as u16, simulate_results_code(&words[g], &words[t]));
        }
    }
    assert_eq!(table[0], 242);
    assert_eq!(table[n + 0], 238);
    assert!(build_pattern_matrix(&Vec::new()).is_empty());
}
