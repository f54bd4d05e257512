//! The feedback oracle: what a guess scores against a target, and the
//! text form of a feedback pattern.

use crate::text::chars_of;
use crate::word::Word;
use vstd::prelude::*;

verus! {

/// A feedback pattern as a base-3 number: the digit of weight `3^i` is what
/// position `i` of the guess scored (0 absent, 1 present elsewhere,
/// 2 correct).
pub type PatternCode = u16;

/// How many feedback patterns there are: `3^5`.
pub const PATTERN_BUCKETS: usize = 243;

/// The pattern in which every position is correct.
pub const ALL_GREEN_CODE: PatternCode = 242;

/// How many of the first `n` target positions hold `c` without being
/// matched by the guess at the same position.
pub open spec fn unmatched_in_target(g: Seq<u8>, t: Seq<u8>, c: u8, n: nat) -> nat
    decreases n,
{
    if n == 0 {
        0
    } else {
        let rest = unmatched_in_target(g, t, c, (n - 1) as nat);
        if t[n - 1] == c && g[n - 1] != t[n - 1] {
            rest + 1
        } else {
            rest
        }
    }
}

/// How many of the first `n` guess positions hold `c` without matching the
/// target at the same position.
pub open spec fn unmatched_in_guess(g: Seq<u8>, t: Seq<u8>, c: u8, n: nat) -> nat
    decreases n,
{
    if n == 0 {
        0
    } else {
        let rest = unmatched_in_guess(g, t, c, (n - 1) as nat);
        if g[n - 1] == c && g[n - 1] != t[n - 1] {
            rest + 1
        } else {
            rest
        }
    }
}

/// The feedback digit of guess position `i`: correct where the letters
/// agree; otherwise present while the target still has an unmatched copy of
/// the letter that no earlier guess position has claimed; otherwise absent.
pub open spec fn pattern_digit(g: Seq<u8>, t: Seq<u8>, i: int) -> int {
    if g[i] == t[i] {
        2
    } else if unmatched_in_guess(g, t, g[i], i as nat) < unmatched_in_target(g, t, g[i], 5) {
        1
    } else {
        0
    }
}

/// The number whose base-3 digits, least significant first, are `d0..d4`.
pub open spec fn pack_digits(d0: int, d1: int, d2: int, d3: int, d4: int) -> int {
    d0 + 3 * d1 + 9 * d2 + 27 * d3 + 81 * d4
}

/// The feedback that guess `g` receives against target `t`.
pub open spec fn pattern_code(g: Seq<u8>, t: Seq<u8>) -> int {
    pack_digits(
        pattern_digit(g, t, 0),
        pattern_digit(g, t, 1),
        pattern_digit(g, t, 2),
        pattern_digit(g, t, 3),
        pattern_digit(g, t, 4),
    )
}

/// Every feedback is below `3^5`.
pub proof fn lemma_pattern_code_range(g: Seq<u8>, t: Seq<u8>)
    ensures
        0 <= pattern_code(g, t) < 243,
{
}

/// How many of the first `n` target positions hold `c`.
spec fn count_in_target(t: Seq<u8>, c: u8, n: nat) -> nat
    decreases n,
{
    if n == 0 {
        0
    } else {
        count_in_target(t, c, (n - 1) as nat) + if t[n - 1] == c {
            1nat
        } else {
            0nat
        }
    }
}

/// How many of the first `n` positions hold `c` in both words.
spec fn matched_count(g: Seq<u8>, t: Seq<u8>, c: u8, n: nat) -> nat
    decreases n,
{
    if n == 0 {
        0
    } else {
        matched_count(g, t, c, (n - 1) as nat) + if t[n - 1] == c && g[n - 1] == c {
            1nat
        } else {
            0nat
        }
    }
}

proof fn lemma_count_split(g: Seq<u8>, t: Seq<u8>, c: u8, n: nat)
    ensures
        count_in_target(t, c, n) == matched_count(g, t, c, n) + unmatched_in_target(g, t, c, n),
        count_in_target(t, c, n) <= n,
    decreases n,
{
    if n > 0 {
        lemma_count_split(g, t, c, (n - 1) as nat);
    }
}

proof fn lemma_matched_monotone(g: Seq<u8>, t: Seq<u8>, c: u8, n: nat, m: nat)
    requires
        n <= m,
    ensures
        matched_count(g, t, c, n) <= matched_count(g, t, c, m),
    decreases m,
{
    if n < m {
        lemma_matched_monotone(g, t, c, n, (m - 1) as nat);
    }
}

/// What the per-letter counter holds once the first `n` guess positions
/// have claimed their unmatched copies.
spec fn remaining(g: Seq<u8>, t: Seq<u8>, c: u8, n: nat) -> int {
    let have = unmatched_in_target(g, t, c, 5);
    let used = unmatched_in_guess(g, t, c, n);
    if used < have {
        have - used
    } else {
        0
    }
}

/// Index of a lowercase letter in the alphabet.
fn letter_index(b: u8) -> (i: usize)
    requires
        crate::word::is_lower(b),
    ensures
        i == b - 97,
        i < 26,
{
    (b - 97) as usize
}

/// Computes the feedback of `guess` against `target` in two passes: exact
/// matches first, then letters present elsewhere, each target letter being
/// used at most once.
pub fn simulate_results_code(guess: &Word, target: &Word) -> (code: PatternCode)
    ensures
        code == pattern_code(guess@, target@),
        code < 243,
{
    let ghost g = guess@;
    let ghost t = target@;
    let mut counts: [u8; 26] = [0u8; 26];
    let mut i: usize = 0;
    while i < 5
        invariant
            i <= 5,
            t == target@,
            forall|k: int|
                0 <= k < 26 ==> #[trigger] counts@[k] == count_in_target(
                    t,
                    (k + 97) as u8,
                    i as nat,
                ),
        decreases 5 - i,
    {
        let c = target.letter(i);
        let idx = letter_index(c);
        proof {
            lemma_count_split(g, t, c, i as nat);
        }
        counts[idx] = counts[idx] + 1;
        i += 1;
    }

    let mut state: [u8; 5] = [0u8; 5];
    let mut i: usize = 0;
    while i < 5
        invariant
            i <= 5,
            g == guess@,
            t == target@,
            forall|k: int|
                0 <= k < 26 ==> #[trigger] counts@[k] == count_in_target(t, (k + 97) as u8, 5)
                    - matched_count(g, t, (k + 97) as u8, i as nat),
            forall|j: int| 0 <= j < i ==> state@[j] == (if g[j] == t[j] { 2u8 } else { 0u8 }),
            forall|j: int| i <= j < 5 ==> state@[j] == 0,
        decreases 5 - i,
    {
        let gc = guess.letter(i);
        if gc == target.letter(i) {
            state[i] = 2;
            let idx = letter_index(gc);
            proof {
                lemma_matched_monotone(g, t, gc, (i + 1) as nat, 5);
                lemma_count_split(g, t, gc, 5);
            }
            counts[idx] = counts[idx] - 1;
        }
        i += 1;
    }

    proof {
        assert forall|k: int| 0 <= k < 26 implies #[trigger] counts@[k] == remaining(
            g,
            t,
            (k + 97) as u8,
            0,
        ) by {
            lemma_count_split(g, t, (k + 97) as u8, 5);
        }
    }
    let mut i: usize = 0;
    while i < 5
        invariant
            i <= 5,
            g == guess@,
            t == target@,
            forall|k: int|
                0 <= k < 26 ==> #[trigger] counts@[k] == remaining(g, t, (k + 97) as u8, i as nat),
            forall|j: int| 0 <= j < i ==> state@[j] == pattern_digit(g, t, j),
            forall|j: int| i <= j < 5 ==> state@[j] == (if g[j] == t[j] { 2u8 } else { 0u8 }),
        decreases 5 - i,
    {
        if state[i] == 0 {
            let gc = guess.letter(i);
            let idx = letter_index(gc);
            if counts[idx] > 0 {
                state[i] = 1;
                counts[idx] = counts[idx] - 1;
            }
        }
        i += 1;
    }

    let mut code: PatternCode = 0;
    let mut pow: PatternCode = 1;
    let mut i: usize = 0;
    while i < 5
        invariant
            i <= 5,
            forall|j: int| 0 <= j < 5 ==> 0 <= #[trigger] state@[j] <= 2,
            pow == (if i == 0 {
                1int
            } else if i == 1 {
                3
            } else if i == 2 {
                9
            } else if i == 3 {
                27
            } else if i == 4 {
                81
            } else {
                243
            }),
            code == pack_digits(
                if i > 0 { state@[0] as int } else { 0 },
                if i > 1 { state@[1] as int } else { 0 },
                if i > 2 { state@[2] as int } else { 0 },
                if i > 3 { state@[3] as int } else { 0 },
                if i > 4 { state@[4] as int } else { 0 },
            ),
        decreases 5 - i,
    {
        code = code + (state[i] as PatternCode) * pow;
        pow = pow * 3;
        i += 1;
    }
    code
}

/// The digit that a feedback letter stands for, if it is one of `B`, `Y`, `G`.
pub open spec fn letter_digit(c: char) -> Option<int> {
    if c == 'B' {
        Some(0)
    } else if c == 'Y' {
        Some(1)
    } else if c == 'G' {
        Some(2)
    } else {
        None
    }
}

/// The feedback letter of a digit.
pub open spec fn digit_letter(d: int) -> char {
    if d == 0 {
        'B'
    } else if d == 1 {
        'Y'
    } else {
        'G'
    }
}

/// `3^i` for the five positions.
pub open spec fn pow3(i: int) -> int {
    if i <= 0 {
        1
    } else if i == 1 {
        3
    } else if i == 2 {
        9
    } else if i == 3 {
        27
    } else {
        81
    }
}

/// The base-3 digit of `code` at position `i`.
pub open spec fn code_digit(code: int, i: int) -> int {
    (code / pow3(i)) % 3
}

/// Whether `s` is a feedback text: five letters out of `B`, `Y`, `G`.
pub open spec fn is_pattern_text(s: Seq<char>) -> bool {
    &&& s.len() == 5
    &&& forall|i: int| 0 <= i < 5 ==> letter_digit(#[trigger] s[i]) is Some
}

/// The code that a feedback text stands for; none for any other text.
pub open spec fn parse_code_spec(s: Seq<char>) -> Option<int> {
    if is_pattern_text(s) {
        Some(
            pack_digits(
                letter_digit(s[0])->0,
                letter_digit(s[1])->0,
                letter_digit(s[2])->0,
                letter_digit(s[3])->0,
                letter_digit(s[4])->0,
            ),
        )
    } else {
        None
    }
}

/// The feedback text of a code: one letter per base-3 digit, position 0
/// first.
pub open spec fn code_text(code: int) -> Seq<char> {
    Seq::new(5, |i: int| digit_letter(code_digit(code, i)))
}

/// Parsing the text of a code gives the code back.
pub proof fn lemma_code_round_trip(code: int)
    requires
        0 <= code < 243,
    ensures
        parse_code_spec(code_text(code)) == Some(code),
{
    let s = code_text(code);
    let c1 = code / 3;
    let c2 = c1 / 3;
    let c3 = c2 / 3;
    let c4 = c3 / 3;
    assert(code == 3 * c1 + code % 3);
    assert(c1 == 3 * c2 + c1 % 3);
    assert(c2 == 3 * c3 + c2 % 3);
    assert(c3 == 3 * c4 + c3 % 3);
    assert(c4 < 3);
    assert(code / 9 == c2);
    assert(code / 27 == c3);
    assert(code / 81 == c4);
    assert(code_digit(code, 0) == code % 3);
    assert(code_digit(code, 1) == c1 % 3);
    assert(code_digit(code, 2) == c2 % 3);
    assert(code_digit(code, 3) == c3 % 3);
    assert(code_digit(code, 4) == c4);
    assert(is_pattern_text(s));
    assert(letter_digit(s[0])->0 == code % 3);
    assert(letter_digit(s[1])->0 == c1 % 3);
    assert(letter_digit(s[2])->0 == c2 % 3);
    assert(letter_digit(s[3])->0 == c3 % 3);
    assert(letter_digit(s[4])->0 == c4);
}

/// Packing five base-3 digits and reading them back gives the digits.
pub proof fn lemma_pack_digits(d0: int, d1: int, d2: int, d3: int, d4: int)
    requires
        0 <= d0 < 3,
        0 <= d1 < 3,
        0 <= d2 < 3,
        0 <= d3 < 3,
        0 <= d4 < 3,
    ensures
        0 <= pack_digits(d0, d1, d2, d3, d4) < 243,
        code_digit(pack_digits(d0, d1, d2, d3, d4), 0) == d0,
        code_digit(pack_digits(d0, d1, d2, d3, d4), 1) == d1,
        code_digit(pack_digits(d0, d1, d2, d3, d4), 2) == d2,
        code_digit(pack_digits(d0, d1, d2, d3, d4), 3) == d3,
        code_digit(pack_digits(d0, d1, d2, d3, d4), 4) == d4,
{
    let code = pack_digits(d0, d1, d2, d3, d4);
    let c3 = d3 + 3 * d4;
    let c2 = d2 + 3 * c3;
    let c1 = d1 + 3 * c2;
    assert(code == d0 + 3 * c1);
    assert(code / 3 == c1 && code % 3 == d0);
    assert(code == (d0 + 3 * d1) + 9 * c2);
    assert(code / 9 == c2);
    assert(c2 % 3 == d2);
    assert(code == (d0 + 3 * d1 + 9 * d2) + 27 * c3);
    assert(code / 27 == c3);
    assert(c3 % 3 == d3);
    assert(code == (d0 + 3 * d1 + 9 * d2 + 27 * d3) + 81 * d4);
    assert(code / 81 == d4);
}

/// A parsed code is below `3^5`, and rendering it gives the text back.
pub proof fn lemma_text_round_trip(s: Seq<char>)
    requires
        is_pattern_text(s),
    ensures
        0 <= parse_code_spec(s)->0 < 243,
        code_text(parse_code_spec(s)->0) == s,
{
    let code = parse_code_spec(s)->0;
    lemma_pack_digits(
        letter_digit(s[0])->0,
        letter_digit(s[1])->0,
        letter_digit(s[2])->0,
        letter_digit(s[3])->0,
        letter_digit(s[4])->0,
    );
    assert(code_text(code) =~= s);
}

/// Reads a feedback text: exactly five letters out of `B` (absent),
/// `Y` (present elsewhere) and `G` (correct), position 0 first. Any other
/// text is rejected.
pub fn parse_results_code(results: &str) -> (r: Option<PatternCode>)
    ensures
        match r {
            Some(code) => parse_code_spec(results@) == Some(code as int) && code < 243,
            None => parse_code_spec(results@) is None,
        },
{
    let chars = chars_of(results);
    parse_results_chars(&chars)
}

/// Reads a feedback text given as characters.
pub fn parse_results_chars(chars: &Vec<char>) -> (r: Option<PatternCode>)
    ensures
        match r {
            Some(code) => parse_code_spec(chars@) == Some(code as int) && code < 243,
            None => parse_code_spec(chars@) is None,
        },
{
    if chars.len() != 5 {
        return None;
    }
    let mut code: PatternCode = 0;
    let mut pow: PatternCode = 1;
    let mut i: usize = 0;
    while i < 5
        invariant
            i <= 5,
            chars@.len() == 5,
            forall|j: int| 0 <= j < i ==> letter_digit(#[trigger] chars@[j]) is Some,
            pow == (if i == 5 {
                243
            } else {
                pow3(i as int)
            }),
            code == pack_digits(
                if i > 0 { letter_digit(chars@[0])->0 } else { 0 },
                if i > 1 { letter_digit(chars@[1])->0 } else { 0 },
                if i > 2 { letter_digit(chars@[2])->0 } else { 0 },
                if i > 3 { letter_digit(chars@[3])->0 } else { 0 },
                if i > 4 { letter_digit(chars@[4])->0 } else { 0 },
            ),
        decreases 5 - i,
    {
        let c = chars[i];
        let digit: PatternCode = if c == 'B' {
            0
        } else if c == 'Y' {
            1
        } else if c == 'G' {
            2
        } else {
            return None;
        };
        code = code + digit * pow;
        pow = pow * 3;
        i += 1;
    }
    Some(code)
}

/// Writes a code as feedback text, one letter per base-3 digit.
pub fn results_code_to_string(code: PatternCode) -> (s: String)
    ensures
        s@ == code_text(code as int),
{
    let mut s = String::new();
    let mut rest: PatternCode = code;
    let mut i: usize = 0;
    while i < 5
        invariant
            i <= 5,
            s@ == code_text(code as int).take(i as int),
            rest == (if i == 5 {
                code as int / 243
            } else {
                code as int / pow3(i as int)
            }),
        decreases 5 - i,
    {
        let digit = rest % 3;
        let c = if digit == 0 {
            'B'
        } else if digit == 1 {
            'Y'
        } else {
            'G'
        };
        s.push(c);
        rest = rest / 3;
        i += 1;
    }
    s
}

/// The feedback of `guess` against `target`.
pub fn simulate_results_pattern(guess: Word, target: Word) -> (code: PatternCode)
    ensures
        code == pattern_code(guess@, target@),
        code < 243,
{
    simulate_results_code(&guess, &target)
}

} // verus!
