//! The pattern table: the feedback of every guess against every target,
//! computed once per vocabulary.

use crate::oracle::{pattern_code, simulate_results_code};
use crate::word::Word;
use rayon::iter::{IndexedParallelIterator, ParallelIterator};
use rayon::slice::ParallelSliceMut;
use vstd::prelude::*;

verus! {

/// The row of guess `g`: its feedback against each word of the vocabulary,
/// in vocabulary order.
pub open spec fn row_codes(words: Seq<Word>, g: int) -> Seq<u8> {
    Seq::new(words.len(), |t: int| pattern_code(words[g]@, words[t]@) as u8)
}

/// The entry of a row-major table of width `n` at row `g`, column `t`.
pub open spec fn table_entry(table: Seq<u8>, n: int, g: int, t: int) -> u8 {
    table[g * n + t]
}

/// Whether `table` is the pattern table of `words`: dense, row-major, the
/// entry at row `g` and column `t` being the feedback of word `g` against
/// word `t`.
pub open spec fn is_pattern_table(words: Seq<Word>, table: Seq<u8>) -> bool {
    &&& table.len() == words.len() * words.len()
    &&& forall|g: int, t: int|
        0 <= g < words.len() && 0 <= t < words.len() ==> #[trigger] table_entry(
            table,
            words.len() as int,
            g,
            t,
        ) == pattern_code(words[g]@, words[t]@)
}

/// Row `g` of a table of width `n` lies inside a table of `n * n` entries.
pub proof fn lemma_row_bounds(n: int, g: int)
    requires
        0 <= g < n,
    ensures
        0 <= g * n,
        g * n + n <= n * n,
{
    assert(0 <= g * n && g * n + n <= n * n) by (nonlinear_arith)
        requires
            0 <= g < n,
    ;
}

/// Fills one row: the feedback of word `guess_idx` against every word.
pub fn fill_row(words: &Vec<Word>, guess_idx: usize, row: &mut [u8])
    requires
        guess_idx < words.len(),
        old(row)@.len() == words.len(),
    ensures
        final(row)@ == row_codes(words@, guess_idx as int),
{
    let n = words.len();
    let guess = words[guess_idx];
    let mut t: usize = 0;
    while t < n
        invariant
            t <= n,
            n == words.len(),
            row@.len() == n,
            guess_idx < n,
            guess == words@[guess_idx as int],
            forall|j: int| 0 <= j < t ==> row@[j] == row_codes(words@, guess_idx as int)[j],
        decreases n - t,
    {
        let code = simulate_results_code(&guess, &words[t]);
        row[t] = code as u8;
        t += 1;
    }
    assert(row@ =~= row_codes(words@, guess_idx as int));
}

/// Hands the rows of `table` to rayon: `par_chunks_mut(n)` cuts the table
/// into consecutive pieces of `n` entries that do not overlap, `enumerate`
/// numbers them from 0, and `for_each` runs `fill_row` once on every piece
/// with its number. The contract claims exactly that: afterwards piece `g`
/// holds what `fill_row` leaves for row `g`.
#[verifier::external_body]
fn fill_rows(table: &mut Vec<u8>, words: &Vec<Word>)
    requires
        words.len() > 0,
        old(table)@.len() == words.len() * words.len(),
    ensures
        final(table)@.len() == old(table)@.len(),
        forall|g: int|
            0 <= g < words.len() ==> #[trigger] final(table)@.subrange(
                g * words.len(),
                g * words.len() + words.len(),
            ) == row_codes(words@, g),
{
    let n = words.len();
    table.par_chunks_mut(n).enumerate().for_each(|(guess_idx, row)| fill_row(words, guess_idx, row));
}

/// Builds the pattern table of a vocabulary: one oracle evaluation per
/// ordered pair of words.
pub fn build_pattern_matrix(words: &Vec<Word>) -> (table: Vec<u8>)
    requires
        words.len() * words.len() <= usize::MAX,
    ensures
        is_pattern_table(words@, table@),
{
    let n = words.len();
    if n == 0 {
        assert(words@.len() * words@.len() == 0) by (nonlinear_arith)
            requires
                words@.len() == 0,
        ;
        return Vec::new();
    }
    assert(n * n <= usize::MAX);
    let mut table: Vec<u8> = vec![0u8; n * n];
    fill_rows(&mut table, words);
    proof {
        assert forall|g: int, t: int| 0 <= g < n && 0 <= t < n implies #[trigger] table_entry(
            table@,
            n as int,
            g,
            t,
        ) == pattern_code(words@[g]@, words@[t]@) by {
            lemma_row_bounds(n as int, g);
            let row = table@.subrange(g * n, g * n + n);
            assert(row == row_codes(words@, g));
            assert(row[t] == table@[g * n + t]);
            crate::oracle::lemma_pattern_code_range(words@[g]@, words@[t]@);
        }
    }
    table
}

} // verus!
