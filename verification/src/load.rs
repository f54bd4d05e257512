//! Reading a vocabulary from the text of a word list.

use crate::text::{chars_of, decimal_text, push_decimal};
use crate::word::{lemma_key_injective, parse_word_chars, parse_word_spec, word_key, Word};
use std::collections::HashSet;
use vstd::prelude::*;
use vstd::string::StringExecFns;

verus! {

broadcast use vstd::std_specs::hash::group_hash_axioms;

/// Why a word list could not be used.
#[derive(Clone, Copy, Debug, PartialEq, Eq, Structural)]
pub enum LoadError {
    /// The line with this number, counting from 1, is not a word.
    InvalidLine(usize),
    /// The list holds no word at all.
    Empty,
    /// The list holds more words than a pattern table can be built for.
    TooLarge,
}

/// The text of each failure; the line number stands in decimal between the
/// two parts of the first.
pub open spec fn load_error_text(e: LoadError) -> Seq<char> {
    match e {
        LoadError::InvalidLine(n) => "Invalid word at line "@ + decimal_text(n as nat)
            + ": expected exactly 5 ASCII letters"@,
        LoadError::Empty => "Word list is empty after validation"@,
        LoadError::TooLarge => "Word list is too large for a pattern table"@,
    }
}

impl LoadError {
    /// The failure in words.
    pub fn message(&self) -> (s: String)
        ensures
            s@ == load_error_text(*self),
    {
        match self {
            LoadError::InvalidLine(n) => {
                let mut s = String::from_str("Invalid word at line ");
                push_decimal(&mut s, *n);
                s.append(": expected exactly 5 ASCII letters");
                s
            },
            LoadError::Empty => String::from_str("Word list is empty after validation"),
            LoadError::TooLarge => String::from_str("Word list is too large for a pattern table"),
        }
    }
}

/// How many characters stand before the first line feed of `s`; the length
/// of `s` if it holds none.
pub open spec fn first_newline(s: Seq<char>) -> int
    decreases s.len(),
{
    if s.len() == 0 || s[0] == '\n' {
        0
    } else {
        1 + first_newline(s.drop_first())
    }
}

/// The lines of a text. A line ends at a line feed or at the end of the
/// text; a line feed at the very end starts no further line.
pub open spec fn lines_of(s: Seq<char>) -> Seq<Seq<char>>
    decreases s.len(),
{
    if s.len() == 0 {
        Seq::empty()
    } else {
        let k = first_newline(s);
        if 0 <= k < s.len() {
            seq![s.take(k)] + lines_of(s.skip(k + 1))
        } else {
            seq![s]
        }
    }
}

/// The words that the lines parse to, each kept where it first occurs.
pub open spec fn distinct_words(lines: Seq<Seq<char>>) -> Seq<Seq<u8>>
    decreases lines.len(),
{
    if lines.len() == 0 {
        Seq::empty()
    } else {
        let rest = distinct_words(lines.drop_last());
        match parse_word_spec(lines.last()) {
            Some(w) => if rest.contains(w) {
                rest
            } else {
                rest.push(w)
            },
            None => rest,
        }
    }
}

/// The letters of each word of a list.
pub open spec fn letters_of(words: Seq<Word>) -> Seq<Seq<u8>> {
    words.map_values(|w: Word| w@)
}

/// Whether `words` is the vocabulary that `text` holds: every line is a
/// word, there is at least one, and `words` are the distinct ones in order
/// of first occurrence.
pub open spec fn is_vocabulary_of(text: Seq<char>, words: Seq<Word>) -> bool {
    let lines = lines_of(text);
    &&& lines.len() > 0
    &&& forall|i: int| 0 <= i < lines.len() ==> parse_word_spec(#[trigger] lines[i]) is Some
    &&& letters_of(words) == distinct_words(lines)
    &&& words.len() > 0
}

/// Whether `text` fails to hold a vocabulary for the reason `e`.
pub open spec fn fails_to_load(text: Seq<char>, e: LoadError) -> bool {
    let lines = lines_of(text);
    match e {
        LoadError::InvalidLine(n) => {
            &&& 1 <= n <= lines.len()
            &&& parse_word_spec(lines[n - 1]) is None
            &&& forall|i: int| 0 <= i < n - 1 ==> parse_word_spec(#[trigger] lines[i]) is Some
        },
        LoadError::Empty => lines.len() == 0,
        LoadError::TooLarge => false,
    }
}

/// The first line feed is found where a scan from the left first meets one.
proof fn lemma_first_newline_is(s: Seq<char>, k: int)
    requires
        0 <= k <= s.len(),
        forall|j: int| 0 <= j < k ==> s[j] != '\n',
        k < s.len() ==> s[k] == '\n',
    ensures
        first_newline(s) == k,
    decreases s.len(),
{
    if !(s.len() == 0 || s[0] == '\n') {
        let rest = s.drop_first();
        assert forall|j: int| 0 <= j < k - 1 implies rest[j] != '\n' by {
            assert(rest[j] == s[j + 1]);
        }
        lemma_first_newline_is(rest, k - 1);
    }
}

/// Reads a vocabulary from the text of a word list, one word per line.
/// Every line must be a word once trimmed; the first that is not is
/// reported by its number. Words that occurred before are dropped, the
/// others keep their order. A list without words is refused.
pub fn load_word_list(text: &str) -> (r: Result<Vec<Word>, LoadError>)
    ensures
        match r {
            Ok(words) => is_vocabulary_of(text@, words@),
            Err(e) => fails_to_load(text@, e),
        },
{
    let chars = chars_of(text);
    let len = chars.len();
    let ghost s = chars@;
    let mut seen: HashSet<u64> = HashSet::new();
    let mut words: Vec<Word> = Vec::new();
    let ghost mut done: Seq<Seq<char>> = Seq::empty();
    let mut start: usize = 0;
    let mut line_no: usize = 0;
    assert(s.skip(0) =~= s);
    while start < len
        invariant
            start <= len,
            len == chars@.len(),
            s == chars@,
            s == text@,
            lines_of(s) == done + lines_of(s.skip(start as int)),
            line_no == done.len(),
            line_no <= start,
            forall|i: int| 0 <= i < done.len() ==> parse_word_spec(#[trigger] done[i]) is Some,
            letters_of(words@) == distinct_words(done),
            done.len() > 0 ==> words@.len() > 0,
            forall|k: u64|
                seen@.contains(k) <==> exists|j: int|
                    0 <= j < words@.len() && #[trigger] word_key(words@[j]@) == k,
        decreases len - start,
    {
        let mut end: usize = start;
        while end < len && chars[end] != '\n'
            invariant
                start <= end <= len,
                len == chars@.len(),
                forall|j: int| start <= j < end ==> chars@[j] != '\n',
            decreases len - end,
        {
            end += 1;
        }
        let ghost rest = s.skip(start as int);
        let ghost line = s.subrange(start as int, end as int);
        proof {
            lemma_first_newline_is(rest, end - start);
            assert(rest.take(end - start) =~= line);
            if end < len {
                assert(rest.skip(end - start + 1) =~= s.skip(end + 1));
            } else {
                assert(rest =~= line);
                assert(s.skip(len as int).len() == 0);
            }
            assert(lines_of(rest) == seq![line] + lines_of(
                s.skip(if end < len { end + 1 } else { len as int }),
            ));
            assert(done + (seq![line] + lines_of(
                s.skip(if end < len { end + 1 } else { len as int }),
            )) =~= done.push(line) + lines_of(
                s.skip(if end < len { end + 1 } else { len as int }),
            ));
            assert(done.push(line).drop_last() =~= done);
        }
        line_no = line_no + 1;
        match parse_word_chars(&chars, start, end) {
            None => {
                proof {
                    let all = lines_of(s);
                    assert(all[line_no - 1] == line);
                    assert forall|i: int| 0 <= i < line_no - 1 implies parse_word_spec(
                        #[trigger] all[i],
                    ) is Some by {
                        assert(all[i] == done[i]);
                    }
                }
                return Err(LoadError::InvalidLine(line_no));
            },
            Some(word) => {
                let k = word.key();
                proof {
                    broadcast use crate::word::lemma_word_len;

                    let views = letters_of(words@);
                    if seen@.contains(k) {
                        let j = choose|j: int|
                            0 <= j < words@.len() && #[trigger] word_key(words@[j]@) == k;
                        lemma_key_injective(words@[j]@, word@);
                        assert(views[j] == word@);
                    } else {
                        assert forall|j: int| 0 <= j < views.len() implies views[j] != word@ by {
                            assert(word_key(words@[j]@) != k);
                        }
                    }
                    assert(letters_of(words@.push(word)) =~= views.push(word@));
                }
                let ghost old_words = words@;
                let ghost old_seen = seen@;
                let fresh = seen.insert(k);
                if fresh {
                    words.push(word);
                }
                proof {
                    assert forall|kk: u64| seen@.contains(kk) implies exists|j: int|
                        0 <= j < words@.len() && #[trigger] word_key(words@[j]@) == kk by {
                        if kk == k && fresh {
                            assert(word_key(words@[old_words.len() as int]@) == kk);
                        } else {
                            assert(old_seen.contains(kk));
                            let j = choose|j: int|
                                0 <= j < old_words.len() && #[trigger] word_key(old_words[j]@)
                                    == kk;
                            assert(word_key(words@[j]@) == kk);
                        }
                    }
                    assert forall|kk: u64|
                        (exists|j: int|
                            0 <= j < words@.len() && #[trigger] word_key(words@[j]@)
                                == kk) implies seen@.contains(kk) by {
                        let j = choose|j: int|
                            0 <= j < words@.len() && #[trigger] word_key(words@[j]@) == kk;
                        if j < old_words.len() {
                            assert(word_key(old_words[j]@) == kk);
                        }
                    }
                }
            },
        }
        proof {
            done = done.push(line);
        }
        start = if end < len {
            end + 1
        } else {
            len
        };
    }
    proof {
        assert(lines_of(s.skip(len as int)) =~= Seq::<Seq<char>>::empty());
        assert(lines_of(s) =~= done);
    }
    if words.len() == 0 {
        return Err(LoadError::Empty);
    }
    Ok(words)
}

} // verus!
