//! Five-letter words over lowercase ASCII.

use crate::text::{chars_of, trim, trim_range};
use vstd::prelude::*;

verus! {

/// Whether `b` is an ASCII lowercase letter.
pub open spec fn is_lower(b: u8) -> bool {
    97 <= b <= 122
}

/// Whether `s` is the letter sequence of a well-formed word.
pub open spec fn is_word(s: Seq<u8>) -> bool {
    &&& s.len() == 5
    &&& forall|i: int| 0 <= i < 5 ==> is_lower(#[trigger] s[i])
}

/// Whether `c` is an ASCII letter of either case.
pub open spec fn is_ascii_letter(c: char) -> bool {
    let u = c as u32;
    (97 <= u <= 122) || (65 <= u <= 90)
}

/// The lowercase byte of an ASCII letter.
pub open spec fn lower_byte(c: char) -> u8 {
    let u = c as u32;
    if 65 <= u <= 90 {
        (u + 32) as u8
    } else {
        u as u8
    }
}

/// What a line of text parses to: its trimmed form must be exactly five
/// ASCII letters, which are then lowercased.
pub open spec fn parse_word_spec(line: Seq<char>) -> Option<Seq<u8>> {
    let t = trim(line);
    if t.len() == 5 && (forall|i: int| 0 <= i < 5 ==> is_ascii_letter(#[trigger] t[i])) {
        Some(Seq::new(5, |i: int| lower_byte(t[i])))
    } else {
        None
    }
}

/// The text of a word: one character per letter.
pub open spec fn word_text(w: Seq<u8>) -> Seq<char> {
    Seq::new(w.len(), |i: int| w[i] as char)
}

/// The letters of a word read as one big-endian number, so that numeric
/// order on keys is dictionary order on words.
pub open spec fn word_key(w: Seq<u8>) -> int {
    w[0] * 0x1_0000_0000 + w[1] * 0x100_0000 + w[2] * 0x1_0000 + w[3] * 0x100 + w[4]
}

/// Dictionary order on letter sequences of length five.
pub open spec fn lex_lt(a: Seq<u8>, b: Seq<u8>) -> bool {
    exists|k: int|
        0 <= k < 5 && #[trigger] a[k] < b[k] && (forall|j: int| 0 <= j < k ==> a[j] == b[j])
}

/// A word of exactly five lowercase ASCII letters.
#[derive(Clone, Copy, Debug, Eq, Hash, PartialOrd, Ord)]
pub struct Word {
    letters: [u8; 5],
}

impl View for Word {
    type V = Seq<u8>;

    closed spec fn view(&self) -> Seq<u8> {
        self.letters@
    }
}

impl PartialEq for Word {
    fn eq(&self, other: &Word) -> (r: bool) {
        let mut i: usize = 0;
        while i < 5
            invariant
                i <= 5,
                forall|j: int| 0 <= j < i ==> self.letters@[j] == other.letters@[j],
            decreases 5 - i,
        {
            if self.letters[i] != other.letters[i] {
                return false;
            }
            i += 1;
        }
        assert(self.letters =~= other.letters);
        true
    }
}

impl vstd::std_specs::cmp::PartialEqSpecImpl for Word {
    open spec fn obeys_eq_spec() -> bool {
        true
    }

    open spec fn eq_spec(&self, other: &Word) -> bool {
        *self == *other
    }
}

impl Word {
    #[verifier::type_invariant]
    closed spec fn well_formed(self) -> bool {
        is_word(self.letters@)
    }

    /// The letter at position `i`.
    pub fn letter(&self, i: usize) -> (b: u8)
        requires
            i < 5,
        ensures
            b == self@[i as int],
            is_lower(b),
    {
        proof {
            use_type_invariant(self);
        }
        self.letters[i]
    }

    /// The word as text.
    pub fn to_string(&self) -> (s: String)
        ensures
            s@ == word_text(self@),
    {
        let mut s = String::new();
        let mut i: usize = 0;
        while i < 5
            invariant
                i <= 5,
                s@ == word_text(self@).take(i as int),
            decreases 5 - i,
        {
            s.push(self.letters[i] as char);
            i += 1;
        }
        s
    }

    /// The word's key: equal keys mean equal words, and a smaller key means
    /// an earlier word in dictionary order.
    pub fn key(&self) -> (k: u64)
        ensures
            k == word_key(self@),
    {
        let l = &self.letters;
        (l[0] as u64) * 0x1_0000_0000 + (l[1] as u64) * 0x100_0000 + (l[2] as u64) * 0x1_0000 + (
        l[3] as u64) * 0x100 + (l[4] as u64)
    }
}

/// Each letter can be read back from the key.
pub proof fn lemma_key_letters(w: Seq<u8>)
    requires
        w.len() == 5,
    ensures
        w[4] == word_key(w) % 0x100,
        w[3] == (word_key(w) / 0x100) % 0x100,
        w[2] == (word_key(w) / 0x1_0000) % 0x100,
        w[1] == (word_key(w) / 0x100_0000) % 0x100,
        w[0] == word_key(w) / 0x1_0000_0000,
        0 <= word_key(w) < 0x100_0000_0000,
{
    let k = word_key(w);
    let k3 = w[0] * 0x100_0000 + w[1] * 0x1_0000 + w[2] * 0x100 + w[3];
    let k2 = w[0] * 0x1_0000 + w[1] * 0x100 + w[2];
    let k1 = w[0] * 0x100 + w[1];
    assert(k == k3 * 0x100 + w[4]);
    assert(k / 0x100 == k3 && k % 0x100 == w[4]);
    assert(k3 == k2 * 0x100 + w[3]);
    assert(k3 / 0x100 == k2 && k3 % 0x100 == w[3]);
    assert(k2 == k1 * 0x100 + w[2]);
    assert(k2 / 0x100 == k1 && k2 % 0x100 == w[2]);
    assert(k1 / 0x100 == w[0] && k1 % 0x100 == w[1]);
    assert(k / 0x1_0000 == k2);
    assert(k / 0x100_0000 == k1);
    assert(k / 0x1_0000_0000 == w[0] as int);
}

/// Words with the same key have the same letters.
pub proof fn lemma_key_injective(a: Seq<u8>, b: Seq<u8>)
    requires
        a.len() == 5,
        b.len() == 5,
        word_key(a) == word_key(b),
    ensures
        a == b,
{
    lemma_key_letters(a);
    lemma_key_letters(b);
    assert(a =~= b);
}

/// Numeric order on keys is dictionary order on letters.
pub proof fn lemma_key_order(a: Seq<u8>, b: Seq<u8>)
    requires
        a.len() == 5,
        b.len() == 5,
    ensures
        word_key(a) < word_key(b) <==> lex_lt(a, b),
{
    if word_key(a) < word_key(b) {
        let k: int = if a[0] != b[0] {
            0
        } else if a[1] != b[1] {
            1
        } else if a[2] != b[2] {
            2
        } else if a[3] != b[3] {
            3
        } else {
            4
        };
        assert(a[k] < b[k]);
    }
    if lex_lt(a, b) {
        let k = choose|k: int|
            0 <= k < 5 && #[trigger] a[k] < b[k] && (forall|j: int| 0 <= j < k ==> a[j] == b[j]);
        assert(forall|j: int| 0 <= j < k ==> a[j] == b[j]);
    }
}

/// Rendering a word and parsing the text gives the word back.
pub proof fn lemma_parse_render(w: Seq<u8>)
    requires
        is_word(w),
    ensures
        parse_word_spec(word_text(w)) == Some(w),
{
    let s = word_text(w);
    assert(!crate::text::is_white_space(s[0])) by {
        assert(is_lower(w[0]));
    }
    assert(!crate::text::is_white_space(s.last())) by {
        assert(is_lower(w[4]));
    }
    assert(trim(s) == s);
    assert forall|i: int| 0 <= i < 5 implies is_ascii_letter(#[trigger] s[i]) by {
        assert(is_lower(w[i]));
    }
    assert(Seq::new(5, |i: int| lower_byte(s[i])) =~= w) by {
        assert forall|i: int| 0 <= i < 5 implies lower_byte(s[i]) == w[i] by {
            assert(is_lower(w[i]));
        }
    }
}

/// Every word has five letters.
pub broadcast proof fn lemma_word_len(w: Word)
    ensures
        #[trigger] w@.len() == 5,
{
}

/// Two words are equal exactly when their letters are.
pub proof fn lemma_word_view_injective(a: Word, b: Word)
    ensures
        (a@ == b@) <==> (a == b),
{
    if a@ == b@ {
        assert(a.letters =~= b.letters);
    }
}

/// Parses `chars[lo..hi]` as a word.
pub fn parse_word_chars(chars: &Vec<char>, lo: usize, hi: usize) -> (r: Option<Word>)
    requires
        lo <= hi <= chars.len(),
    ensures
        match r {
            Some(w) => parse_word_spec(chars@.subrange(lo as int, hi as int)) == Some(w@),
            None => parse_word_spec(chars@.subrange(lo as int, hi as int)) is None,
        },
{
    let (a, b) = trim_range(chars, lo, hi);
    let ghost t = chars@.subrange(a as int, b as int);
    if b - a != 5 {
        return None;
    }
    let mut letters: [u8; 5] = [0u8; 5];
    let mut i: usize = 0;
    while i < 5
        invariant
            i <= 5,
            b - a == 5,
            b <= chars.len(),
            t == chars@.subrange(a as int, b as int),
            t == trim(chars@.subrange(lo as int, hi as int)),
            forall|j: int| 0 <= j < i ==> is_ascii_letter(#[trigger] t[j]),
            forall|j: int| 0 <= j < i ==> letters@[j] == lower_byte(t[j]),
        decreases 5 - i,
    {
        let u: u32 = chars[a + i] as u32;
        assert(t[i as int] == chars@[a + i]);
        if 97 <= u && u <= 122 {
            letters[i] = u as u8;
        } else if 65 <= u && u <= 90 {
            letters[i] = (u + 32) as u8;
        } else {
            return None;
        }
        i += 1;
    }
    assert(letters@ =~= Seq::new(5, |i: int| lower_byte(t[i])));
    Some(Word { letters })
}

/// Parses a line of text as a word: surrounding white space is ignored,
/// letters of either case are accepted and stored in lowercase, and
/// anything else is rejected.
pub fn parse_word5(line: &str) -> (r: Option<Word>)
    ensures
        match r {
            Some(w) => parse_word_spec(line@) == Some(w@),
            None => parse_word_spec(line@) is None,
        },
{
    let chars = chars_of(line);
    assert(chars@.subrange(0, chars@.len() as int) =~= chars@);
    parse_word_chars(&chars, 0, chars.len())
}

} // verus!
