//! Character-level helpers shared by the parsers.

use vstd::prelude::*;

verus! {

/// Whether `c` carries the Unicode `White_Space` property, the class that
/// trimming removes.
pub open spec fn is_white_space(c: char) -> bool {
    let u = c as u32;
    ||| 0x09 <= u <= 0x0d
    ||| u == 0x20
    ||| u == 0x85
    ||| u == 0xa0
    ||| u == 0x1680
    ||| 0x2000 <= u <= 0x200a
    ||| u == 0x2028
    ||| u == 0x2029
    ||| u == 0x202f
    ||| u == 0x205f
    ||| u == 0x3000
}

/// `s` without its leading white space.
pub open spec fn trim_start(s: Seq<char>) -> Seq<char>
    decreases s.len(),
{
    if s.len() > 0 && is_white_space(s[0]) {
        trim_start(s.drop_first())
    } else {
        s
    }
}

/// `s` without its trailing white space.
pub open spec fn trim_end(s: Seq<char>) -> Seq<char>
    decreases s.len(),
{
    if s.len() > 0 && is_white_space(s.last()) {
        trim_end(s.drop_last())
    } else {
        s
    }
}

/// `s` without leading and trailing white space.
pub open spec fn trim(s: Seq<char>) -> Seq<char> {
    trim_end(trim_start(s))
}

/// `String::push` of the standard library: the string afterwards is the
/// string before with `ch` appended. Taken from its documentation, not proved.
pub assume_specification[ String::push ](s: &mut String, ch: char)
    ensures
        final(s)@ == old(s)@.push(ch),
;

/// The characters of `s`, in order.
pub fn chars_of(s: &str) -> (v: Vec<char>)
    ensures
        v@ == s@,
{
    let mut v: Vec<char> = Vec::new();
    for c in it: s.chars()
        invariant
            it.seq() == s@,
            v@ == it.seq().take(it.index() as int),
    {
        v.push(c);
    }
    v
}

/// The character of a decimal digit.
pub open spec fn digit_char(d: int) -> char {
    (48 + d) as char
}

/// A number written in decimal, without leading zeros.
pub open spec fn decimal_text(n: nat) -> Seq<char>
    decreases n,
{
    if n < 10 {
        seq![digit_char(n as int)]
    } else {
        decimal_text(n / 10).push(digit_char((n % 10) as int))
    }
}

/// Appends `n` in decimal to `s`.
pub fn push_decimal(s: &mut String, n: usize)
    ensures
        final(s)@ == old(s)@ + decimal_text(n as nat),
    decreases n,
{
    if n >= 10 {
        push_decimal(s, n / 10);
    }
    let d: u8 = (n % 10) as u8;
    s.push((48 + d) as char);
    assert(s@ =~= old(s)@ + decimal_text(n as nat));
}

/// Tests a character for the `White_Space` property.
pub fn white_space(c: char) -> (r: bool)
    ensures
        r == is_white_space(c),
{
    let u: u32 = c as u32;
    (0x09 <= u && u <= 0x0d) || u == 0x20 || u == 0x85 || u == 0xa0 || u == 0x1680 || (0x2000 <= u
        && u <= 0x200a) || u == 0x2028 || u == 0x2029 || u == 0x202f || u == 0x205f || u == 0x3000
}

/// How many characters stand before the first white space of `s`; the
/// length of `s` if it holds none.
pub open spec fn token_end(s: Seq<char>) -> int
    decreases s.len(),
{
    if s.len() == 0 || is_white_space(s[0]) {
        0
    } else {
        1 + token_end(s.drop_first())
    }
}

/// The first run of characters of `s` that holds no white space; empty if
/// `s` is all white space.
pub open spec fn first_token(s: Seq<char>) -> Seq<char> {
    let t = trim_start(s);
    t.take(token_end(t))
}

/// What follows the first token of `s`.
pub open spec fn after_token(s: Seq<char>) -> Seq<char> {
    let t = trim_start(s);
    t.skip(token_end(t))
}

/// Whether `c` is a decimal digit.
pub open spec fn is_digit(c: char) -> bool {
    48 <= c as u32 <= 57
}

/// The number that a run of decimal digits writes.
pub open spec fn digits_value(s: Seq<char>) -> nat
    decreases s.len(),
{
    if s.len() == 0 {
        0
    } else {
        (digits_value(s.drop_last()) * 10 + (s.last() as u32 - 48)) as nat
    }
}

/// Whether `s` holds decimal digits only.
pub open spec fn all_digits(s: Seq<char>) -> bool {
    forall|i: int| 0 <= i < s.len() ==> is_digit(#[trigger] s[i])
}

/// `s` without the one `+` that may lead a count.
pub open spec fn without_plus(s: Seq<char>) -> Seq<char> {
    if s.len() > 0 && s[0] == '+' {
        s.skip(1)
    } else {
        s
    }
}

/// The count that a text writes: decimal digits, optionally after one `+`,
/// with a value that fits the machine word. Any other text writes none.
pub open spec fn parse_count_spec(s: Seq<char>) -> Option<nat> {
    let d = without_plus(s);
    if d.len() > 0 && all_digits(d) && digits_value(d) <= usize::MAX {
        Some(digits_value(d))
    } else {
        None
    }
}

/// A longer run of digits writes no smaller number than its beginning.
pub proof fn lemma_digits_value_grows(s: Seq<char>, k: int)
    requires
        0 <= k <= s.len(),
        all_digits(s),
    ensures
        digits_value(s.take(k)) <= digits_value(s),
    decreases s.len() - k,
{
    if k < s.len() {
        assert(s.take(k + 1).drop_last() =~= s.take(k));
        assert(is_digit(s[k]));
        assert(s.take(k + 1).last() == s[k]);
        lemma_digits_value_grows(s, k + 1);
    } else {
        assert(s.take(k) =~= s);
    }
}

/// Skips the white space at the start of `chars[lo..hi]`.
pub fn skip_white(chars: &Vec<char>, lo: usize, hi: usize) -> (a: usize)
    requires
        lo <= hi <= chars.len(),
    ensures
        lo <= a <= hi,
        chars@.subrange(a as int, hi as int) == trim_start(chars@.subrange(lo as int, hi as int)),
{
    let mut a: usize = lo;
    while a < hi && white_space(chars[a])
        invariant
            lo <= a <= hi <= chars.len(),
            trim_start(chars@.subrange(lo as int, hi as int)) == trim_start(
                chars@.subrange(a as int, hi as int),
            ),
        decreases hi - a,
    {
        assert(chars@.subrange(a as int, hi as int).drop_first() =~= chars@.subrange(
            a + 1,
            hi as int,
        ));
        a += 1;
    }
    a
}

/// Finds where the token that starts `chars[lo..hi]` stops.
pub fn token_stop(chars: &Vec<char>, lo: usize, hi: usize) -> (b: usize)
    requires
        lo <= hi <= chars.len(),
    ensures
        lo <= b <= hi,
        b - lo == token_end(chars@.subrange(lo as int, hi as int)),
{
    let mut b: usize = lo;
    while b < hi && !white_space(chars[b])
        invariant
            lo <= b <= hi <= chars.len(),
            token_end(chars@.subrange(lo as int, hi as int)) == (b - lo) + token_end(
                chars@.subrange(b as int, hi as int),
            ),
        decreases hi - b,
    {
        assert(chars@.subrange(b as int, hi as int).drop_first() =~= chars@.subrange(
            b + 1,
            hi as int,
        ));
        b += 1;
    }
    b
}

/// Reads `chars[lo..hi]` as a count.
pub fn parse_count(chars: &Vec<char>, lo: usize, hi: usize) -> (r: Option<usize>)
    requires
        lo <= hi <= chars.len(),
    ensures
        match r {
            Some(n) => parse_count_spec(chars@.subrange(lo as int, hi as int)) == Some(n as nat),
            None => parse_count_spec(chars@.subrange(lo as int, hi as int)) is None,
        },
{
    let ghost s = chars@.subrange(lo as int, hi as int);
    let start: usize = if lo < hi && chars[lo] == '+' {
        lo + 1
    } else {
        lo
    };
    let ghost d = chars@.subrange(start as int, hi as int);
    proof {
        if start > lo {
            assert(s[0] == chars@[lo as int]);
            assert(s.skip(1) =~= d);
        } else {
            if s.len() > 0 {
                assert(s[0] == chars@[lo as int]);
            }
            assert(s =~= d);
        }
    }
    if start == hi {
        return None;
    }
    let mut value: usize = 0;
    let mut i: usize = start;
    assert(d.take(0) =~= Seq::<char>::empty());
    while i < hi
        invariant
            lo <= start <= i <= hi <= chars.len(),
            start < hi,
            s == chars@.subrange(lo as int, hi as int),
            d == chars@.subrange(start as int, hi as int),
            d == without_plus(s),
            forall|j: int| 0 <= j < i - start ==> is_digit(#[trigger] d[j]),
            value == digits_value(d.take(i - start)),
        decreases hi - i,
    {
        let u: u32 = chars[i] as u32;
        assert(d[i - start] == chars@[i as int]);
        if !(48 <= u && u <= 57) {
            assert(!is_digit(d[i - start]));
            return None;
        }
        proof {
            assert(d.take(i - start + 1).drop_last() =~= d.take(i - start));
            assert(d.take(i - start + 1).last() == d[i - start]);
        }
        let digit: usize = (u - 48) as usize;
        let next = match value.checked_mul(10) {
            Some(v) => v.checked_add(digit),
            None => None,
        };
        match next {
            Some(v) => {
                value = v;
            },
            None => {
                proof {
                    if all_digits(d) {
                        lemma_digits_value_grows(d, i - start + 1);
                    }
                }
                return None;
            },
        }
        i += 1;
    }
    assert(d.take(i - start) =~= d);
    Some(value)
}

/// Whether `chars[lo..hi]` spells `word`.
pub fn range_is(chars: &Vec<char>, lo: usize, hi: usize, word: &str) -> (r: bool)
    requires
        lo <= hi <= chars.len(),
    ensures
        r == (chars@.subrange(lo as int, hi as int) == word@),
{
    let other = chars_of(word);
    if other.len() != hi - lo {
        return false;
    }
    let mut i: usize = 0;
    while i < other.len()
        invariant
            i <= other@.len(),
            other@.len() == hi - lo,
            other@ == word@,
            lo <= hi <= chars.len(),
            forall|j: int| 0 <= j < i ==> chars@[lo + j] == other@[j],
        decreases other@.len() - i,
    {
        if chars[lo + i] != other[i] {
            assert(chars@.subrange(lo as int, hi as int)[i as int] != other@[i as int]);
            return false;
        }
        i += 1;
    }
    assert(chars@.subrange(lo as int, hi as int) =~= other@);
    true
}

/// Finds the part of `chars[lo..hi]` that trimming keeps.
pub fn trim_range(chars: &Vec<char>, lo: usize, hi: usize) -> (r: (usize, usize))
    requires
        lo <= hi <= chars.len(),
    ensures
        lo <= r.0 <= r.1 <= hi,
        chars@.subrange(r.0 as int, r.1 as int) == trim(chars@.subrange(lo as int, hi as int)),
{
    let a = skip_white(chars, lo, hi);
    let mut b: usize = hi;
    while a < b && white_space(chars[b - 1])
        invariant
            a <= b <= hi <= chars.len(),
            trim_end(chars@.subrange(a as int, hi as int)) == trim_end(
                chars@.subrange(a as int, b as int),
            ),
        decreases b - a,
    {
        assert(chars@.subrange(a as int, b as int).drop_last() =~= chars@.subrange(
            a as int,
            b - 1,
        ));
        b -= 1;
    }
    (a, b)
}

} // verus!
