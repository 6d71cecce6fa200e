//! Reading a row of leaf scores from a line of text.
use vstd::prelude::*;
use crate::printer::{decimal, decimal_digits};

verus! {

/// Why a line could not be read: the word at this place (counting the words
/// of the line from 0) is not a decimal integer that fits a score.
#[derive(PartialEq, Eq, Debug, Clone, Copy)]
pub struct InputParseError {
    pub word: usize,
}

/// White space: the characters that Unicode classes as `White_Space`.
pub open spec fn is_space(c: char) -> bool {
    let u = c as u32;
    ||| 0x09 <= u <= 0x0D
    ||| u == 0x20
    ||| u == 0x85
    ||| u == 0xA0
    ||| u == 0x1680
    ||| 0x2000 <= u <= 0x200A
    ||| u == 0x2028
    ||| u == 0x2029
    ||| u == 0x202F
    ||| u == 0x205F
    ||| u == 0x3000
}

/// The length of the run of characters other than white space that `s`
/// starts with.
pub open spec fn word_len(s: Seq<char>) -> nat
    decreases s.len(),
{
    if s.len() == 0 || is_space(s[0]) {
        0
    } else {
        1 + word_len(s.drop_first())
    }
}

/// A word is no longer than the text it starts.
pub proof fn lemma_word_len_bound(s: Seq<char>)
    ensures
        word_len(s) <= s.len(),
    decreases s.len(),
{
    if s.len() > 0 && !is_space(s[0]) {
        lemma_word_len_bound(s.drop_first());
    }
}

/// The words of a text: its longest runs of characters other than white
/// space, in order.
pub open spec fn words(s: Seq<char>) -> Seq<Seq<char>>
    decreases s.len(),
{
    if s.len() == 0 {
        Seq::empty()
    } else if is_space(s[0]) {
        words(s.drop_first())
    } else {
        proof {
            lemma_word_len_bound(s);
        }
        seq![s.take(word_len(s) as int)] + words(s.skip(word_len(s) as int))
    }
}

/// Tells whether `c` is white space.
pub fn space(c: char) -> (b: bool)
    ensures
        b == is_space(c),
{
    let u: u32 = c as u32;
    (0x09 <= u && u <= 0x0D) || u == 0x20 || u == 0x85 || u == 0xA0 || u == 0x1680 || (0x2000 <= u
        && u <= 0x200A) || u == 0x2028 || u == 0x2029 || u == 0x202F || u == 0x205F || u == 0x3000
}

/// A decimal digit, `0` to `9`.
pub open spec fn is_digit(c: char) -> bool {
    0x30 <= c as u32 <= 0x39
}

/// The number that a decimal digit stands for.
pub open spec fn digit_value(c: char) -> int {
    c as u32 - 0x30
}

/// Every character of `s` is a decimal digit.
pub open spec fn all_digits(s: Seq<char>) -> bool {
    forall|i: int| 0 <= i < s.len() ==> is_digit(#[trigger] s[i])
}

/// The number that a row of decimal digits stands for, the first digit
/// being the most significant.
pub open spec fn digits_value(s: Seq<char>) -> int
    decreases s.len(),
{
    if s.len() == 0 {
        0
    } else {
        10 * digits_value(s.drop_last()) + digit_value(s.last())
    }
}

/// The word starts with a plus or a minus sign.
pub open spec fn has_sign(w: Seq<char>) -> bool {
    w.len() > 0 && (w[0] == '+' || w[0] == '-')
}

/// The score that a word stands for, if it stands for one: an optional sign,
/// then one decimal digit or more and nothing else, the whole within the
/// range of `i32`.
pub open spec fn number(w: Seq<char>) -> Option<int> {
    let digits = if has_sign(w) {
        w.drop_first()
    } else {
        w
    };
    if digits.len() == 0 || !all_digits(digits) {
        None
    } else {
        let value = if w[0] == '-' {
            -digits_value(digits)
        } else {
            digits_value(digits)
        };
        if i32::MIN <= value <= i32::MAX {
            Some(value)
        } else {
            None
        }
    }
}

/// The views of a row of vectors.
pub open spec fn views(found: Seq<Vec<char>>) -> Seq<Seq<char>> {
    Seq::new(found.len(), |i: int| found[i]@)
}

/// A row of digits stands for no less than any of its beginnings.
proof fn lemma_digits_value_grows(s: Seq<char>, k: int)
    requires
        all_digits(s),
        0 <= k <= s.len(),
    ensures
        0 <= digits_value(s.take(k)) <= digits_value(s),
    decreases s.len(),
{
    if s.len() > 0 {
        if k == s.len() {
            assert(s.take(k) == s);
            lemma_digits_value_grows(s.drop_last(), k - 1);
        } else {
            lemma_digits_value_grows(s.drop_last(), k);
            assert(s.drop_last().take(k) == s.take(k));
        }
    }
}

/// The decimal digits written for a natural number are digits only, at least
/// one, and stand for that number.
pub proof fn lemma_decimal_digits_read_back(n: nat)
    ensures
        decimal_digits(n).len() >= 1,
        all_digits(decimal_digits(n)),
        digits_value(decimal_digits(n)) == n,
    decreases n,
{
    if n < 10 {
        assert(decimal_digits(n).drop_last() == Seq::<char>::empty());
        assert(digits_value(Seq::<char>::empty()) == 0);
    } else {
        lemma_decimal_digits_read_back(n / 10);
        assert(decimal_digits(n).drop_last() == decimal_digits(n / 10));
    }
}

/// The decimal form written for a score reads back as that score.
pub proof fn lemma_decimal_reads_back(v: i32)
    ensures
        number(decimal(v as int)) == Some(v as int),
{
    if v < 0 {
        lemma_decimal_digits_read_back((-v) as nat);
        assert(decimal(v as int).drop_first() == decimal_digits((-v) as nat));
    } else {
        lemma_decimal_digits_read_back(v as nat);
    }
}

/// Splits a text into its words.
pub fn split_words(text: &[char]) -> (found: Vec<Vec<char>>)
    ensures
        views(found@) == words(text@),
{
    let n: usize = text.len();
    let mut found: Vec<Vec<char>> = Vec::new();
    let mut i: usize = 0;
    proof {
        assert(text@.skip(0) == text@);
    }
    while i < n
        invariant
            n == text@.len(),
            i <= n,
            words(text@) == views(found@) + words(text@.skip(i as int)),
        decreases n - i,
    {
        let ghost rest = text@.skip(i as int);
        if space(text[i]) {
            assert(rest.drop_first() == text@.skip(i + 1));
            i += 1;
        } else {
            let start: usize = i;
            let mut word: Vec<char> = Vec::new();
            while i < n && !space(text[i])
                invariant
                    n == text@.len(),
                    start <= i <= n,
                    word@ == text@.subrange(start as int, i as int),
                    word_len(rest) == (i - start) + word_len(text@.skip(i as int)),
                    rest == text@.skip(start as int),
                decreases n - i,
            {
                assert(text@.skip(i as int).drop_first() == text@.skip(i + 1));
                word.push(text[i]);
                i += 1;
            }
            proof {
                assert(word_len(rest) == i - start);
                assert(rest.take(i - start) == word@);
                assert(rest.skip(i - start) == text@.skip(i as int));
                assert(views(found@.push(word)) == views(found@) + seq![word@]);
            }
            found.push(word);
        }
    }
    found
}

/// Reads a word as a score.
pub fn parse_word(word: &[char]) -> (parsed: Option<i32>)
    ensures
        match parsed {
            Some(v) => number(word@) == Some(v as int),
            None => number(word@) is None,
        },
{
    let n: usize = word.len();
    if n == 0 {
        return None;
    }
    let negative = word[0] == '-';
    let start: usize = if word[0] == '-' || word[0] == '+' {
        1
    } else {
        0
    };
    if start == n {
        return None;
    }
    let ghost digits = word@.skip(start as int);
    assert(digits == if has_sign(word@) {
        word@.drop_first()
    } else {
        word@
    });
    let mut acc: i64 = 0;
    let mut i: usize = start;
    while i < n
        invariant
            n == word@.len(),
            start <= i <= n,
            start < n,
            negative == (word@[0] == '-'),
            digits == word@.skip(start as int),
            digits == if has_sign(word@) {
                word@.drop_first()
            } else {
                word@
            },
            all_digits(digits.take(i - start)),
            acc == digits_value(digits.take(i - start)),
            0 <= acc <= 2147483648,
        decreases n - i,
    {
        let u: u32 = word[i] as u32;
        if u < 0x30 || u > 0x39 {
            assert(!is_digit(digits[i - start]));
            return None;
        }
        let ghost seen = digits.take(i - start + 1);
        assert(seen.drop_last() == digits.take(i - start));
        assert(seen.last() == word@[i as int]);
        assert(all_digits(seen));
        acc = acc * 10 + (u - 0x30) as i64;
        if acc > 2147483648 {
            proof {
                if all_digits(digits) {
                    lemma_digits_value_grows(digits, i - start + 1);
                }
            }
            return None;
        }
        i += 1;
    }
    assert(digits.take(n - start) == digits);
    if negative {
        Some((0 - acc) as i32)
    } else if acc <= 2147483647 {
        Some(acc as i32)
    } else {
        None
    }
}

/// The characters of a text, one by one.
fn characters(line: &str) -> (chars: Vec<char>)
    ensures
        chars@ == line@,
{
    let mut chars: Vec<char> = Vec::new();
    for c in it: line.chars()
        invariant
            it.seq() == line@,
            chars@ == it.seq().take(it.index() as int),
    {
        chars.push(c);
    }
    chars
}

/// Reads a line of scores: decimal integers with white space between them
/// and, as may be, around them. Gives the scores in the order of the line, or
/// the place of the first word that is not a score.
pub fn parse_leaves(line: &str) -> (parsed: Result<Vec<i32>, InputParseError>)
    ensures
        match parsed {
            Ok(leaves) => {
                &&& leaves@.len() == words(line@).len()
                &&& forall|i: int|
                    0 <= i < leaves@.len() ==> number(#[trigger] words(line@)[i]) == Some(
                        leaves@[i] as int,
                    )
            },
            Err(e) => {
                &&& e.word < words(line@).len()
                &&& number(words(line@)[e.word as int]) is None
                &&& forall|i: int| 0 <= i < e.word ==> number(#[trigger] words(line@)[i]) is Some
            },
        },
{
    let chars = characters(line);
    let found = split_words(chars.as_slice());
    let mut leaves: Vec<i32> = Vec::new();
    let mut i: usize = 0;
    while i < found.len()
        invariant
            views(found@) == words(line@),
            i <= found@.len(),
            leaves@.len() == i,
            forall|j: int|
                0 <= j < i ==> number(#[trigger] words(line@)[j]) == Some(leaves@[j] as int),
        decreases found@.len() - i,
    {
        match parse_word(found[i].as_slice()) {
            Some(v) => leaves.push(v),
            None => {
                return Err(InputParseError { word: i });
            },
        }
        i += 1;
    }
    Ok(leaves)
}

} // verus!
