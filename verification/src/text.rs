//! Reading and writing plain text: words, decimal numbers.

use vstd::prelude::*;
use vstd::string::{StrSliceExecFns, StringExecFns};

verus! {

/// The characters that separate words: those with the Unicode property
/// `White_Space`.
pub open spec fn is_space(c: char) -> bool {
    let u = c as u32;
    ||| 0x09 <= u <= 0x0d
    ||| u == 0x20
    ||| u == 0x85
    ||| u == 0xa0
    ||| u == 0x1680
    ||| 0x2000 <= u <= 0x200a
    ||| u == 0x2028
    ||| u == 0x2029
    ||| u == 0x202f
    ||| u == 0x205f
    ||| u == 0x3000
}

/// Whether `c` separates words.
pub fn is_whitespace(c: char) -> (space: bool)
    ensures
        space == is_space(c),
{
    let u: u32 = c as u32;
    (0x09 <= u && u <= 0x0d) || u == 0x20 || u == 0x85 || u == 0xa0 || u == 0x1680 || (0x2000 <= u
        && u <= 0x200a) || u == 0x2028 || u == 0x2029 || u == 0x202f || u == 0x205f || u == 0x3000
}

/// The words of a text: its maximal runs of characters that are no white
/// space, in order.
pub open spec fn words(s: Seq<char>) -> Seq<Seq<char>>
    decreases s.len(),
{
    if s.len() == 0 {
        Seq::empty()
    } else {
        let before = words(s.drop_last());
        let c = s.last();
        if is_space(c) {
            before
        } else if s.len() >= 2 && !is_space(s[s.len() - 2]) {
            before.drop_last().push(before.last().push(c))
        } else {
            before.push(seq![c])
        }
    }
}

/// The texts that a list of strings holds.
pub open spec fn texts(strings: Seq<String>) -> Seq<Seq<char>> {
    Seq::new(strings.len(), |i: int| strings[i]@)
}

/// The characters of a text.
pub fn chars_of(text: &str) -> (chars: Vec<char>)
    ensures
        chars@ == text@,
{
    let mut chars: Vec<char> = Vec::new();
    for c in it: text.chars()
        invariant
            it.seq() == text@,
            chars@ == it.seq().take(it.index() as int),
    {
        chars.push(c);
        assert(chars@ =~= it.seq().take(it.index() + 1));
    }
    assert(chars@ =~= text@);
    chars
}

/// Splits a line into its words.
pub fn split_words(line: &str) -> (out: Vec<String>)
    ensures
        texts(out@) == words(line@),
{
    let chars = chars_of(line);
    let n = chars.len();
    let mut out: Vec<String> = Vec::new();
    let mut start: usize = 0;
    let mut in_word = false;
    let mut i: usize = 0;
    let ghost s = line@;
    assert(s.take(0) =~= Seq::<char>::empty());
    assert(texts(out@) =~= Seq::<Seq<char>>::empty());
    while i < n
        invariant
            s == line@,
            chars@ == s,
            n == s.len(),
            i <= n,
            in_word == (i > 0 && !is_space(s[i - 1])),
            in_word ==> start < i,
            in_word ==> words(s.take(i as int)) == texts(out@).push(s.subrange(start as int, i as int)),
            !in_word ==> words(s.take(i as int)) == texts(out@),
        decreases n - i,
    {
        let c = chars[i];
        proof {
            assert(s.take(i as int + 1).drop_last() =~= s.take(i as int));
            assert(s.take(i as int + 1).last() == c);
            if i > 0 {
                assert(s.take(i as int + 1)[i as int - 1] == s[i as int - 1]);
            }
        }
        if is_whitespace(c) {
            if in_word {
                let ghost before = texts(out@);
                out.push(line.substring_char(start, i).to_owned());
                assert(texts(out@) =~= before.push(s.subrange(start as int, i as int)));
            }
            in_word = false;
        } else {
            if !in_word {
                start = i;
                in_word = true;
                assert(s.subrange(i as int, i as int + 1) =~= seq![c]);
            } else {
                let ghost grown = texts(out@).push(s.subrange(start as int, i as int));
                assert(grown.drop_last() =~= texts(out@));
                assert(grown.last().push(c) =~= s.subrange(start as int, i as int + 1));
            }
        }
        i += 1;
    }
    assert(s.take(n as int) =~= s);
    if in_word {
        let ghost before = texts(out@);
        out.push(line.substring_char(start, n).to_owned());
        assert(texts(out@) =~= before.push(s.subrange(start as int, n as int)));
    }
    out
}

/// Whether `c` is one of the digits `0` to `9`.
pub open spec fn is_digit(c: char) -> bool {
    0x30 <= c as u32 <= 0x39
}

/// Whether a text is made of the digits `0` to `9` alone.
pub open spec fn all_digits(s: Seq<char>) -> bool {
    forall|i: int| 0 <= i < s.len() ==> is_digit(#[trigger] s[i])
}

/// The number that a run of decimal digits stands for.
pub open spec fn digits_value(s: Seq<char>) -> nat
    decreases s.len(),
{
    if s.len() == 0 {
        0
    } else {
        (digits_value(s.drop_last()) * 10 + (s.last() as u32 - 0x30)) as nat
    }
}

/// The number that a text stands for as an unsigned decimal: an optional `+`
/// and then at least one digit, nothing else.
pub open spec fn unsigned_value(s: Seq<char>) -> Option<nat> {
    let body = if s.len() > 0 && s[0] == '+' {
        s.skip(1)
    } else {
        s
    };
    if body.len() > 0 && all_digits(body) {
        Some(digits_value(body))
    } else {
        None
    }
}

/// The number that a word stands for, if it is an unsigned decimal that fits a
/// machine word.
pub open spec fn number(word: Seq<char>) -> Option<usize> {
    match unsigned_value(word) {
        Some(v) => if v <= usize::MAX {
            Some(v as usize)
        } else {
            None
        },
        None => None,
    }
}

/// The number that a text stands for as a signed decimal: an optional `+` or
/// `-` and then at least one digit, nothing else.
pub open spec fn signed_value(s: Seq<char>) -> Option<int> {
    if s.len() > 0 && s[0] == '-' {
        let body = s.skip(1);
        if body.len() > 0 && all_digits(body) {
            Some(-(digits_value(body) as int))
        } else {
            None
        }
    } else {
        match unsigned_value(s) {
            Some(v) => Some(v as int),
            None => None,
        }
    }
}

/// More digits never make a number smaller.
proof fn lemma_digits_grow(s: Seq<char>, k: int)
    requires
        0 <= k <= s.len(),
        all_digits(s),
    ensures
        digits_value(s.take(k)) <= digits_value(s),
    decreases s.len() - k,
{
    if k < s.len() {
        assert(s.take(k + 1).drop_last() =~= s.take(k));
        assert(is_digit(s[k]));
        assert(s.take(k + 1).last() == s[k]);
        assert(digits_value(s.take(k + 1)) >= digits_value(s.take(k))) by (nonlinear_arith)
            requires
                digits_value(s.take(k + 1)) == digits_value(s.take(k)) * 10 + (s[k] as u32 - 0x30),
                s[k] as u32 >= 0x30,
        ;
        lemma_digits_grow(s, k + 1);
    } else {
        assert(s.take(k) =~= s);
    }
}

/// Reads the digits of `word` from position `from` on. Returns their value,
/// or `None` where there is no digit, something else than a digit, or a
/// value above `limit`.
fn read_digits(word: &Vec<char>, from: usize, limit: u64) -> (value: Option<u64>)
    requires
        from <= word@.len(),
    ensures
        value == (if word@.skip(from as int).len() > 0 && all_digits(word@.skip(from as int))
            && digits_value(word@.skip(from as int)) <= limit {
            Some(digits_value(word@.skip(from as int)) as u64)
        } else {
            None
        }),
{
    let n = word.len();
    if from >= n {
        return None;
    }
    let ghost body = word@.skip(from as int);
    let mut value: u64 = 0;
    let mut i: usize = from;
    assert(body.take(0) =~= Seq::<char>::empty());
    while i < n
        invariant
            body == word@.skip(from as int),
            n == word@.len(),
            from <= i <= n,
            all_digits(body.take(i - from)),
            value == digits_value(body.take(i - from)),
            value <= limit,
        decreases n - i,
    {
        let c = word[i];
        let u: u32 = c as u32;
        proof {
            assert(body[i - from] == c);
            assert(body.take(i - from + 1).drop_last() =~= body.take(i - from));
            assert(body.take(i - from + 1).last() == c);
        }
        if u < 0x30 || u > 0x39 {
            assert(!is_digit(body[i - from]));
            return None;
        }
        let digit: u64 = (u - 0x30) as u64;
        assert(all_digits(body.take(i - from + 1))) by {
            assert forall|p: int| 0 <= p < i - from + 1 implies is_digit(
                #[trigger] body.take(i - from + 1)[p],
            ) by {
                if p < i - from {
                    assert(body.take(i - from)[p] == body.take(i - from + 1)[p]);
                }
            }
        }
        if limit < digit || value > (limit - digit) / 10 {
            proof {
                assert(digits_value(body.take(i - from + 1)) > limit) by (nonlinear_arith)
                    requires
                        digits_value(body.take(i - from + 1)) == value * 10 + digit,
                        limit < digit || value > (limit - digit) / 10,
                        digit <= 9,
                ;
                if all_digits(body) {
                    lemma_digits_grow(body, i - from + 1);
                }
            }
            return None;
        }
        assert(value * 10 + digit <= limit) by (nonlinear_arith)
            requires
                value <= (limit - digit) / 10,
                digit <= limit,
        ;
        value = value * 10 + digit;
        i += 1;
    }
    assert(body.take(n - from) =~= body);
    Some(value)
}

/// Reads an unsigned decimal number as `str::parse::<usize>` does: an optional
/// `+`, then digits; `None` for anything else and for a number that does not
/// fit.
pub fn parse_usize(word: &str) -> (parsed: Option<usize>)
    ensures
        parsed == number(word@),
{
    let chars = chars_of(word);
    let n = chars.len();
    let from: usize = if n > 0 && chars[0] == '+' {
        1
    } else {
        0
    };
    proof {
        assert(word@.skip(0) =~= word@);
    }
    match read_digits(&chars, from, usize::MAX as u64) {
        Some(v) => Some(v as usize),
        None => None,
    }
}

/// Reads a signed decimal number as `str::parse::<isize>` does: an optional
/// `+` or `-`, then digits; `None` for anything else and for a number that
/// does not fit.
pub fn parse_isize(word: &str) -> (number: Option<isize>)
    ensures
        number == (match signed_value(word@) {
            Some(v) => if isize::MIN <= v <= isize::MAX {
                Some(v as isize)
            } else {
                None
            },
            None => None,
        }),
{
    let chars = chars_of(word);
    let n = chars.len();
    proof {
        assert(word@.skip(0) =~= word@);
    }
    if n > 0 && chars[0] == '-' {
        match read_digits(&chars, 1, isize::MAX as u64 + 1) {
            Some(v) => if v == isize::MAX as u64 + 1 {
                Some(isize::MIN)
            } else {
                Some(-(v as isize))
            },
            None => None,
        }
    } else {
        let from: usize = if n > 0 && chars[0] == '+' {
            1
        } else {
            0
        };
        match read_digits(&chars, from, isize::MAX as u64) {
            Some(v) => Some(v as isize),
            None => None,
        }
    }
}

/// The character of the digit `d`.
pub open spec fn digit_char(d: nat) -> char {
    if d == 0 {
        '0'
    } else if d == 1 {
        '1'
    } else if d == 2 {
        '2'
    } else if d == 3 {
        '3'
    } else if d == 4 {
        '4'
    } else if d == 5 {
        '5'
    } else if d == 6 {
        '6'
    } else if d == 7 {
        '7'
    } else if d == 8 {
        '8'
    } else {
        '9'
    }
}

/// The decimal notation of a number, without leading zeros.
pub open spec fn decimal(n: nat) -> Seq<char>
    decreases n,
{
    if n < 10 {
        seq![digit_char(n)]
    } else {
        decimal(n / 10).push(digit_char(n % 10))
    }
}

/// The text of one digit.
fn digit_text(d: usize) -> (text: &'static str)
    requires
        d < 10,
    ensures
        text@ == seq![digit_char(d as nat)],
{
    proof {
        reveal_strlit("0");
        reveal_strlit("1");
        reveal_strlit("2");
        reveal_strlit("3");
        reveal_strlit("4");
        reveal_strlit("5");
        reveal_strlit("6");
        reveal_strlit("7");
        reveal_strlit("8");
        reveal_strlit("9");
    }
    let text = if d == 0 {
        "0"
    } else if d == 1 {
        "1"
    } else if d == 2 {
        "2"
    } else if d == 3 {
        "3"
    } else if d == 4 {
        "4"
    } else if d == 5 {
        "5"
    } else if d == 6 {
        "6"
    } else if d == 7 {
        "7"
    } else if d == 8 {
        "8"
    } else {
        "9"
    };
    assert(text@ =~= seq![digit_char(d as nat)]);
    text
}

/// Writes `n` in decimal at the end of `out`.
pub fn push_decimal(out: &mut String, n: usize)
    ensures
        final(out)@ == old(out)@ + decimal(n as nat),
    decreases n,
{
    if n >= 10 {
        push_decimal(out, n / 10);
    }
    out.append(digit_text(n % 10));
    proof {
        if n >= 10 {
            assert(out@ =~= old(out)@ + decimal(n as nat));
        } else {
            assert(out@ =~= old(out)@ + decimal(n as nat));
        }
    }
}

/// Whether two texts hold the same characters.
pub fn same_text(a: &str, b: &str) -> (same: bool)
    ensures
        same == (a@ == b@),
{
    let first = chars_of(a);
    let second = chars_of(b);
    let n = first.len();
    if n != second.len() {
        return false;
    }
    let mut i: usize = 0;
    while i < n
        invariant
            first@ == a@,
            second@ == b@,
            n == a@.len(),
            n == b@.len(),
            i <= n,
            forall|j: int| 0 <= j < i ==> a@[j] == b@[j],
        decreases n - i,
    {
        if first[i] != second[i] {
            return false;
        }
        i += 1;
    }
    assert(a@ =~= b@);
    true
}

/// The text of a run of characters, by `String::from_iter` of the standard
/// library.
#[verifier::external_body]
pub(crate) fn string_of(chars: &Vec<char>) -> (text: String)
    ensures
        text@ == chars@,
{
    String::from_iter(chars.iter())
}

/// The characters from place `from` up to place `to`.
pub fn slice(chars: &Vec<char>, from: usize, to: usize) -> (part: Vec<char>)
    requires
        from <= to <= chars.len(),
    ensures
        part@ == chars@.subrange(from as int, to as int),
{
    let mut part: Vec<char> = Vec::with_capacity(to - from);
    let mut i: usize = from;
    while i < to
        invariant
            from <= i <= to,
            to <= chars.len(),
            part@ == chars@.subrange(from as int, i as int),
        decreases to - i,
    {
        part.push(chars[i]);
        assert(part@ =~= chars@.subrange(from as int, i as int + 1));
        i += 1;
    }
    part
}

} // verus!
