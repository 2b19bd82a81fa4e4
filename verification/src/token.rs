//! Literal tokens: the token `0` ends a clause and is dropped, a token that
//! starts with `-` names a negated variable, and any other token names a
//! variable. A well-formed token is a decimal numeral, after a `-` or not.

use vstd::prelude::*;

verus! {

/// The first position at or after `from` that does not hold `c`.
pub open spec fn skip_forward(s: Seq<char>, c: char, from: int) -> int
    decreases s.len() - from,
{
    if 0 <= from < s.len() && s[from] == c {
        skip_forward(s, c, from + 1)
    } else {
        from
    }
}

/// The end of the last stretch before `to` that does not end in `c`.
pub open spec fn skip_backward(s: Seq<char>, c: char, to: int) -> int
    decreases to,
{
    if 0 < to <= s.len() && s[to - 1] == c {
        skip_backward(s, c, to - 1)
    } else {
        to
    }
}

/// The text without its leading and trailing occurrences of `c`.
pub open spec fn trimmed(s: Seq<char>, c: char) -> Seq<char> {
    let start = skip_forward(s, c, 0);
    if start >= s.len() {
        Seq::empty()
    } else {
        s.subrange(start, skip_backward(s, c, s.len() as int))
    }
}

/// The token names a negated variable.
pub open spec fn is_negative(token: Seq<char>) -> bool {
    token.len() > 0 && token[0] == '-'
}

/// The token ends a clause and stands for no literal: it is the text `0`.
pub open spec fn is_terminator(token: Seq<char>) -> bool {
    token.len() == 1 && token[0] == '0'
}

/// The character is a decimal digit.
pub open spec fn is_digit(c: char) -> bool {
    c == '0' || c == '1' || c == '2' || c == '3' || c == '4' || c == '5' || c == '6' || c == '7'
        || c == '8' || c == '9'
}

/// The text from position `from` on is made of decimal digits.
pub open spec fn digits_from(token: Seq<char>, from: int) -> bool {
    forall|i: int| from <= i < token.len() ==> is_digit(#[trigger] token[i])
}

/// The token is well formed: one or more decimal digits, after a `-` or not.
pub open spec fn is_numeral(token: Seq<char>) -> bool {
    if is_negative(token) {
        token.len() > 1 && digits_from(token, 1)
    } else {
        token.len() > 0 && digits_from(token, 0)
    }
}

/// The name of the variable that a literal token speaks of.
pub open spec fn variable_name(token: Seq<char>) -> Seq<char> {
    if is_negative(token) {
        trimmed(token, '-')
    } else {
        token
    }
}

/// Whether the text starts with the character `c`.
pub fn starts_with(text: &str, c: char) -> (b: bool)
    ensures
        b == (text@.len() > 0 && text@[0] == c),
{
    text.unicode_len() > 0 && text.get_char(0) == c
}

/// Whether the token ends a clause: whether it is the text `0`.
pub fn terminator(text: &str) -> (b: bool)
    ensures
        b == is_terminator(text@),
{
    text.unicode_len() == 1 && text.get_char(0) == '0'
}

/// Whether the character is a decimal digit.
pub fn digit(c: char) -> (b: bool)
    ensures
        b == is_digit(c),
{
    c == '0' || c == '1' || c == '2' || c == '3' || c == '4' || c == '5' || c == '6' || c == '7'
        || c == '8' || c == '9'
}

/// Whether the token is well formed: one or more decimal digits, after a `-`
/// or not.
pub fn numeral(text: &str) -> (b: bool)
    ensures
        b == is_numeral(text@),
{
    let n = text.unicode_len();
    let start: usize = if starts_with(text, '-') {
        1
    } else {
        0
    };
    if n <= start {
        return false;
    }
    let mut i: usize = start;
    while i < n
        invariant
            start <= i <= n == text@.len(),
            start == if is_negative(text@) {
                1int
            } else {
                0int
            },
            forall|k: int| start <= k < i ==> is_digit(#[trigger] text@[k]),
        decreases n - i,
    {
        if !digit(text.get_char(i)) {
            assert(!is_digit(text@[i as int]));
            return false;
        }
        i += 1;
    }
    true
}

/// The text without its leading and trailing occurrences of `c`.
pub fn trim<'a>(text: &'a str, c: char) -> (r: &'a str)
    ensures
        r@ == trimmed(text@, c),
{
    let n = text.unicode_len();
    let mut start: usize = 0;
    while start < n && text.get_char(start) == c
        invariant
            start <= n == text@.len(),
            skip_forward(text@, c, 0) == skip_forward(text@, c, start as int),
        decreases n - start,
    {
        start += 1;
    }
    if start == n {
        return text.substring_char(n, n);
    }
    let mut end: usize = n;
    while text.get_char(end - 1) == c
        invariant
            start < end <= n == text@.len(),
            text@[start as int] != c,
            skip_forward(text@, c, 0) == start,
            skip_backward(text@, c, n as int) == skip_backward(text@, c, end as int),
        decreases end,
    {
        end -= 1;
    }
    text.substring_char(start, end)
}

} // verus!
