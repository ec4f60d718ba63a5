//! Character classes and the small scanners shared by the line decoders.
//!
//! Every scanner works on a position in the input: `n` is the input's length
//! in characters and `p` the position where scanning starts.

use vstd::prelude::*;
use vstd::string::*;

verus! {

/// The single error kind of every decoder: the input it was handed did not
/// match its grammar.
#[derive(Debug, Clone, Copy, PartialEq, Eq)]
pub struct SyntaxError<'a> {
    /// The input that did not match.
    pub input: &'a str,
}

pub open spec fn is_upper(c: char) -> bool {
    'A' <= c && c <= 'Z'
}

pub open spec fn is_digit(c: char) -> bool {
    '0' <= c && c <= '9'
}

pub open spec fn is_alnum(c: char) -> bool {
    is_upper(c) || is_digit(c)
}

/// A blank inside a line: a space or a tab.
pub open spec fn is_space(c: char) -> bool {
    c == ' ' || c == '\t'
}

/// Position just past the blanks that start at `p`.
pub open spec fn spaces_end(s: Seq<char>, p: int) -> int
    decreases s.len() - p,
{
    if 0 <= p < s.len() && is_space(s[p]) {
        spaces_end(s, p + 1)
    } else {
        p
    }
}

/// Position just past the decimal digits that start at `p`.
pub open spec fn digits_end(s: Seq<char>, p: int) -> int
    decreases s.len() - p,
{
    if 0 <= p < s.len() && is_digit(s[p]) {
        digits_end(s, p + 1)
    } else {
        p
    }
}

/// Whether `lit` stands in `s` at position `p`.
pub open spec fn tag_at(s: Seq<char>, p: int, lit: Seq<char>) -> bool {
    0 <= p && p + lit.len() <= s.len() && s.subrange(p, p + lit.len()) == lit
}

/// Whether the character at `p` is `c`; false where `p` is outside `s`.
pub open spec fn char_is(s: Seq<char>, p: int, c: char) -> bool {
    0 <= p < s.len() && s[p] == c
}

pub proof fn lemma_spaces_end_bounds(s: Seq<char>, p: int)
    requires
        0 <= p <= s.len(),
    ensures
        p <= spaces_end(s, p) <= s.len(),
    decreases s.len() - p,
{
    if p < s.len() && is_space(s[p]) {
        lemma_spaces_end_bounds(s, p + 1);
    }
}

pub proof fn lemma_spaces_end_chars(s: Seq<char>, p: int)
    requires
        0 <= p <= s.len(),
    ensures
        forall|j: int| p <= j < spaces_end(s, p) ==> is_space(#[trigger] s[j]),
    decreases s.len() - p,
{
    if p < s.len() && is_space(s[p]) {
        lemma_spaces_end_chars(s, p + 1);
    }
}

pub proof fn lemma_digits_end_chars(s: Seq<char>, p: int)
    requires
        0 <= p <= s.len(),
    ensures
        forall|j: int| p <= j < digits_end(s, p) ==> is_digit(#[trigger] s[j]),
    decreases s.len() - p,
{
    if p < s.len() && is_digit(s[p]) {
        lemma_digits_end_chars(s, p + 1);
    }
}

/// Scanning the suffix `s[k..]` from `p` is scanning `s` from `p + k`.
pub proof fn lemma_spaces_end_skip(s: Seq<char>, k: int, p: int)
    requires
        0 <= k <= s.len(),
        0 <= p,
    ensures
        spaces_end(s.subrange(k, s.len() as int), p) == spaces_end(s, p + k) - k,
    decreases s.len() - k - p,
{
    let t = s.subrange(k, s.len() as int);
    if p < t.len() && is_space(t[p]) {
        lemma_spaces_end_skip(s, k, p + 1);
    }
}

pub fn upper_char(c: char) -> (r: bool)
    ensures
        r == is_upper(c),
{
    'A' <= c && c <= 'Z'
}

pub fn digit_char(c: char) -> (r: bool)
    ensures
        r == is_digit(c),
{
    '0' <= c && c <= '9'
}

pub fn alnum_char(c: char) -> (r: bool)
    ensures
        r == is_alnum(c),
{
    upper_char(c) || digit_char(c)
}

/// Whether the character at `p` is `c`; false at the end of the input.
pub fn char_at_is(i: &str, n: usize, p: usize, c: char) -> (r: bool)
    requires
        n == i@.len(),
    ensures
        r == char_is(i@, p as int, c),
{
    p < n && i.get_char(p) == c
}

/// Skips the blanks that start at `p`.
pub fn skip_spaces(i: &str, n: usize, p: usize) -> (r: usize)
    requires
        n == i@.len(),
        p <= n,
    ensures
        r == spaces_end(i@, p as int),
        p <= r <= n,
{
    let mut q: usize = p;
    loop
        invariant
            n == i@.len(),
            p <= q <= n,
            spaces_end(i@, p as int) == spaces_end(i@, q as int),
        decreases n - q,
    {
        if q < n {
            let c = i.get_char(q);
            if c == ' ' || c == '\t' {
                q = q + 1;
                continue;
            }
        }
        return q;
    }
}

/// Skips the decimal digits that start at `p`.
pub fn skip_digits(i: &str, n: usize, p: usize) -> (r: usize)
    requires
        n == i@.len(),
        p <= n,
    ensures
        r == digits_end(i@, p as int),
        p <= r <= n,
{
    let mut q: usize = p;
    loop
        invariant
            n == i@.len(),
            p <= q <= n,
            digits_end(i@, p as int) == digits_end(i@, q as int),
        decreases n - q,
    {
        if q < n && digit_char(i.get_char(q)) {
            q = q + 1;
        } else {
            return q;
        }
    }
}

/// Whether the literal `lit` stands in the input at `p`.
pub fn tag(i: &str, n: usize, p: usize, lit: &str) -> (r: bool)
    requires
        n == i@.len(),
        p <= n,
    ensures
        r == tag_at(i@, p as int, lit@),
{
    let m = lit.unicode_len();
    if n - p < m {
        return false;
    }
    let mut k: usize = 0;
    while k < m
        invariant
            n == i@.len(),
            m == lit@.len(),
            p + m <= n,
            k <= m,
            forall|j: int| 0 <= j < k ==> i@[p + j] == lit@[j],
        decreases m - k,
    {
        if i.get_char(p + k) != lit.get_char(k) {
            assert(i@.subrange(p as int, p + m)[k as int] != lit@[k as int]);
            return false;
        }
        k = k + 1;
    }
    assert(i@.subrange(p as int, p + m) =~= lit@);
    true
}

} // verus!
