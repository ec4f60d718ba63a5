//! The `ID` line decoder: entry name, review status and sequence length.

use vstd::prelude::*;
use vstd::string::*;
use crate::text::{
    is_space, lemma_digits_end_chars, lemma_spaces_end_bounds, lemma_spaces_end_chars,
    alnum_char, char_at_is, char_is, digit_char, digits_end, is_alnum, is_digit, skip_spaces,
    spaces_end, tag, tag_at, SyntaxError,
};

verus! {

/// How far an entry has been curated.
#[derive(Debug, Clone, Copy, PartialEq, Eq, Structural)]
pub enum EntryStatus {
    Reviewed,
    Unreviewed,
}

/// A decoded `ID` line.
#[derive(Debug, Clone, Copy, PartialEq, Eq)]
pub struct IdLine<'a> {
    /// The entry name, `mnemonic "_" species`.
    pub name: &'a str,
    pub status: EntryStatus,
    /// The sequence length in amino acids.
    pub length: u64,
}

/// Most characters in the mnemonic part of an entry name.
pub const MNEMONIC_MAX: usize = 10;

/// Most characters in the species part of an entry name.
pub const SPECIES_MAX: usize = 5;

/// The number of uppercase alphanumeric characters from `p` on, at most `max`.
pub open spec fn alnum_run(s: Seq<char>, p: int, max: nat) -> nat
    decreases max,
{
    if max > 0 && 0 <= p < s.len() && is_alnum(s[p]) {
        1 + alnum_run(s, p + 1, (max - 1) as nat)
    } else {
        0
    }
}

/// Position just past the entry name `[alnum]{1,10} "_" [alnum]{1,5}` at `p`.
pub open spec fn name_end(s: Seq<char>, p: int) -> Option<int> {
    let a = alnum_run(s, p, MNEMONIC_MAX as nat);
    let b = alnum_run(s, p + a + 1, SPECIES_MAX as nat);
    if a >= 1 && char_is(s, p + a, '_') && b >= 1 {
        Some(p + a + 1 + b)
    } else {
        None
    }
}

/// The status word at `p`, and the position after it.
pub open spec fn status_at(s: Seq<char>, p: int) -> Option<(int, EntryStatus)> {
    if tag_at(s, p, "Unreviewed"@) {
        Some((p + "Unreviewed"@.len(), EntryStatus::Unreviewed))
    } else if tag_at(s, p, "Reviewed"@) {
        Some((p + "Reviewed"@.len(), EntryStatus::Reviewed))
    } else {
        None
    }
}

/// The value of a decimal digit.
pub open spec fn digit_value(c: char) -> nat {
    (c as u32 - '0' as u32) as nat
}

/// The value of the decimal digits `s[p..e]`.
pub open spec fn decimal_value(s: Seq<char>, p: int, e: int) -> nat
    decreases e - p,
{
    if p < e {
        decimal_value(s, p, e - 1) * 10 + digit_value(s[e - 1])
    } else {
        0
    }
}

/// The decimal number at `p`, where it fits in a `u64`, and the position
/// after its digits.
pub open spec fn number_at(s: Seq<char>, p: int) -> Option<(int, u64)> {
    let d = digits_end(s, p);
    if d > p && decimal_value(s, p, d) <= u64::MAX {
        Some((d, decimal_value(s, p, d) as u64))
    } else {
        None
    }
}

/// The length field `number blanks "AA"` at `p`.
pub open spec fn length_at(s: Seq<char>, p: int) -> Option<(int, u64)> {
    match number_at(s, p) {
        Some((d, v)) => {
            let q = spaces_end(s, d);
            if q > d && tag_at(s, q, "AA"@) {
                Some((q + "AA"@.len(), v))
            } else {
                None
            }
        },
        None => None,
    }
}

/// The decoded fields of an `ID` line: name, status and length.
pub struct IdFields {
    pub name: Seq<char>,
    pub status: EntryStatus,
    pub length: u64,
}

/// The line `"ID" blanks name blanks status ";" blanks length "." "\n"` at the
/// start of `s`: the position after its newline and its fields.
pub open spec fn id_line_at(s: Seq<char>) -> Option<(int, IdFields)> {
    let a = spaces_end(s, 2);
    if char_is(s, 0, 'I') && char_is(s, 1, 'D') && a > 2 {
        match name_end(s, a) {
            Some(b) => {
                let c = spaces_end(s, b);
                match status_at(s, c) {
                    Some((d, st)) => {
                        let e = spaces_end(s, d + 1);
                        match length_at(s, e) {
                            Some((f, len)) => if c > b && char_is(s, d, ';') && e > d + 1
                                && char_is(s, f, '.') && char_is(s, f + 1, '\n') {
                                Some((f + 2, IdFields { name: s.subrange(a, b), status: st, length: len }))
                            } else {
                                None
                            },
                            None => None,
                        }
                    },
                    None => None,
                }
            },
            None => None,
        }
    } else {
        None
    }
}

proof fn lemma_digits_end(s: Seq<char>, p: int)
    requires
        0 <= p <= s.len(),
    ensures
        p <= digits_end(s, p) <= s.len(),
    decreases s.len() - p,
{
    if p < s.len() && is_digit(s[p]) {
        lemma_digits_end(s, p + 1);
    }
}

proof fn lemma_decimal_value_grows(s: Seq<char>, p: int, a: int, b: int)
    requires
        p <= a <= b,
    ensures
        decimal_value(s, p, a) <= decimal_value(s, p, b),
    decreases b - a,
{
    if a < b {
        lemma_decimal_value_grows(s, p, a, b - 1);
    }
}

proof fn lemma_alnum_run_chars(s: Seq<char>, p: int, max: nat)
    requires
        0 <= p,
    ensures
        p + alnum_run(s, p, max) <= s.len() || alnum_run(s, p, max) == 0,
        forall|j: int| p <= j < p + alnum_run(s, p, max) ==> is_alnum(#[trigger] s[j]),
    decreases max,
{
    if max > 0 && p < s.len() && is_alnum(s[p]) {
        lemma_alnum_run_chars(s, p + 1, (max - 1) as nat);
    }
}

/// An `ID` line is one line: what a decode takes ends with its first
/// newline, so decoding the rest starts on the next line and never takes
/// this one again.
pub proof fn lemma_id_line_one_line(s: Seq<char>)
    requires
        id_line_at(s) is Some,
    ensures
        0 < id_line_at(s).unwrap().0 <= s.len(),
        s[id_line_at(s).unwrap().0 - 1] == '\n',
        forall|j: int| 0 <= j < id_line_at(s).unwrap().0 - 1 ==> s[j] != '\n',
{
    reveal_strlit("Unreviewed");
    reveal_strlit("Reviewed");
    reveal_strlit("AA");
    let a = spaces_end(s, 2);
    lemma_spaces_end_bounds(s, 2);
    lemma_spaces_end_chars(s, 2);
    let b = name_end(s, a).unwrap();
    let m = alnum_run(s, a, MNEMONIC_MAX as nat);
    lemma_alnum_run_chars(s, a, MNEMONIC_MAX as nat);
    lemma_alnum_run_chars(s, a + m + 1, SPECIES_MAX as nat);
    let c = spaces_end(s, b);
    lemma_spaces_end_bounds(s, b);
    lemma_spaces_end_chars(s, b);
    let (d, st) = status_at(s, c).unwrap();
    let lit = if st == EntryStatus::Unreviewed {
        "Unreviewed"@
    } else {
        "Reviewed"@
    };
    assert(s.subrange(c, d) == lit);
    assert forall|j: int| c <= j < d implies s[j] != '\n' by {
        assert(s[j] == s.subrange(c, d)[j - c]);
    };
    let e = spaces_end(s, d + 1);
    lemma_spaces_end_bounds(s, d + 1);
    lemma_spaces_end_chars(s, d + 1);
    let g = digits_end(s, e);
    lemma_digits_end_chars(s, e);
    let h = spaces_end(s, g);
    lemma_digits_end(s, e);
    lemma_spaces_end_bounds(s, g);
    lemma_spaces_end_chars(s, g);
    let f = h + 2;
    assert(s.subrange(h, f) == "AA"@);
    assert(s[h] == s.subrange(h, f)[0]);
    assert(s[h + 1] == s.subrange(h, f)[1]);
    assert forall|j: int| 0 <= j < f + 1 implies s[j] != '\n' by {
        if j < 2 {
        } else if j < a {
            assert(is_space(s[j]));
        } else if j < a + m {
            assert(is_alnum(s[j]));
        } else if j == a + m {
        } else if j < b {
            assert(is_alnum(s[j]));
        } else if j < c {
            assert(is_space(s[j]));
        } else if j < d {
        } else if j == d {
        } else if j < e {
            assert(is_space(s[j]));
        } else if j < g {
            assert(is_digit(s[j]));
        } else if j < h {
            assert(is_space(s[j]));
        } else {
        }
    };
}

fn alnum_run_scan(i: &str, n: usize, p: usize, max: usize) -> (r: usize)
    requires
        n == i@.len(),
        p <= n,
    ensures
        r == alnum_run(i@, p as int, max as nat),
        p + r <= n,
        r <= max,
{
    let ghost s = i@;
    let mut k: usize = 0;
    loop
        invariant
            n == i@.len(),
            s == i@,
            p + k <= n,
            k <= max,
            alnum_run(s, p as int, max as nat) == k + alnum_run(s, p + k, (max - k) as nat),
        decreases max - k,
    {
        if k < max && p + k < n && alnum_char(i.get_char(p + k)) {
            k = k + 1;
        } else {
            return k;
        }
    }
}

fn name_scan(i: &str, n: usize, p: usize) -> (r: Option<usize>)
    requires
        n == i@.len(),
        p <= n,
    ensures
        match r {
            Some(e) => name_end(i@, p as int) == Some(e as int) && p < e <= n,
            None => name_end(i@, p as int) is None,
        },
{
    let a = alnum_run_scan(i, n, p, MNEMONIC_MAX);
    if a == 0 || !char_at_is(i, n, p + a, '_') {
        return None;
    }
    let b = alnum_run_scan(i, n, p + a + 1, SPECIES_MAX);
    if b == 0 {
        None
    } else {
        Some(p + a + 1 + b)
    }
}

fn status_scan(i: &str, n: usize, p: usize) -> (r: Option<(usize, EntryStatus)>)
    requires
        n == i@.len(),
        p <= n,
    ensures
        match r {
            Some((e, st)) => status_at(i@, p as int) == Some((e as int, st)) && p < e <= n,
            None => status_at(i@, p as int) is None,
        },
{
    if tag(i, n, p, "Unreviewed") {
        proof {
            reveal_strlit("Unreviewed");
        }
        Some((p + 10, EntryStatus::Unreviewed))
    } else if tag(i, n, p, "Reviewed") {
        proof {
            reveal_strlit("Reviewed");
        }
        Some((p + 8, EntryStatus::Reviewed))
    } else {
        None
    }
}

fn number_scan(i: &str, n: usize, p: usize) -> (r: Option<(usize, u64)>)
    requires
        n == i@.len(),
        p <= n,
    ensures
        match r {
            Some((e, v)) => number_at(i@, p as int) == Some((e as int, v)) && p < e <= n,
            None => number_at(i@, p as int) is None,
        },
{
    let ghost s = i@;
    let mut q: usize = p;
    let mut acc: u64 = 0;
    loop
        invariant
            n == i@.len(),
            s == i@,
            p <= q <= n,
            acc == decimal_value(s, p as int, q as int),
            digits_end(s, p as int) == digits_end(s, q as int),
        decreases n - q,
    {
        if q < n {
            let c = i.get_char(q);
            if digit_char(c) {
                let d = (c as u32 - '0' as u32) as u64;
                let next = match acc.checked_mul(10) {
                    Some(m) => m.checked_add(d),
                    None => None,
                };
                match next {
                    Some(v) => {
                        acc = v;
                        q = q + 1;
                        continue;
                    },
                    None => {
                        proof {
                            lemma_digits_end(s, q + 1);
                            lemma_decimal_value_grows(
                                s,
                                p as int,
                                q + 1,
                                digits_end(s, q + 1),
                            );
                        }
                        return None;
                    },
                }
            }
        }
        if q == p {
            return None;
        }
        return Some((q, acc));
    }
}

fn length_scan(i: &str, n: usize, p: usize) -> (r: Option<(usize, u64)>)
    requires
        n == i@.len(),
        p <= n,
    ensures
        match r {
            Some((e, v)) => length_at(i@, p as int) == Some((e as int, v)) && p < e <= n,
            None => length_at(i@, p as int) is None,
        },
{
    match number_scan(i, n, p) {
        Some((d, v)) => {
            let q = skip_spaces(i, n, d);
            if q > d && tag(i, n, q, "AA") {
                proof {
                    reveal_strlit("AA");
                }
                Some((q + 2, v))
            } else {
                None
            }
        },
        None => None,
    }
}

/// Recognises an entry name `[alnum]{1,10} "_" [alnum]{1,5}` at the start of
/// `i`, where `alnum` is an uppercase letter or a digit: `Ok((rest, name))`.
pub fn entry_name(i: &str) -> (r: Result<(&str, &str), SyntaxError>)
    ensures
        match name_end(i@, 0) {
            Some(e) => r matches Ok((rest, name)) && name@ == i@.subrange(0, e) && rest@
                == i@.subrange(e, i@.len() as int),
            None => r matches Err(err) && err.input@ == i@,
        },
{
    let n = i.unicode_len();
    match name_scan(i, n, 0) {
        Some(e) => Ok((i.substring_char(e, n), i.substring_char(0, e))),
        None => Err(SyntaxError { input: i }),
    }
}

/// Recognises the status word `Unreviewed` or `Reviewed`, with this exact
/// case, at the start of `i`.
pub fn status(i: &str) -> (r: Result<(&str, EntryStatus), SyntaxError>)
    ensures
        match status_at(i@, 0) {
            Some((e, st)) => r matches Ok((rest, v)) && v == st && rest@ == i@.subrange(
                e,
                i@.len() as int,
            ),
            None => r matches Err(err) && err.input@ == i@,
        },
{
    let n = i.unicode_len();
    match status_scan(i, n, 0) {
        Some((e, st)) => Ok((i.substring_char(e, n), st)),
        None => Err(SyntaxError { input: i }),
    }
}

/// Recognises the length field `digits blanks "AA"` at the start of `i` and
/// returns its value; a number that does not fit in a `u64` is an error.
pub fn length(i: &str) -> (r: Result<(&str, u64), SyntaxError>)
    ensures
        match length_at(i@, 0) {
            Some((e, v)) => r matches Ok((rest, x)) && x == v && rest@ == i@.subrange(
                e,
                i@.len() as int,
            ),
            None => r matches Err(err) && err.input@ == i@,
        },
{
    let n = i.unicode_len();
    match length_scan(i, n, 0) {
        Some((e, v)) => Ok((i.substring_char(e, n), v)),
        None => Err(SyntaxError { input: i }),
    }
}

/// Decodes one `ID` line at the start of `i`:
/// `"ID" blanks name blanks status ";" blanks length "." "\n"`.
pub fn id_line<'a>(i: &'a str) -> (r: Result<(&'a str, IdLine<'a>), SyntaxError<'a>>)
    ensures
        match id_line_at(i@) {
            Some((e, f)) => r matches Ok((rest, line)) && line.name@ == f.name && line.status
                == f.status && line.length == f.length && rest@ == i@.subrange(
                e,
                i@.len() as int,
            ),
            None => r matches Err(err) && err.input@ == i@,
        },
{
    let n = i.unicode_len();
    let err = Err(SyntaxError { input: i });
    if !(char_at_is(i, n, 0, 'I') && char_at_is(i, n, 1, 'D')) {
        return err;
    }
    let a = skip_spaces(i, n, 2);
    if a == 2 {
        return err;
    }
    let b = match name_scan(i, n, a) {
        Some(b) => b,
        None => return err,
    };
    let c = skip_spaces(i, n, b);
    if c == b {
        return err;
    }
    let (d, st) = match status_scan(i, n, c) {
        Some(x) => x,
        None => return err,
    };
    if !char_at_is(i, n, d, ';') {
        return err;
    }
    let e = skip_spaces(i, n, d + 1);
    if e == d + 1 {
        return err;
    }
    let (f, len) = match length_scan(i, n, e) {
        Some(x) => x,
        None => return err,
    };
    if !(char_at_is(i, n, f, '.') && char_at_is(i, n, f + 1, '\n')) {
        return err;
    }
    let line = IdLine { name: i.substring_char(a, b), status: st, length: len };
    Ok((i.substring_char(f + 2, n), line))
}

impl EntryStatus {
    /// The status whose name is exactly `s`.
    pub fn from_name(s: &str) -> (r: Option<EntryStatus>)
        ensures
            r == (if s@ == "Reviewed"@ {
                Some(EntryStatus::Reviewed)
            } else if s@ == "Unreviewed"@ {
                Some(EntryStatus::Unreviewed)
            } else {
                None
            }),
    {
        proof {
            reveal_strlit("Reviewed");
            reveal_strlit("Unreviewed");
        }
        let n = s.unicode_len();
        assert(s@.subrange(0, n as int) =~= s@);
        if n == 8 && tag(s, n, 0, "Reviewed") {
            Some(EntryStatus::Reviewed)
        } else if n == 10 && tag(s, n, 0, "Unreviewed") {
            Some(EntryStatus::Unreviewed)
        } else {
            None
        }
    }
}

/// The error of [`EntryStatus`]'s `from_str`: the text names no status.
#[derive(Debug, Clone, Copy, PartialEq, Eq)]
pub struct UnknownStatus;

impl core::str::FromStr for EntryStatus {
    type Err = UnknownStatus;

    fn from_str(s: &str) -> Result<EntryStatus, UnknownStatus> {
        match EntryStatus::from_name(s) {
            Some(st) => Ok(st),
            None => Err(UnknownStatus),
        }
    }
}

} // verus!
