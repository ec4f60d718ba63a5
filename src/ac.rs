//! The accession grammar and the `AC` block decoder.

use vstd::prelude::*;
use vstd::string::*;
use crate::text::{
    alnum_char, char_at_is, char_is, digit_char, is_alnum, is_digit, is_upper,
    lemma_spaces_end_bounds, lemma_spaces_end_skip, skip_spaces, spaces_end, upper_char,
    SyntaxError,
};

verus! {

/// First letter of the family whose tokens are 6 or 10 characters long.
pub open spec fn is_long_family(c: char) -> bool {
    ('A' <= c && c <= 'N') || ('R' <= c && c <= 'Z')
}

/// First letter of the family whose tokens are always 6 characters long.
pub open spec fn is_short_family(c: char) -> bool {
    'O' <= c && c <= 'Q'
}

/// A block `[upper][alnum][alnum][digit]` at `p`.
pub open spec fn block_at(s: Seq<char>, p: int) -> bool {
    0 <= p && p + 4 <= s.len() && is_upper(s[p]) && is_alnum(s[p + 1]) && is_alnum(s[p + 2])
        && is_digit(s[p + 3])
}

/// Position just past the accession token that starts at `p`, if one does.
/// The long family takes a second block whenever one follows.
pub open spec fn accession_end(s: Seq<char>, p: int) -> Option<int> {
    if 0 <= p && p + 6 <= s.len() && is_long_family(s[p]) && is_digit(s[p + 1]) && block_at(
        s,
        p + 2,
    ) {
        if block_at(s, p + 6) {
            Some(p + 10)
        } else {
            Some(p + 6)
        }
    } else if 0 <= p && p + 6 <= s.len() && is_short_family(s[p]) && is_digit(s[p + 1])
        && is_alnum(s[p + 2]) && is_alnum(s[p + 3]) && is_alnum(s[p + 4]) && is_digit(s[p + 5]) {
        Some(p + 6)
    } else {
        None
    }
}

/// One item `blanks accession ";"` at `p`: where its accession starts and ends.
pub open spec fn item_at(s: Seq<char>, p: int) -> Option<(int, int)> {
    let q = spaces_end(s, p);
    match accession_end(s, q) {
        Some(e) => if char_is(s, e, ';') {
            Some((q, e))
        } else {
            None
        },
        None => None,
    }
}

/// As many items as follow `p`, at most `budget`: the position after the last
/// one and their accessions in order.
pub open spec fn items_from(s: Seq<char>, p: int, budget: nat) -> (int, Seq<Seq<char>>)
    decreases budget,
{
    if budget == 0 {
        (p, Seq::empty())
    } else {
        match item_at(s, p) {
            Some((a, e)) => {
                let (q, ts) = items_from(s, e + 1, (budget - 1) as nat);
                (q, seq![s.subrange(a, e)] + ts)
            },
            None => (p, Seq::empty()),
        }
    }
}

/// Most accessions that one physical `AC` line may hold.
pub const MAX_PER_LINE: usize = 8;

/// One physical line `"AC" blanks (blanks accession ";"){1,8} "\n"` at `p`:
/// the position after its newline and its accessions.
pub open spec fn ac_line_at(s: Seq<char>, p: int) -> Option<(int, Seq<Seq<char>>)> {
    if char_is(s, p, 'A') && char_is(s, p + 1, 'C') && spaces_end(s, p + 2) > p + 2 {
        let (e, ts) = items_from(s, spaces_end(s, p + 2), MAX_PER_LINE as nat);
        if ts.len() > 0 && char_is(s, e, '\n') {
            Some((e + 1, ts))
        } else {
            None
        }
    } else {
        None
    }
}

/// The `AC` lines that follow one another from `p`: the position after the
/// last one and all their accessions, line after line.
pub open spec fn ac_lines_from(s: Seq<char>, p: int) -> (int, Seq<Seq<char>>)
    decreases s.len() - p,
{
    match ac_line_at(s, p) {
        Some((e, ts)) => if p < e <= s.len() {
            let (q, rest) = ac_lines_from(s, e);
            (q, ts + rest)
        } else {
            (p, Seq::empty())
        },
        None => (p, Seq::empty()),
    }
}

/// An `AC` block at the start of `s`: one line at least, then every line
/// that follows and matches.
pub open spec fn ac_block(s: Seq<char>) -> Option<(int, Seq<Seq<char>>)> {
    if ac_line_at(s, 0) is Some {
        Some(ac_lines_from(s, 0))
    } else {
        None
    }
}

/// The text of each token in `v`.
pub open spec fn views(v: Seq<&str>) -> Seq<Seq<char>> {
    v.map_values(|t: &str| t@)
}

proof fn lemma_accession_end_skip(s: Seq<char>, k: int, p: int)
    requires
        0 <= k <= s.len(),
        0 <= p,
    ensures
        accession_end(s.subrange(k, s.len() as int), p) == (match accession_end(s, p + k) {
            Some(e) => Some(e - k),
            None => None,
        }),
{
}

proof fn lemma_item_at_skip(s: Seq<char>, k: int, p: int)
    requires
        0 <= k <= s.len(),
        0 <= p,
    ensures
        item_at(s.subrange(k, s.len() as int), p) == (match item_at(s, p + k) {
            Some((a, e)) => Some((a - k, e - k)),
            None => None,
        }),
{
    let t = s.subrange(k, s.len() as int);
    lemma_spaces_end_skip(s, k, p);
    if p + k <= s.len() {
        lemma_spaces_end_bounds(s, p + k);
    }
    let q = spaces_end(t, p);
    if q >= 0 {
        lemma_accession_end_skip(s, k, q);
    }
}

proof fn lemma_items_from_skip(s: Seq<char>, k: int, p: int, budget: nat)
    requires
        0 <= k <= s.len(),
        0 <= p,
    ensures
        items_from(s.subrange(k, s.len() as int), p, budget).0 == items_from(s, p + k, budget).0
            - k,
        items_from(s.subrange(k, s.len() as int), p, budget).1 == items_from(s, p + k, budget).1,
    decreases budget,
{
    let t = s.subrange(k, s.len() as int);
    if budget > 0 {
        lemma_item_at_skip(s, k, p);
        match item_at(s, p + k) {
            Some((a, e)) => {
                assert(p <= spaces_end(t, p)) by {
                    if p <= t.len() {
                        lemma_spaces_end_bounds(t, p);
                    }
                };
                lemma_items_from_skip(s, k, e - k + 1, (budget - 1) as nat);
                assert(t.subrange(a - k, e - k) =~= s.subrange(a, e));
            },
            None => {},
        }
    }
}

proof fn lemma_items_from_bounds(s: Seq<char>, p: int, budget: nat)
    requires
        0 <= p <= s.len(),
    ensures
        p <= items_from(s, p, budget).0 <= s.len(),
    decreases budget,
{
    if budget > 0 {
        lemma_spaces_end_bounds(s, p);
        match item_at(s, p) {
            Some((a, e)) => lemma_items_from_bounds(s, e + 1, (budget - 1) as nat),
            None => {},
        }
    }
}

proof fn lemma_ac_line_at_skip(s: Seq<char>, k: int)
    requires
        0 <= k <= s.len(),
    ensures
        ac_line_at(s.subrange(k, s.len() as int), 0) is None <==> ac_line_at(s, k) is None,
{
    let t = s.subrange(k, s.len() as int);
    lemma_spaces_end_skip(s, k, 2);
    if k + 2 <= s.len() {
        let q = spaces_end(s, k + 2);
        lemma_spaces_end_bounds(s, k + 2);
        lemma_items_from_skip(s, k, q - k, MAX_PER_LINE as nat);
        lemma_items_from_bounds(s, q, MAX_PER_LINE as nat);
        let e = items_from(s, q, MAX_PER_LINE as nat).0;
        assert(char_is(t, e - k, '\n') == char_is(s, e, '\n'));
    }
}

proof fn lemma_ac_line_advances(s: Seq<char>, p: int)
    requires
        0 <= p <= s.len(),
    ensures
        ac_line_at(s, p) matches Some((e, ts)) ==> p < e <= s.len(),
{
    if char_is(s, p, 'A') && char_is(s, p + 1, 'C') {
        lemma_spaces_end_bounds(s, p + 2);
        lemma_items_from_bounds(s, spaces_end(s, p + 2), MAX_PER_LINE as nat);
    }
}

proof fn lemma_ac_lines_from_stops(s: Seq<char>, p: int)
    requires
        0 <= p <= s.len(),
    ensures
        ac_line_at(s, ac_lines_from(s, p).0) is None,
        p <= ac_lines_from(s, p).0 <= s.len(),
    decreases s.len() - p,
{
    lemma_ac_line_advances(s, p);
    match ac_line_at(s, p) {
        Some((e, ts)) => lemma_ac_lines_from_stops(s, e),
        None => {},
    }
}

/// Decoding an `AC` block takes every line that matches: the input left
/// after a successful decode does not start with another `AC` block, so a
/// second decode never takes a line the first one took.
pub proof fn lemma_ac_block_remainder(s: Seq<char>)
    requires
        ac_block(s) is Some,
    ensures
        ac_block(s.subrange(ac_block(s).unwrap().0, s.len() as int)) is None,
{
    lemma_ac_lines_from_stops(s, 0);
    lemma_ac_line_at_skip(s, ac_lines_from(s, 0).0);
}

/// A token of the long family, a letter in `A..=N` or `R..=Z`, a digit and
/// one or two blocks `[upper][alnum][alnum][digit]`, is recognised whole.
pub proof fn lemma_long_family_accepted(s: Seq<char>)
    requires
        s.len() == 6 || s.len() == 10,
        is_long_family(s[0]),
        is_digit(s[1]),
        block_at(s, 2),
        s.len() == 10 ==> block_at(s, 6),
    ensures
        accession_end(s, 0) == Some(s.len() as int),
{
}

/// A token of the short family, a letter in `O..=Q`, a digit, three
/// alphanumerics and a digit, is recognised as exactly its 6 characters,
/// whatever follows it.
pub proof fn lemma_short_family_accepted(s: Seq<char>)
    requires
        s.len() >= 6,
        is_short_family(s[0]),
        is_digit(s[1]),
        is_alnum(s[2]),
        is_alnum(s[3]),
        is_alnum(s[4]),
        is_digit(s[5]),
    ensures
        accession_end(s, 0) == Some(6int),
{
}

/// Input shorter than 6 characters, or starting with a digit or a lowercase
/// letter, holds no accession.
pub proof fn lemma_accession_rejected(s: Seq<char>)
    requires
        s.len() < 6 || is_digit(s[0]) || ('a' <= s[0] && s[0] <= 'z'),
    ensures
        accession_end(s, 0) is None,
{
}

/// A recognised accession is 6 or 10 characters long, never anything else;
/// so no input of 11 characters is one accession in full.
pub proof fn lemma_accession_length(s: Seq<char>, p: int)
    ensures
        accession_end(s, p) matches Some(e) ==> e == p + 6 || e == p + 10,
        s.len() == 11 ==> accession_end(s, 0) != Some(11int),
{
}

/// An 11-character run of uppercase letters and digits closed by `;` is
/// never taken as one item of an `AC` line.
pub proof fn lemma_eleven_character_item_rejected(s: Seq<char>, p: int)
    requires
        0 <= p,
        spaces_end(s, p) + 11 < s.len(),
        forall|j: int| 0 <= j < 11 ==> is_alnum(#[trigger] s[spaces_end(s, p) + j]),
        s[spaces_end(s, p) + 11] == ';',
    ensures
        item_at(s, p) is None,
{
    let q = spaces_end(s, p);
    assert(is_alnum(s[q + 6]));
    assert(is_alnum(s[q + 10]));
}

fn long_family_char(c: char) -> (r: bool)
    ensures
        r == is_long_family(c),
{
    ('A' <= c && c <= 'N') || ('R' <= c && c <= 'Z')
}

fn short_family_char(c: char) -> (r: bool)
    ensures
        r == is_short_family(c),
{
    'O' <= c && c <= 'Q'
}

fn block_scan(i: &str, n: usize, p: usize) -> (r: bool)
    requires
        n == i@.len(),
        p <= n,
    ensures
        r == block_at(i@, p as int),
{
    n - p >= 4 && upper_char(i.get_char(p)) && alnum_char(i.get_char(p + 1)) && alnum_char(
        i.get_char(p + 2),
    ) && digit_char(i.get_char(p + 3))
}

/// Scans the accession token at `p`.
pub fn accession_scan(i: &str, n: usize, p: usize) -> (r: Option<usize>)
    requires
        n == i@.len(),
        p <= n,
    ensures
        match r {
            Some(e) => accession_end(i@, p as int) == Some(e as int) && p < e <= n,
            None => accession_end(i@, p as int) is None,
        },
{
    if n - p < 6 {
        return None;
    }
    let c0 = i.get_char(p);
    if long_family_char(c0) && digit_char(i.get_char(p + 1)) && block_scan(i, n, p + 2) {
        if block_scan(i, n, p + 6) {
            Some(p + 10)
        } else {
            Some(p + 6)
        }
    } else if short_family_char(c0) && digit_char(i.get_char(p + 1)) && alnum_char(
        i.get_char(p + 2),
    ) && alnum_char(i.get_char(p + 3)) && alnum_char(i.get_char(p + 4)) && digit_char(
        i.get_char(p + 5),
    ) {
        Some(p + 6)
    } else {
        None
    }
}

/// Recognises one accession token at the start of `i`: `Ok((rest, token))`,
/// where `token` is the longest prefix of either shape, or an error when
/// neither shape starts the input. Characters after the token are left in
/// `rest` whatever they are.
pub fn accession(i: &str) -> (r: Result<(&str, &str), SyntaxError>)
    ensures
        match accession_end(i@, 0) {
            Some(e) => r matches Ok((rest, tok)) && tok@ == i@.subrange(0, e) && rest@
                == i@.subrange(e, i@.len() as int),
            None => r matches Err(err) && err.input@ == i@,
        },
{
    let n = i.unicode_len();
    match accession_scan(i, n, 0) {
        Some(e) => Ok((i.substring_char(e, n), i.substring_char(0, e))),
        None => Err(SyntaxError { input: i }),
    }
}

/// Scans one item `blanks accession ";"` at `p`.
fn item_scan(i: &str, n: usize, p: usize) -> (r: Option<(usize, usize)>)
    requires
        n == i@.len(),
        p <= n,
    ensures
        match r {
            Some((a, e)) => item_at(i@, p as int) == Some((a as int, e as int)) && p <= a < e < n,
            None => item_at(i@, p as int) is None,
        },
{
    let q = skip_spaces(i, n, p);
    match accession_scan(i, n, q) {
        Some(e) => if char_at_is(i, n, e, ';') {
            Some((q, e))
        } else {
            None
        },
        None => None,
    }
}

/// Scans one physical `AC` line at `p`: the position after its newline and
/// its accessions.
fn ac_line_scan<'a>(i: &'a str, n: usize, p: usize) -> (r: Option<(usize, Vec<&'a str>)>)
    requires
        n == i@.len(),
        p <= n,
    ensures
        match r {
            Some((e, v)) => ac_line_at(i@, p as int) == Some((e as int, views(v@))) && p < e <= n,
            None => ac_line_at(i@, p as int) is None,
        },
{
    if !(char_at_is(i, n, p, 'A') && char_at_is(i, n, p + 1, 'C')) {
        return None;
    }
    let start = skip_spaces(i, n, p + 2);
    if start == p + 2 {
        return None;
    }
    let ghost s = i@;
    let mut q: usize = start;
    let mut count: usize = 0;
    let mut toks: Vec<&'a str> = Vec::new();
    loop
        invariant
            n == i@.len(),
            s == i@,
            start <= q <= n,
            count <= MAX_PER_LINE,
            toks@.len() == count,
            items_from(s, start as int, MAX_PER_LINE as nat) == (
                items_from(s, q as int, (MAX_PER_LINE - count) as nat).0,
                views(toks@) + items_from(s, q as int, (MAX_PER_LINE - count) as nat).1,
            ),
        ensures
            count == MAX_PER_LINE || item_at(s, q as int) is None,
        decreases MAX_PER_LINE - count,
    {
        if count == MAX_PER_LINE {
            break;
        }
        match item_scan(i, n, q) {
            Some((a, e)) => {
                let t = i.substring_char(a, e);
                let ghost before = toks@;
                toks.push(t);
                assert(views(toks@) =~= views(before) + seq![s.subrange(a as int, e as int)]);
                q = e + 1;
                count = count + 1;
            },
            None => break,
        }
    }
    assert(items_from(s, q as int, (MAX_PER_LINE - count) as nat).1 =~= Seq::<Seq<char>>::empty());
    assert(views(toks@) + Seq::<Seq<char>>::empty() =~= views(toks@));
    if count > 0 && char_at_is(i, n, q, '\n') {
        Some((q + 1, toks))
    } else {
        None
    }
}

/// Decodes an `AC` block at the start of `i`: one or more physical lines
/// `"AC" blanks (blanks accession ";"){1,8} "\n"`. Lines are taken while they
/// match; the accessions of all of them come back in order, with the rest of
/// the input. The block fails only when its first line does not match.
pub fn ac_line<'a>(i: &'a str) -> (r: Result<(&'a str, Vec<&'a str>), SyntaxError<'a>>)
    ensures
        match ac_block(i@) {
            Some((e, ts)) => r matches Ok((rest, v)) && views(v@) == ts && rest@ == i@.subrange(
                e,
                i@.len() as int,
            ),
            None => r matches Err(err) && err.input@ == i@,
        },
{
    let n = i.unicode_len();
    let ghost s = i@;
    let mut p: usize = 0;
    let mut all: Vec<&'a str> = Vec::new();
    loop
        invariant
            n == i@.len(),
            s == i@,
            p <= n,
            ac_lines_from(s, 0) == (ac_lines_from(s, p as int).0, views(all@) + ac_lines_from(
                s,
                p as int,
            ).1),
            p > 0 ==> ac_line_at(s, 0) is Some,
        ensures
            ac_line_at(s, p as int) is None,
        decreases n - p,
    {
        match ac_line_scan(i, n, p) {
            Some((e, mut line)) => {
                let ghost before = all@;
                let ghost lv = line@;
                all.append(&mut line);
                assert(views(all@) =~= views(before) + views(lv));
                assert(views(before) + (views(lv) + ac_lines_from(s, e as int).1) =~= views(all@)
                    + ac_lines_from(s, e as int).1);
                p = e;
            },
            None => break,
        }
    }
    assert(views(all@) + Seq::<Seq<char>>::empty() =~= views(all@));
    if p == 0 {
        Err(SyntaxError { input: i })
    } else {
        Ok((i.substring_char(p, n), all))
    }
}

} // verus!
