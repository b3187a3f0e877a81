//! The grammar of a standard code such as `GB/T 1234.1-2020`:
//! a letter prefix with at most one `/`, optional white space, a number made of
//! digit groups joined by `.` or `-`, and a four-digit year after a dash.
//!
//! Three search forms are used by the application:
//! * the *head* form (prefix and the first digit of the number), used to tell
//!   whether a text mentions a code at all;
//! * the *dated* form, where the dash and the year are required;
//! * the *loose* form, where the dash and the year are optional.
//!
//! Each search returns the leftmost match, and among the ways to match at that
//! position the one that a backtracking matcher with greedy repetition prefers.
use vstd::prelude::*;
use crate::text::{CharClass, run_end, lemma_run_end, is_letter, is_digit, scan_run, class_contains};

verus! {

/// Positions of the parts of one match of a standard code in a text.
#[derive(Clone, Copy, PartialEq, Eq, Debug)]
pub struct CodeMatch {
    /// First character of the letter prefix.
    pub start: usize,
    /// End of the prefix (letters, an optional `/`, letters).
    pub prefix_end: usize,
    /// First digit of the number.
    pub number_start: usize,
    /// End of the number.
    pub number_end: usize,
    /// Start of the four-digit year, when the match has one.
    pub year: Option<usize>,
    /// End of the whole match.
    pub end: usize,
}

pub open spec fn is_dash(c: char) -> bool {
    c == '-' || c == '\u{FF0D}' || c == '\u{2014}'
}

/// End of the prefix that starts at `p`: letters, then an optional `/` and more letters.
pub open spec fn prefix_end(s: Seq<char>, p: int) -> int {
    let a = run_end(s, p, CharClass::Letter);
    if 0 <= a < s.len() && s[a] == '/' {
        run_end(s, a + 1, CharClass::Letter)
    } else {
        a
    }
}

/// Where the number must start for a match at `p`.
pub open spec fn number_start(s: Seq<char>, p: int) -> int {
    run_end(s, prefix_end(s, p), CharClass::Space)
}

/// A code starts at `p`: a letter, the rest of the prefix, optional white space, a digit.
pub open spec fn head_at(s: Seq<char>, p: int) -> bool {
    &&& 0 <= p < s.len()
    &&& is_letter(s[p])
    &&& number_start(s, p) < s.len()
    &&& is_digit(s[number_start(s, p)])
}

/// The number can continue after the digit group that ends at `e`.
pub open spec fn can_extend(s: Seq<char>, e: int) -> bool {
    &&& 0 <= e
    &&& e + 1 < s.len()
    &&& (s[e] == '.' || s[e] == '-')
    &&& is_digit(s[e + 1])
}

/// The end of the longest number whose first digit group ends at `e`.
pub open spec fn number_last_end(s: Seq<char>, e: int) -> int
    decreases s.len() - e,
{
    if can_extend(s, e) {
        proof {
            lemma_run_end(s, e + 1, CharClass::Digit);
        }
        number_last_end(s, run_end(s, e + 1, CharClass::Digit))
    } else {
        e
    }
}

pub open spec fn four_digits_at(s: Seq<char>, b: int) -> bool {
    &&& 0 <= b
    &&& b + 4 <= s.len()
    &&& forall|k: int| b <= k < b + 4 ==> is_digit(#[trigger] s[k])
}

/// Where the year starts after a number ending at `e` (white space, a dash, white space).
pub open spec fn dash_year_start(s: Seq<char>, e: int) -> int {
    run_end(s, run_end(s, e, CharClass::Space) + 1, CharClass::Space)
}

/// A dash and a four-digit year follow a number ending at `e`.
pub open spec fn dash_year_at(s: Seq<char>, e: int) -> bool {
    let a = run_end(s, e, CharClass::Space);
    &&& 0 <= a < s.len()
    &&& is_dash(s[a])
    &&& four_digits_at(s, dash_year_start(s, e))
}

/// For a number whose current digit group ends at `e`: the end that the dated
/// form settles on. Longer numbers are preferred; a number end is acceptable
/// when a dash and a year follow it.
pub open spec fn dated_number_end(s: Seq<char>, e: int) -> Option<int>
    decreases s.len() - e,
{
    if can_extend(s, e) {
        proof {
            lemma_run_end(s, e + 1, CharClass::Digit);
        }
        match dated_number_end(s, run_end(s, e + 1, CharClass::Digit)) {
            Some(x) => Some(x),
            None => if dash_year_at(s, e) {
                Some(e)
            } else {
                None
            },
        }
    } else if dash_year_at(s, e) {
        Some(e)
    } else {
        None
    }
}

/// The dated match at `p`, if there is one.
pub open spec fn dated_match_at(s: Seq<char>, p: int) -> Option<CodeMatch> {
    if head_at(s, p) {
        let q = number_start(s, p);
        match dated_number_end(s, run_end(s, q, CharClass::Digit)) {
            Some(e) => {
                let y = dash_year_start(s, e);
                Some(
                    CodeMatch {
                        start: p as usize,
                        prefix_end: prefix_end(s, p) as usize,
                        number_start: q as usize,
                        number_end: e as usize,
                        year: Some(y as usize),
                        end: (y + 4) as usize,
                    },
                )
            },
            None => None,
        }
    } else {
        None
    }
}

/// The leftmost dated match that starts at or after `from`.
pub open spec fn dated_find(s: Seq<char>, from: int) -> Option<CodeMatch>
    decreases s.len() - from,
{
    if from < 0 || from >= s.len() {
        None
    } else {
        match dated_match_at(s, from) {
            Some(m) => Some(m),
            None => dated_find(s, from + 1),
        }
    }
}

/// All successive non-overlapping dated matches from `from` on.
pub open spec fn dated_all(s: Seq<char>, from: int) -> Seq<CodeMatch>
    decreases s.len() - from,
{
    match dated_find(s, from) {
        Some(m) => if from < m.end <= s.len() {
            seq![m] + dated_all(s, m.end as int)
        } else {
            seq![m]
        },
        None => Seq::empty(),
    }
}

/// The loose match at `p`: the longest number, then optionally a dash and a year.
pub open spec fn loose_match_at(s: Seq<char>, p: int) -> Option<CodeMatch> {
    if head_at(s, p) {
        let q = number_start(s, p);
        let e = number_last_end(s, run_end(s, q, CharClass::Digit));
        let a = run_end(s, e, CharClass::Space);
        let a2 = if a < s.len() && is_dash(s[a]) {
            a + 1
        } else {
            a
        };
        let b = run_end(s, a2, CharClass::Space);
        Some(
            CodeMatch {
                start: p as usize,
                prefix_end: prefix_end(s, p) as usize,
                number_start: q as usize,
                number_end: e as usize,
                year: if four_digits_at(s, b) {
                    Some(b as usize)
                } else {
                    None
                },
                end: if four_digits_at(s, b) {
                    (b + 4) as usize
                } else {
                    b as usize
                },
            },
        )
    } else {
        None
    }
}

/// The leftmost start at or after `from` where a code head stands.
pub open spec fn head_find(s: Seq<char>, from: int) -> Option<int>
    decreases s.len() - from,
{
    if from < 0 || from >= s.len() {
        None
    } else if head_at(s, from) {
        Some(from)
    } else {
        head_find(s, from + 1)
    }
}

/// Starts of the successive non-overlapping head matches from `from` on
/// (a head match ends just after the first digit of the number).
pub open spec fn head_all(s: Seq<char>, from: int) -> Seq<int>
    decreases s.len() - from,
{
    match head_find(s, from) {
        Some(p) => if from < number_start(s, p) + 1 <= s.len() {
            seq![p] + head_all(s, number_start(s, p) + 1)
        } else {
            seq![p]
        },
        None => Seq::empty(),
    }
}

/// The text `PREFIX NUMBER-YEAR` built from a match that has a year.
pub open spec fn dated_code_text(s: Seq<char>, m: CodeMatch) -> Seq<char> {
    s.subrange(m.start as int, m.prefix_end as int) + seq![' '] + s.subrange(
        m.number_start as int,
        m.number_end as int,
    ) + seq!['-'] + s.subrange(m.year.unwrap() as int, m.year.unwrap() + 4)
}

/// A match sits inside the text with its parts in order.
pub open spec fn match_wf(s: Seq<char>, m: CodeMatch) -> bool {
    &&& m.start < m.prefix_end <= m.number_start < m.number_end <= m.end <= s.len()
    &&& (m.year matches Some(y) ==> m.number_end <= y && y + 4 == m.end)
}

// ---------------------------------------------------------------- lemmas

pub proof fn lemma_prefix_end(s: Seq<char>, p: int)
    requires
        0 <= p < s.len(),
        is_letter(s[p]),
    ensures
        p < prefix_end(s, p) <= s.len(),
        p < number_start(s, p) <= s.len(),
        prefix_end(s, p) <= number_start(s, p),
{
    lemma_run_end(s, p, CharClass::Letter);
    let a = run_end(s, p, CharClass::Letter);
    if a < s.len() && s[a] == '/' {
        lemma_run_end(s, a + 1, CharClass::Letter);
    }
    lemma_run_end(s, prefix_end(s, p), CharClass::Space);
}

pub proof fn lemma_number_last_end(s: Seq<char>, e: int)
    requires
        0 <= e <= s.len(),
    ensures
        e <= number_last_end(s, e) <= s.len(),
    decreases s.len() - e,
{
    if can_extend(s, e) {
        lemma_run_end(s, e + 1, CharClass::Digit);
        lemma_number_last_end(s, run_end(s, e + 1, CharClass::Digit));
    }
}

pub proof fn lemma_dash_year(s: Seq<char>, e: int)
    requires
        0 <= e <= s.len(),
        dash_year_at(s, e),
    ensures
        e < dash_year_start(s, e),
        dash_year_start(s, e) + 4 <= s.len(),
{
    lemma_run_end(s, e, CharClass::Space);
    lemma_run_end(s, run_end(s, e, CharClass::Space) + 1, CharClass::Space);
}

pub proof fn lemma_dated_number_end(s: Seq<char>, e: int)
    requires
        0 <= e <= s.len(),
    ensures
        dated_number_end(s, e) matches Some(x) ==> e <= x <= s.len() && dash_year_at(s, x),
    decreases s.len() - e,
{
    if can_extend(s, e) {
        lemma_run_end(s, e + 1, CharClass::Digit);
        lemma_dated_number_end(s, run_end(s, e + 1, CharClass::Digit));
    }
}

pub proof fn lemma_dated_match_at(s: Seq<char>, p: int)
    requires
        0 <= p,
        s.len() <= usize::MAX,
    ensures
        dated_match_at(s, p) matches Some(m) ==> m.start == p && match_wf(s, m) && m.year is Some,
{
    if head_at(s, p) {
        lemma_prefix_end(s, p);
        let q = number_start(s, p);
        lemma_run_end(s, q, CharClass::Digit);
        let e0 = run_end(s, q, CharClass::Digit);
        lemma_dated_number_end(s, e0);
        if let Some(e) = dated_number_end(s, e0) {
            lemma_dash_year(s, e);
        }
    }
}

pub proof fn lemma_loose_match_at(s: Seq<char>, p: int)
    requires
        0 <= p,
        s.len() <= usize::MAX,
    ensures
        loose_match_at(s, p) is Some <==> head_at(s, p),
        loose_match_at(s, p) matches Some(m) ==> m.start == p && match_wf(s, m),
{
    if head_at(s, p) {
        lemma_prefix_end(s, p);
        let q = number_start(s, p);
        lemma_run_end(s, q, CharClass::Digit);
        let e0 = run_end(s, q, CharClass::Digit);
        lemma_number_last_end(s, e0);
        let e = number_last_end(s, e0);
        lemma_run_end(s, e, CharClass::Space);
        let a = run_end(s, e, CharClass::Space);
        let a2 = if a < s.len() && is_dash(s[a]) {
            a + 1
        } else {
            a
        };
        lemma_run_end(s, a2, CharClass::Space);
    }
}

pub proof fn lemma_dated_find(s: Seq<char>, from: int)
    requires
        0 <= from,
        s.len() <= usize::MAX,
    ensures
        dated_find(s, from) matches Some(m) ==> from <= m.start && match_wf(s, m) && m.year is Some
            && dated_match_at(s, m.start as int) == Some(m),
    decreases s.len() - from,
{
    if from < s.len() {
        lemma_dated_match_at(s, from);
        if dated_match_at(s, from) is None {
            lemma_dated_find(s, from + 1);
        }
    }
}

pub proof fn lemma_head_find(s: Seq<char>, from: int)
    requires
        0 <= from,
    ensures
        head_find(s, from) matches Some(p) ==> from <= p && head_at(s, p),
        head_find(s, from) is None ==> forall|p: int| from <= p ==> !head_at(s, p),
    decreases s.len() - from,
{
    if from < s.len() && !head_at(s, from) {
        lemma_head_find(s, from + 1);
    }
}

// ---------------------------------------------------------------- executable scanners

pub fn prefix_end_exec(s: &Vec<char>, p: usize) -> (r: usize)
    requires
        p <= s.len(),
    ensures
        r == prefix_end(s@, p as int),
        p <= r <= s.len(),
{
    let a = scan_run(s, p, CharClass::Letter);
    if a < s.len() && s[a] == '/' {
        scan_run(s, a + 1, CharClass::Letter)
    } else {
        a
    }
}

/// Whether a code head stands at `p`; when it does, also where its number starts.
pub fn head_at_exec(s: &Vec<char>, p: usize) -> (r: Option<usize>)
    requires
        p <= s.len(),
    ensures
        r is Some <==> head_at(s@, p as int),
        r matches Some(q) ==> q == number_start(s@, p as int),
{
    if p < s.len() && class_contains(CharClass::Letter, s[p]) {
        let pe = prefix_end_exec(s, p);
        let q = scan_run(s, pe, CharClass::Space);
        if q < s.len() && class_contains(CharClass::Digit, s[q]) {
            return Some(q);
        }
    }
    None
}

fn can_extend_exec(s: &Vec<char>, e: usize) -> (r: bool)
    requires
        e <= s.len(),
    ensures
        r == can_extend(s@, e as int),
{
    e < s.len() && e + 1 < s.len() && (s[e] == '.' || s[e] == '-') && class_contains(CharClass::Digit, s[e + 1])
}

fn four_digits_exec(s: &Vec<char>, b: usize) -> (r: bool)
    requires
        b <= s.len(),
    ensures
        r == four_digits_at(s@, b as int),
{
    if s.len() < 4 || b > s.len() - 4 {
        return false;
    }
    let mut k = b;
    while k < b + 4
        invariant
            b <= k <= b + 4 <= s.len(),
            forall|i: int| b <= i < k ==> is_digit(#[trigger] s@[i]),
        decreases b + 4 - k,
    {
        if !class_contains(CharClass::Digit, s[k]) {
            return false;
        }
        k = k + 1;
    }
    true
}

/// Whether a dash and a year follow a number ending at `e`; when they do, where the year starts.
fn dash_year_exec(s: &Vec<char>, e: usize) -> (r: Option<usize>)
    requires
        e <= s.len(),
    ensures
        r is Some <==> dash_year_at(s@, e as int),
        r matches Some(y) ==> y == dash_year_start(s@, e as int),
{
    let a = scan_run(s, e, CharClass::Space);
    if a < s.len() && (s[a] == '-' || s[a] == '\u{FF0D}' || s[a] == '\u{2014}') {
        let b = scan_run(s, a + 1, CharClass::Space);
        if four_digits_exec(s, b) {
            return Some(b);
        }
    }
    None
}

fn dated_number_end_exec(s: &Vec<char>, e: usize) -> (r: Option<usize>)
    requires
        e <= s.len(),
    ensures
        r matches Some(x) ==> dated_number_end(s@, e as int) == Some(x as int),
        r is None ==> dated_number_end(s@, e as int) is None,
    decreases s.len() - e,
{
    if can_extend_exec(s, e) {
        let next = scan_run(s, e + 1, CharClass::Digit);
        match dated_number_end_exec(s, next) {
            Some(x) => Some(x),
            None => if dash_year_exec(s, e).is_some() {
                Some(e)
            } else {
                None
            },
        }
    } else if dash_year_exec(s, e).is_some() {
        Some(e)
    } else {
        None
    }
}

fn number_last_end_exec(s: &Vec<char>, e: usize) -> (r: usize)
    requires
        e <= s.len(),
    ensures
        r == number_last_end(s@, e as int),
        e <= r <= s.len(),
{
    let mut k = e;
    while can_extend_exec(s, k)
        invariant
            e <= k <= s.len(),
            number_last_end(s@, k as int) == number_last_end(s@, e as int),
        decreases s.len() - k,
    {
        k = scan_run(s, k + 1, CharClass::Digit);
    }
    k
}

pub fn dated_match_at_exec(s: &Vec<char>, p: usize) -> (r: Option<CodeMatch>)
    requires
        p <= s.len(),
    ensures
        r == dated_match_at(s@, p as int),
{
    match head_at_exec(s, p) {
        Some(q) => {
            let e0 = scan_run(s, q, CharClass::Digit);
            match dated_number_end_exec(s, e0) {
                Some(e) => {
                    proof {
                        lemma_dated_number_end(s@, e0 as int);
                    }
                    let y = dash_year_exec(s, e).unwrap();
                    proof {
                        lemma_dash_year(s@, e as int);
                    }
                    let pe = prefix_end_exec(s, p);
                    Some(
                        CodeMatch {
                            start: p,
                            prefix_end: pe,
                            number_start: q,
                            number_end: e,
                            year: Some(y),
                            end: y + 4,
                        },
                    )
                },
                None => None,
            }
        },
        None => None,
    }
}

pub fn loose_match_at_exec(s: &Vec<char>, p: usize) -> (r: Option<CodeMatch>)
    requires
        p <= s.len(),
    ensures
        r == loose_match_at(s@, p as int),
{
    match head_at_exec(s, p) {
        Some(q) => {
            let e0 = scan_run(s, q, CharClass::Digit);
            let e = number_last_end_exec(s, e0);
            let a = scan_run(s, e, CharClass::Space);
            let a2 = if a < s.len() && (s[a] == '-' || s[a] == '\u{FF0D}' || s[a] == '\u{2014}') {
                a + 1
            } else {
                a
            };
            let b = scan_run(s, a2, CharClass::Space);
            let pe = prefix_end_exec(s, p);
            let has_year = four_digits_exec(s, b);
            Some(
                CodeMatch {
                    start: p,
                    prefix_end: pe,
                    number_start: q,
                    number_end: e,
                    year: if has_year {
                        Some(b)
                    } else {
                        None
                    },
                    end: if has_year {
                        b + 4
                    } else {
                        b
                    },
                },
            )
        },
        None => None,
    }
}

pub fn dated_find_exec(s: &Vec<char>, from: usize) -> (r: Option<CodeMatch>)
    requires
        from <= s.len(),
    ensures
        r == dated_find(s@, from as int),
{
    let mut p = from;
    while p < s.len()
        invariant
            from <= p <= s.len(),
            dated_find(s@, p as int) == dated_find(s@, from as int),
        decreases s.len() - p,
    {
        let m = dated_match_at_exec(s, p);
        if m.is_some() {
            return m;
        }
        p = p + 1;
    }
    None
}

/// All non-overlapping dated matches in `s`, left to right.
pub fn dated_all_exec(s: &Vec<char>) -> (r: Vec<CodeMatch>)
    ensures
        r@ == dated_all(s@, 0),
        forall|i: int| 0 <= i < r@.len() ==> match_wf(s@, #[trigger] r@[i]) && r@[i].year is Some,
{
    let mut r: Vec<CodeMatch> = Vec::new();
    let mut pos: usize = 0;
    loop
        invariant
            pos <= s.len(),
            r@ + dated_all(s@, pos as int) == dated_all(s@, 0),
            forall|i: int| 0 <= i < r@.len() ==> match_wf(s@, #[trigger] r@[i]) && r@[i].year is Some,
        decreases s.len() - pos,
    {
        let found = dated_find_exec(s, pos);
        proof {
            lemma_dated_find(s@, pos as int);
        }
        match found {
            Some(m) => {
                proof {
                    assert(dated_all(s@, pos as int) == seq![m] + dated_all(s@, m.end as int));
                    assert(r@.push(m) + dated_all(s@, m.end as int) == r@ + dated_all(
                        s@,
                        pos as int,
                    ));
                }
                r.push(m);
                pos = m.end;
            },
            None => {
                proof {
                    assert(r@ + dated_all(s@, pos as int) == r@);
                }
                return r;
            },
        }
    }
}

pub fn head_find_exec(s: &Vec<char>, from: usize) -> (r: Option<usize>)
    requires
        from <= s.len(),
    ensures
        r matches Some(p) ==> head_find(s@, from as int) == Some(p as int),
        r is None ==> head_find(s@, from as int) is None,
{
    let mut p = from;
    while p < s.len()
        invariant
            from <= p <= s.len(),
            head_find(s@, p as int) == head_find(s@, from as int),
        decreases s.len() - p,
    {
        if head_at_exec(s, p).is_some() {
            return Some(p);
        }
        p = p + 1;
    }
    None
}

/// The start of the last head match when the text is searched left to right
/// without overlaps.
pub fn head_last_exec(s: &Vec<char>) -> (r: Option<usize>)
    ensures
        r is None <==> head_all(s@, 0).len() == 0,
        r matches Some(p) ==> p == head_all(s@, 0).last(),
{
    let mut last: Option<usize> = None;
    let mut pos: usize = 0;
    let ghost mut seen: Seq<int> = Seq::empty();
    loop
        invariant
            pos <= s.len(),
            seen + head_all(s@, pos as int) == head_all(s@, 0),
            last is None <==> seen.len() == 0,
            last matches Some(p) ==> p == seen.last(),
        decreases s.len() - pos,
    {
        match head_find_exec(s, pos) {
            Some(p) => {
                proof {
                    lemma_head_find(s@, pos as int);
                    lemma_prefix_end(s@, p as int);
                    assert(head_all(s@, pos as int) == seq![p as int] + head_all(
                        s@,
                        number_start(s@, p as int) + 1,
                    ));
                    assert(seen.push(p as int) + head_all(s@, number_start(s@, p as int) + 1)
                        == seen + head_all(s@, pos as int));
                    seen = seen.push(p as int);
                }
                let q = head_at_exec(s, p).unwrap();
                last = Some(p);
                pos = q + 1;
            },
            None => {
                proof {
                    assert(seen + head_all(s@, pos as int) == seen);
                }
                return last;
            },
        }
    }
}

} // verus!
