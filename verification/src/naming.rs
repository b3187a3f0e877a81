//! How the name of a standard is found in the text around its code: a title in
//! `《》` marks, or the plain text after (or else before) the code, with notes in
//! `【】` brackets left out; or, in a table row, another cell that reads like a name.
use vstd::prelude::*;
use crate::grammar::{
    CodeMatch, head_all, head_find, head_find_exec, head_last_exec, lemma_head_find, match_wf,
};
use crate::text::{
    CharClass, run_end, lemma_run_end, scan_run, trim, trim_class, trim_chars, slice_chars,
    push_all, find_from, find_from_exec, lemma_find_from, views,
};

verus! {

// ---------------------------------------------------------------- splitting

/// The pieces of `s` from `start` on, cut at every `c` (`str::split`).
pub open spec fn split_from(s: Seq<char>, c: char, start: int) -> Seq<Seq<char>>
    decreases s.len() + 1 - start,
{
    if start < 0 || start > s.len() {
        Seq::empty()
    } else {
        match find_from(s, seq![c], start) {
            Some(i) => if start <= i < s.len() {
                seq![s.subrange(start, i)] + split_from(s, c, i + 1)
            } else {
                Seq::empty()
            },
            None => seq![s.subrange(start, s.len() as int)],
        }
    }
}

/// The lines of a text (its pieces between newlines).
pub open spec fn lines(s: Seq<char>) -> Seq<Seq<char>> {
    split_from(s, '\n', 0)
}

pub fn split_exec(s: &Vec<char>, c: char) -> (r: Vec<Vec<char>>)
    ensures
        views(r@) == split_from(s@, c, 0),
{
    let mut sep: Vec<char> = Vec::new();
    sep.push(c);
    let mut r: Vec<Vec<char>> = Vec::new();
    let mut start: usize = 0;
    loop
        invariant
            start <= s.len(),
            sep@ == seq![c],
            views(r@) + split_from(s@, c, start as int) == split_from(s@, c, 0),
        decreases s.len() - start,
    {
        let found = find_from_exec(s, &sep, start);
        proof {
            lemma_find_from(s@, sep@, start as int);
        }
        match found {
            Some(i) => {
                let piece = slice_chars(s, start, i);
                let ghost before = r@;
                r.push(piece);
                proof {
                    assert(views(r@) =~= views(before).push(s@.subrange(start as int, i as int)));
                    assert(split_from(s@, c, start as int) == seq![s@.subrange(start as int, i as int)]
                        + split_from(s@, c, i + 1));
                    assert(views(r@) + split_from(s@, c, i + 1) =~= views(before) + split_from(
                        s@,
                        c,
                        start as int,
                    ));
                }
                start = i + 1;
            },
            None => {
                let piece = slice_chars(s, start, s.len());
                let ghost before = r@;
                r.push(piece);
                proof {
                    assert(views(r@) =~= views(before).push(
                        s@.subrange(start as int, s@.len() as int),
                    ));
                    assert(views(r@) =~= views(before) + split_from(s@, c, start as int));
                }
                return r;
            },
        }
    }
}

/// `s` without any `c` (`str::replace(c, "")`).
pub open spec fn drop_char(s: Seq<char>, c: char) -> Seq<char>
    decreases s.len(),
{
    if s.len() == 0 {
        Seq::empty()
    } else {
        drop_char(s.drop_last(), c) + if s.last() == c {
            Seq::<char>::empty()
        } else {
            seq![s.last()]
        }
    }
}

pub fn drop_char_exec(s: &Vec<char>, c: char) -> (r: Vec<char>)
    ensures
        r@ == drop_char(s@, c),
{
    let mut r: Vec<char> = Vec::new();
    let mut k: usize = 0;
    while k < s.len()
        invariant
            k <= s.len(),
            r@ == drop_char(s@.take(k as int), c),
        decreases s.len() - k,
    {
        proof {
            assert(s@.take(k + 1).drop_last() == s@.take(k as int));
        }
        if s[k] != c {
            r.push(s[k]);
        }
        k = k + 1;
    }
    proof {
        assert(s@.take(s@.len() as int) == s@);
    }
    r
}

// ---------------------------------------------------------------- title marks 《》

/// A title `《...》` with at least one character inside starts at `p`.
pub open spec fn title_at(s: Seq<char>, p: int) -> bool {
    &&& 0 <= p < s.len()
    &&& s[p] == '《'
    &&& p + 1 < run_end(s, p + 1, CharClass::NotCloseTitle) < s.len()
}

/// Where the inside of the title at `p` ends (at its `》`).
pub open spec fn title_close(s: Seq<char>, p: int) -> int {
    run_end(s, p + 1, CharClass::NotCloseTitle)
}

/// The text inside the title at `p`.
pub open spec fn title_inner(s: Seq<char>, p: int) -> Seq<char> {
    s.subrange(p + 1, title_close(s, p))
}

pub open spec fn title_find(s: Seq<char>, from: int) -> Option<int>
    decreases s.len() - from,
{
    if from < 0 || from >= s.len() {
        None
    } else if title_at(s, from) {
        Some(from)
    } else {
        title_find(s, from + 1)
    }
}

/// The start of the last title when the text is searched left to right.
pub open spec fn title_last_from(s: Seq<char>, from: int, last: Option<int>) -> Option<int>
    decreases s.len() - from,
{
    match title_find(s, from) {
        Some(p) => if from < title_close(s, p) + 1 <= s.len() {
            title_last_from(s, title_close(s, p) + 1, Some(p))
        } else {
            Some(p)
        },
        None => last,
    }
}

pub proof fn lemma_title_find(s: Seq<char>, from: int)
    requires
        0 <= from,
    ensures
        title_find(s, from) matches Some(p) ==> from <= p && title_at(s, p),
    decreases s.len() - from,
{
    if from < s.len() && !title_at(s, from) {
        lemma_title_find(s, from + 1);
    }
}

fn title_at_exec(s: &Vec<char>, p: usize) -> (r: bool)
    requires
        p <= s.len(),
    ensures
        r == title_at(s@, p as int),
{
    p < s.len() && s[p] == '《' && {
        let r = scan_run(s, p + 1, CharClass::NotCloseTitle);
        p + 1 < r && r < s.len()
    }
}

pub fn title_find_exec(s: &Vec<char>, from: usize) -> (r: Option<usize>)
    requires
        from <= s.len(),
    ensures
        r matches Some(p) ==> title_find(s@, from as int) == Some(p as int),
        r is None ==> title_find(s@, from as int) is None,
{
    let mut p = from;
    while p < s.len()
        invariant
            from <= p <= s.len(),
            title_find(s@, p as int) == title_find(s@, from as int),
        decreases s.len() - p,
    {
        if title_at_exec(s, p) {
            return Some(p);
        }
        p = p + 1;
    }
    None
}

pub fn title_last_exec(s: &Vec<char>) -> (r: Option<usize>)
    ensures
        r matches Some(p) ==> title_last_from(s@, 0, None) == Some(p as int),
        r is None ==> title_last_from(s@, 0, None) is None,
{
    let mut last: Option<usize> = None;
    let mut pos: usize = 0;
    loop
        invariant
            pos <= s.len(),
            title_last_from(s@, pos as int, match last {
                Some(p) => Some(p as int),
                None => None,
            }) == title_last_from(s@, 0, None),
        decreases s.len() - pos,
    {
        match title_find_exec(s, pos) {
            Some(p) => {
                proof {
                    lemma_title_find(s@, pos as int);
                }
                let close = scan_run(s, p + 1, CharClass::NotCloseTitle);
                last = Some(p);
                pos = close + 1;
            },
            None => {
                return last;
            },
        }
    }
}

// ---------------------------------------------------------------- notes 【】

/// A note `【...】` starts at `p`.
pub open spec fn note_at(s: Seq<char>, p: int) -> bool {
    &&& 0 <= p < s.len()
    &&& s[p] == '【'
    &&& run_end(s, p + 1, CharClass::NotCloseLenticular) < s.len()
}

pub open spec fn note_find(s: Seq<char>, from: int) -> Option<int>
    decreases s.len() - from,
{
    if from < 0 || from >= s.len() {
        None
    } else if note_at(s, from) {
        Some(from)
    } else {
        note_find(s, from + 1)
    }
}

/// The text from `from` on with every note removed, left to right.
pub open spec fn drop_notes_from(s: Seq<char>, from: int) -> Seq<char>
    decreases s.len() - from,
{
    if from < 0 || from > s.len() {
        Seq::empty()
    } else {
        match note_find(s, from) {
            Some(p) => {
                let next = run_end(s, p + 1, CharClass::NotCloseLenticular) + 1;
                if from <= p && from < next <= s.len() {
                    s.subrange(from, p) + drop_notes_from(s, next)
                } else {
                    Seq::empty()
                }
            },
            None => s.subrange(from, s.len() as int),
        }
    }
}

/// The text with every `【...】` note removed.
pub open spec fn drop_notes(s: Seq<char>) -> Seq<char> {
    drop_notes_from(s, 0)
}

pub proof fn lemma_note_find(s: Seq<char>, from: int)
    requires
        0 <= from,
    ensures
        note_find(s, from) matches Some(p) ==> from <= p && note_at(s, p),
    decreases s.len() - from,
{
    if from < s.len() && !note_at(s, from) {
        lemma_note_find(s, from + 1);
    }
}

fn note_find_exec(s: &Vec<char>, from: usize) -> (r: Option<usize>)
    requires
        from <= s.len(),
    ensures
        r matches Some(p) ==> note_find(s@, from as int) == Some(p as int),
        r is None ==> note_find(s@, from as int) is None,
{
    let mut p = from;
    while p < s.len()
        invariant
            from <= p <= s.len(),
            note_find(s@, p as int) == note_find(s@, from as int),
        decreases s.len() - p,
    {
        if s[p] == '【' && scan_run(s, p + 1, CharClass::NotCloseLenticular) < s.len() {
            return Some(p);
        }
        p = p + 1;
    }
    None
}

pub fn drop_notes_exec(s: &Vec<char>) -> (r: Vec<char>)
    ensures
        r@ == drop_notes(s@),
{
    let mut r: Vec<char> = Vec::new();
    let mut pos: usize = 0;
    loop
        invariant
            pos <= s.len(),
            r@ + drop_notes_from(s@, pos as int) == drop_notes(s@),
        decreases s.len() - pos,
    {
        match note_find_exec(s, pos) {
            Some(p) => {
                proof {
                    lemma_note_find(s@, pos as int);
                    lemma_run_end(s@, p + 1, CharClass::NotCloseLenticular);
                }
                let close = scan_run(s, p + 1, CharClass::NotCloseLenticular);
                let piece = slice_chars(s, pos, p);
                let ghost before = r@;
                push_all(&mut r, &piece);
                proof {
                    assert(drop_notes_from(s@, pos as int) == s@.subrange(pos as int, p as int)
                        + drop_notes_from(s@, close + 1));
                    assert(r@ + drop_notes_from(s@, close + 1) =~= before + drop_notes_from(
                        s@,
                        pos as int,
                    ));
                }
                pos = close + 1;
            },
            None => {
                let piece = slice_chars(s, pos, s.len());
                push_all(&mut r, &piece);
                return r;
            },
        }
    }
}

// ---------------------------------------------------------------- trailing (...)

pub open spec fn is_open_paren(c: char) -> bool {
    c == '（' || c == '('
}

/// A parenthesised remark that closes the text (only white space after it) starts at `p`.
pub open spec fn paren_tail_at(s: Seq<char>, p: int) -> bool {
    &&& 0 <= p < s.len()
    &&& is_open_paren(s[p])
    &&& run_end(s, p + 1, CharClass::NotCloseParen) < s.len()
    &&& run_end(s, run_end(s, p + 1, CharClass::NotCloseParen) + 1, CharClass::Space) == s.len()
}

pub open spec fn paren_tail_find(s: Seq<char>, from: int) -> Option<int>
    decreases s.len() - from,
{
    if from < 0 || from >= s.len() {
        None
    } else if paren_tail_at(s, from) {
        Some(from)
    } else {
        paren_tail_find(s, from + 1)
    }
}

/// The text without a closing parenthesised remark, if it has one.
pub open spec fn drop_paren_tail(s: Seq<char>) -> Seq<char> {
    match paren_tail_find(s, 0) {
        Some(p) => s.take(p),
        None => s,
    }
}

pub proof fn lemma_paren_tail_find(s: Seq<char>, from: int)
    requires
        0 <= from,
    ensures
        paren_tail_find(s, from) matches Some(p) ==> from <= p < s.len(),
    decreases s.len() - from,
{
    if from < s.len() && !paren_tail_at(s, from) {
        lemma_paren_tail_find(s, from + 1);
    }
}

pub fn drop_paren_tail_exec(s: &Vec<char>) -> (r: Vec<char>)
    ensures
        r@ == drop_paren_tail(s@),
{
    let mut p: usize = 0;
    while p < s.len()
        invariant
            p <= s.len(),
            paren_tail_find(s@, p as int) == paren_tail_find(s@, 0),
        decreases s.len() - p,
    {
        if s[p] == '（' || s[p] == '(' {
            let close = scan_run(s, p + 1, CharClass::NotCloseParen);
            if close < s.len() && scan_run(s, close + 1, CharClass::Space) == s.len() {
                return slice_chars(s, 0, p);
            }
        }
        p = p + 1;
    }
    slice_chars(s, 0, s.len())
}

// ---------------------------------------------------------------- names beside a code

/// A name candidate taken from a title: newlines removed, trimmed.
pub open spec fn title_name(s: Seq<char>, p: int) -> Seq<char> {
    trim(drop_char(title_inner(s, p), '\n'))
}

/// Plain text used as a name: separators, then white space, trimmed off.
pub open spec fn plain_name(s: Seq<char>) -> Seq<char> {
    trim(trim_class(s, CharClass::NameSep))
}

/// The name of the standard whose code is matched by `m` in `segment`:
/// 1. the first title after the code, if not blank;
/// 2. else the last title before the code, if not blank;
/// 3. else the text after the code, without notes, up to the next code, if at least two characters long;
/// 4. else the text before the code, without notes, from the last code on, if at least two characters long;
/// 5. else nothing.
pub open spec fn name_beside(segment: Seq<char>, m: CodeMatch) -> Seq<char> {
    let after = segment.subrange(m.end as int, segment.len() as int);
    let before = segment.subrange(0, m.start as int);
    let first_after = title_find(after, 0);
    let last_before = title_last_from(before, 0, None);
    let after_clean = drop_notes(after);
    let after_cut = match head_find(after_clean, 0) {
        Some(p) => after_clean.take(p),
        None => after_clean,
    };
    let before_clean = drop_notes(before);
    let heads = head_all(before_clean, 0);
    let before_cut = if heads.len() > 0 {
        before_clean.take(heads.last())
    } else {
        before_clean
    };
    if first_after is Some && title_name(after, first_after->Some_0).len() > 0 {
        title_name(after, first_after->Some_0)
    } else if last_before is Some && title_name(before, last_before->Some_0).len() > 0 {
        title_name(before, last_before->Some_0)
    } else if plain_name(after_cut).len() >= 2 {
        plain_name(after_cut)
    } else if plain_name(before_cut).len() >= 2 {
        plain_name(before_cut)
    } else {
        Seq::empty()
    }
}

pub fn title_name_exec(s: &Vec<char>, p: usize) -> (r: Vec<char>)
    requires
        title_at(s@, p as int),
    ensures
        r@ == title_name(s@, p as int),
{
    assert(p < s.len());
    let close = scan_run(s, p + 1, CharClass::NotCloseTitle);
    let inner = slice_chars(s, p + 1, close);
    let joined = drop_char_exec(&inner, '\n');
    trim_chars(&joined, CharClass::Space)
}

fn plain_name_exec(s: &Vec<char>) -> (r: Vec<char>)
    ensures
        r@ == plain_name(s@),
{
    let t = trim_chars(s, CharClass::NameSep);
    trim_chars(&t, CharClass::Space)
}

pub fn name_beside_exec(segment: &Vec<char>, m: &CodeMatch) -> (r: Vec<char>)
    requires
        match_wf(segment@, *m),
    ensures
        r@ == name_beside(segment@, *m),
{
    let after = slice_chars(segment, m.end, segment.len());
    let before = slice_chars(segment, 0, m.start);
    match title_find_exec(&after, 0) {
        Some(p) => {
            proof {
                lemma_title_find(after@, 0);
            }
            let name = title_name_exec(&after, p);
            if name.len() > 0 {
                return name;
            }
        },
        None => {},
    }
    match title_last_exec(&before) {
        Some(p) => {
            proof {
                lemma_title_last(before@, 0, None);
            }
            let name = title_name_exec(&before, p);
            if name.len() > 0 {
                return name;
            }
        },
        None => {},
    }
    let after_clean = drop_notes_exec(&after);
    let after_cut = match head_find_exec(&after_clean, 0) {
        Some(p) => {
            proof {
                lemma_head_find(after_clean@, 0);
            }
            slice_chars(&after_clean, 0, p)
        },
        None => after_clean,
    };
    let after_text = plain_name_exec(&after_cut);
    if after_text.len() >= 2 {
        return after_text;
    }
    let before_clean = drop_notes_exec(&before);
    let before_cut = match head_last_exec(&before_clean) {
        Some(p) => {
            proof {
                lemma_head_all_bound(before_clean@, 0);
            }
            slice_chars(&before_clean, 0, p)
        },
        None => before_clean,
    };
    let before_text = plain_name_exec(&before_cut);
    if before_text.len() >= 2 {
        return before_text;
    }
    Vec::new()
}

pub proof fn lemma_title_last(s: Seq<char>, from: int, last: Option<int>)
    requires
        0 <= from,
        last matches Some(p) ==> title_at(s, p),
    ensures
        title_last_from(s, from, last) matches Some(p) ==> title_at(s, p),
    decreases s.len() - from,
{
    lemma_title_find(s, from);
    if let Some(p) = title_find(s, from) {
        if from < title_close(s, p) + 1 <= s.len() {
            lemma_title_last(s, title_close(s, p) + 1, Some(p));
        }
    }
}

pub proof fn lemma_head_all_bound(s: Seq<char>, from: int)
    requires
        0 <= from,
    ensures
        forall|i: int| 0 <= i < head_all(s, from).len() ==> from <= #[trigger] head_all(s, from)[i] < s.len(),
    decreases s.len() - from,
{
    lemma_head_find(s, from);
    if let Some(p) = head_find(s, from) {
        let next = crate::grammar::number_start(s, p) + 1;
        if from < next <= s.len() {
            lemma_head_all_bound(s, next);
            let rest = head_all(s, next);
            assert(head_all(s, from) == seq![p] + rest);
            assert forall|i: int| 0 <= i < head_all(s, from).len() implies from <= #[trigger] head_all(
                s,
                from,
            )[i] < s.len() by {
                if i > 0 {
                    assert(head_all(s, from)[i] == rest[i - 1]);
                }
            }
        } else {
            assert(head_all(s, from) == seq![p]);
        }
    }
}

/// When no title after a code gives a name, the last title before it does, if
/// it is not blank, whatever plain text follows the code.
pub proof fn law_title_before_beats_text_after(segment: Seq<char>, m: CodeMatch, q: int)
    requires
        !(title_find(segment.subrange(m.end as int, segment.len() as int), 0) matches Some(p)
            && title_name(segment.subrange(m.end as int, segment.len() as int), p).len() > 0),
        title_last_from(segment.subrange(0, m.start as int), 0, None) == Some(q),
        title_name(segment.subrange(0, m.start as int), q).len() > 0,
    ensures
        name_beside(segment, m) == title_name(segment.subrange(0, m.start as int), q),
{
}

/// A title after a code that is not blank gives its name.
pub proof fn law_title_after_first(segment: Seq<char>, m: CodeMatch, p: int)
    requires
        title_find(segment.subrange(m.end as int, segment.len() as int), 0) == Some(p),
        title_name(segment.subrange(m.end as int, segment.len() as int), p).len() > 0,
    ensures
        name_beside(segment, m) == title_name(segment.subrange(m.end as int, segment.len() as int), p),
{
}

} // verus!
