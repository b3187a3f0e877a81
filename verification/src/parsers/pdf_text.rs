//! Reading standard entries out of the text of a PDF appendix.
//!
//! Laying out a page (its words, lines and table grid) works on floating-point
//! coordinates and is left to the caller, which hands over, page by page, the
//! text of each table column or, for a page without a table, the page's text in
//! reading order.
use vstd::prelude::*;
use crate::grammar::{CodeMatch, dated_all, dated_all_exec, dated_code_text, match_wf};
use crate::models::StandardEntry;
use crate::naming::{
    drop_char, drop_char_exec, lemma_title_find, lemma_title_last, title_find, title_find_exec,
    title_last_exec, title_last_from, title_name, title_name_exec,
};
use crate::parsers::entries::{EntryView, codes_distinct, drawn_from, entry_view, entry_views};
use crate::services::standard_parser::{normalize_chars, normalized};
use crate::patterns::{capture_first_group, first_group};
use crate::text::{
    CharClass, chars_equal, chars_of, class_contains, is_digit, is_letter, lemma_run_end,
    lemma_run_start, push_all, run_end, scan_run, slice_chars, string_of, string_push, trim_chars, trim_class,
};

verus! {

// ---------------------------------------------------------------- UTF-8 widths

/// The number of bytes of `c` in UTF-8.
pub open spec fn char_width(c: char) -> int {
    if c <= '\u{7f}' {
        1
    } else if c <= '\u{7ff}' {
        2
    } else if c <= '\u{ffff}' {
        3
    } else {
        4
    }
}

/// The number of bytes of `s` in UTF-8.
pub open spec fn byte_len(s: Seq<char>) -> int
    decreases s.len(),
{
    if s.len() == 0 {
        0
    } else {
        byte_len(s.drop_last()) + char_width(s.last())
    }
}

/// The end of the characters from `from` on that fit in `budget` bytes.
pub open spec fn fwd_reach(s: Seq<char>, from: int, budget: int) -> int
    decreases s.len() - from,
{
    if from < 0 || from >= s.len() || char_width(s[from]) > budget {
        from
    } else {
        fwd_reach(s, from + 1, budget - char_width(s[from]))
    }
}

/// Going back from `end`, where the characters first cover `need` bytes (or
/// the start of the text).
pub open spec fn back_reach(s: Seq<char>, end: int, need: int) -> int
    decreases end,
{
    if end <= 0 || end > s.len() || need <= 0 {
        end
    } else {
        back_reach(s, end - 1, need - char_width(s[end - 1]))
    }
}

pub proof fn lemma_fwd_reach(s: Seq<char>, from: int, budget: int)
    requires
        0 <= from <= s.len(),
    ensures
        from <= fwd_reach(s, from, budget) <= s.len(),
    decreases s.len() - from,
{
    if from < s.len() && char_width(s[from]) <= budget {
        lemma_fwd_reach(s, from + 1, budget - char_width(s[from]));
    }
}

pub proof fn lemma_back_reach(s: Seq<char>, end: int, need: int)
    requires
        0 <= end <= s.len(),
    ensures
        0 <= back_reach(s, end, need) <= end,
    decreases end,
{
    if end > 0 && need > 0 {
        lemma_back_reach(s, end - 1, need - char_width(s[end - 1]));
    }
}

fn char_width_exec(c: char) -> (r: usize)
    ensures
        r == char_width(c),
{
    if c <= '\u{7f}' {
        1
    } else if c <= '\u{7ff}' {
        2
    } else if c <= '\u{ffff}' {
        3
    } else {
        4
    }
}

fn fwd_reach_exec(s: &Vec<char>, from: usize, budget: usize) -> (r: usize)
    requires
        from <= s.len(),
    ensures
        r == fwd_reach(s@, from as int, budget as int),
        from <= r <= s.len(),
{
    let mut j = from;
    let mut left = budget;
    proof {
        lemma_fwd_reach(s@, from as int, budget as int);
    }
    while j < s.len() && char_width_exec(s[j]) <= left
        invariant
            from <= j <= s.len(),
            fwd_reach(s@, j as int, left as int) == fwd_reach(s@, from as int, budget as int),
        decreases s.len() - j,
    {
        left = left - char_width_exec(s[j]);
        j = j + 1;
    }
    j
}

fn back_reach_exec(s: &Vec<char>, end: usize, need: usize) -> (r: usize)
    requires
        end <= s.len(),
    ensures
        r == back_reach(s@, end as int, need as int),
        r <= end,
{
    let mut j = end;
    let mut left = need;
    while j > 0 && left > 0
        invariant
            j <= end,
            end <= s.len(),
            back_reach(s@, j as int, left as int) == back_reach(s@, end as int, need as int),
        decreases j,
    {
        let w = char_width_exec(s[j - 1]);
        proof {
            assert(back_reach(s@, j as int, left as int) == back_reach(s@, j - 1, left - w));
            if w >= left {
                assert(back_reach(s@, j - 1, left - w) == j - 1);
                assert(back_reach(s@, j - 1, 0) == j - 1);
            }
        }
        if w >= left {
            left = 0;
        } else {
            left = left - w;
        }
        j = j - 1;
    }
    j
}

/// The largest character boundary of `s` at or before byte `idx` (the end of
/// `s` when `idx` lies past it).
pub fn floor_char_boundary(s: &str, idx: usize) -> (r: usize)
    ensures
        r == byte_len(s@.take(fwd_reach(s@, 0, idx as int))),
{
    let chars = chars_of(s);
    let mut j: usize = 0;
    let mut off: usize = 0;
    proof {
        assert(chars@.take(0) =~= Seq::<char>::empty());
    }
    while j < chars.len() && char_width_exec(chars[j]) <= idx - off
        invariant
            j <= chars.len(),
            chars@ == s@,
            off <= idx,
            off == byte_len(chars@.take(j as int)),
            fwd_reach(chars@, j as int, idx - off) == fwd_reach(chars@, 0, idx as int),
        decreases chars.len() - j,
    {
        proof {
            assert(chars@.take(j + 1).drop_last() =~= chars@.take(j as int));
        }
        off = off + char_width_exec(chars[j]);
        j = j + 1;
    }
    off
}

// ---------------------------------------------------------------- glyph codes

/// The character codes of a text-showing string: big-endian pairs of bytes
/// for a two-byte (CID) font, single bytes otherwise; a trailing odd byte is
/// left out.
pub open spec fn glyph_codes_of(b: Seq<u8>, two_byte: bool) -> Seq<u16> {
    if two_byte {
        Seq::new(b.len() / 2, |k: int| (b[2 * k] as int * 256 + b[2 * k + 1] as int) as u16)
    } else {
        Seq::new(b.len(), |k: int| b[k] as u16)
    }
}

/// The character codes of a text-showing string, to be looked up in the
/// font's map.
pub fn glyph_codes(bytes: &Vec<u8>, two_byte: bool) -> (r: Vec<u16>)
    ensures
        r@ == glyph_codes_of(bytes@, two_byte),
{
    let mut r: Vec<u16> = Vec::new();
    if two_byte {
        let mut k: usize = 0;
        while k < bytes.len() / 2
            invariant
                k <= bytes.len() / 2,
                r@.len() == k,
                forall|j: int| 0 <= j < k ==> r@[j] == (bytes@[2 * j] as int * 256 + bytes@[2 * j + 1] as int) as u16,
            decreases bytes.len() / 2 - k,
        {
            let hi = bytes[2 * k] as u16;
            let lo = bytes[2 * k + 1] as u16;
            r.push(hi * 256 + lo);
            k = k + 1;
        }
    } else {
        let mut k: usize = 0;
        while k < bytes.len()
            invariant
                k <= bytes.len(),
                r@.len() == k,
                forall|j: int| 0 <= j < k ==> r@[j] == bytes@[j] as u16,
            decreases bytes.len() - k,
        {
            r.push(bytes[k] as u16);
            k = k + 1;
        }
    }
    proof {
        assert(r@ =~= glyph_codes_of(bytes@, two_byte));
    }
    r
}

// ---------------------------------------------------------------- noise before a name

/// `c` is a decimal digit in Unicode's sense: `\d` of `regex` matches it.
pub open spec fn unicode_digit(c: char) -> bool {
    first_group("^(\\d)$"@, seq![c]) is Some
}

fn is_unicode_digit(c: char) -> (r: bool)
    ensures
        r == unicode_digit(c),
{
    let mut s = String::new();
    string_push(&mut s, c);
    proof {
        assert(s@ =~= seq![c]);
    }
    capture_first_group("^(\\d)$", s.as_str()).is_some()
}

/// A run of at least six Unicode digits ends at `e` (and no digit follows).
pub open spec fn long_run_ends(s: Seq<char>, e: int) -> bool {
    &&& 6 <= e <= s.len()
    &&& (e == s.len() || !unicode_digit(s[e]))
    &&& forall|k: int| e - 6 <= k < e ==> unicode_digit(#[trigger] s[k])
}

/// The end of the last run of at least six digits ending at or before `j`, 0
/// when there is none.
pub open spec fn last_long_run(s: Seq<char>, j: int) -> int
    decreases j,
{
    if j < 6 {
        0
    } else if long_run_ends(s, j) {
        j
    } else {
        last_long_run(s, j - 1)
    }
}

/// The text after the last piece of noise (letters followed by six digits or
/// more, such as a telephone or certificate number), or all of it.
pub open spec fn noise_tail(s: Seq<char>) -> Seq<char> {
    s.skip(last_long_run(s, s.len() as int))
}

proof fn lemma_last_long_run(s: Seq<char>, j: int)
    requires
        j <= s.len(),
    ensures
        0 <= last_long_run(s, j) <= s.len(),
        last_long_run(s, j) <= j || last_long_run(s, j) == 0,
    decreases j,
{
    if j >= 6 && !long_run_ends(s, j) {
        lemma_last_long_run(s, j - 1);
    }
}

fn long_run_ends_exec(s: &Vec<char>, digit: &Vec<bool>, j: usize) -> (r: bool)
    requires
        6 <= j <= s.len(),
        digit@.len() == s.len(),
        forall|i: int| 0 <= i < s.len() ==> digit@[i] == unicode_digit(#[trigger] s@[i]),
    ensures
        r == long_run_ends(s@, j as int),
{
    if j < s.len() && digit[j] {
        return false;
    }
    let mut i = j - 6;
    while i < j
        invariant
            j - 6 <= i <= j,
            j <= s.len(),
            digit@.len() == s.len(),
            forall|t: int| 0 <= t < s.len() ==> digit@[t] == unicode_digit(#[trigger] s@[t]),
            forall|t: int| j - 6 <= t < i ==> unicode_digit(#[trigger] s@[t]),
        decreases j - i,
    {
        if !digit[i] {
            proof {
                assert(!unicode_digit(s@[i as int]));
            }
            return false;
        }
        i = i + 1;
    }
    true
}

fn noise_tail_exec(s: &Vec<char>) -> (r: Vec<char>)
    ensures
        r@ == noise_tail(s@),
{
    let mut digit: Vec<bool> = Vec::new();
    let mut k: usize = 0;
    while k < s.len()
        invariant
            k <= s.len(),
            digit@.len() == k,
            forall|i: int| 0 <= i < k ==> digit@[i] == unicode_digit(#[trigger] s@[i]),
        decreases s.len() - k,
    {
        let d = is_unicode_digit(s[k]);
        digit.push(d);
        k = k + 1;
    }
    let mut j = s.len();
    while j >= 6
        invariant
            j <= s.len(),
            digit@.len() == s.len(),
            forall|i: int| 0 <= i < s.len() ==> digit@[i] == unicode_digit(#[trigger] s@[i]),
            last_long_run(s@, j as int) == last_long_run(s@, s.len() as int),
        decreases j,
    {
        if long_run_ends_exec(s, &digit, j) {
            return slice_chars(s, j, s.len());
        }
        j = j - 1;
    }
    slice_chars(s, 0, s.len())
}

// ---------------------------------------------------------------- names

/// The end of a dotted number that continues at `e` (`.` and digits, again and
/// again), or `e` where none continues.
pub open spec fn dotted_end(s: Seq<char>, e: int) -> int
    decreases s.len() - e,
{
    if 0 <= e && e + 1 < s.len() && s[e] == '.' && is_digit(s[e + 1]) {
        proof {
            lemma_run_end(s, e + 1, CharClass::Digit);
        }
        dotted_end(s, run_end(s, e + 1, CharClass::Digit))
    } else {
        e
    }
}

/// Where a leading clause number of `s` ends (digits, then one or more groups
/// of `.` and digits, such as `4.1` or `7.5.9`), when one is there and is not
/// followed by a letter or a dot.
pub open spec fn clause_end(s: Seq<char>) -> Option<int> {
    let a = run_end(s, 0, CharClass::Digit);
    let d = dotted_end(s, a);
    if a > 0 && d > a && (d == s.len() || (!is_letter(s[d]) && s[d] != '.')) {
        Some(d)
    } else {
        None
    }
}

/// A name without its leading clause numbers (each with the separators and
/// white space after it).
pub open spec fn drop_clause(s: Seq<char>) -> Seq<char>
    decreases s.len(),
{
    match clause_end(s) {
        Some(d) => {
            proof {
                lemma_clause_end(s);
                lemma_trim_class_len(s.skip(d), CharClass::SepOrSpace);
            }
            drop_clause(trim_class(s.skip(d), CharClass::SepOrSpace))
        },
        None => s,
    }
}

pub proof fn lemma_clause_end(s: Seq<char>)
    ensures
        clause_end(s) matches Some(d) ==> 0 < d <= s.len(),
{
    lemma_run_end(s, 0, CharClass::Digit);
    lemma_dotted_end(s, run_end(s, 0, CharClass::Digit));
}

pub proof fn lemma_trim_class_len(s: Seq<char>, cls: CharClass)
    ensures
        trim_class(s, cls).len() <= s.len(),
{
    lemma_run_end(s, 0, cls);
    lemma_run_start(s, s.len() as int, cls);
}

/// No name found in a PDF begins with a clause number.
pub proof fn law_names_without_clause_numbers(s: Seq<char>)
    ensures
        clause_end(drop_clause(s)) is None,
    decreases s.len(),
{
    if let Some(d) = clause_end(s) {
        lemma_clause_end(s);
        lemma_trim_class_len(s.skip(d), CharClass::SepOrSpace);
        law_names_without_clause_numbers(trim_class(s.skip(d), CharClass::SepOrSpace));
    }
}

/// The name of the standard whose code `m` ends a stretch of `text` that began
/// at `prev_end`, without a leading clause number.
pub open spec fn pdf_name(text: Seq<char>, m: CodeMatch, prev_end: int, table: bool) -> Seq<char> {
    drop_clause(pdf_raw_name(text, m, prev_end, table))
}

/// The name as found:
/// 1. the first title in the 150 bytes after the code;
/// 2. in a table column, else the last title in the 150 bytes before the code;
/// 3. else the text since the previous code, without newlines, after the last
///    piece of noise, with separators and white space trimmed off.
pub open spec fn pdf_raw_name(text: Seq<char>, m: CodeMatch, prev_end: int, table: bool) -> Seq<char> {
    let after = text.subrange(m.end as int, fwd_reach(text, m.end as int, 150));
    let before = text.subrange(back_reach(text, m.start as int, 150), m.start as int);
    match title_find(after, 0) {
        Some(p) => title_name(after, p),
        None => match title_last_from(before, 0, None) {
            Some(q) if table => title_name(before, q),
            _ => trim_class(
                noise_tail(drop_char(text.subrange(prev_end, m.start as int), '\n')),
                CharClass::SepOrSpace,
            ),
        },
    }
}

/// Where the stretch before match `k` begins: the end of the previous match.
pub open spec fn prev_end_of(ms: Seq<CodeMatch>, k: int) -> int {
    if k == 0 {
        0
    } else {
        ms[k - 1].end as int
    }
}

/// The entries of one column (or page) text, in order, before any is dropped
/// as a repeat.
pub open spec fn block_items(text: Seq<char>, table: bool, page: u32) -> Seq<EntryView> {
    let ms = dated_all(text, 0);
    Seq::new(
        ms.len(),
        |k: int|
            (
                dated_code_text(text, ms[k]),
                pdf_name(text, ms[k], prev_end_of(ms, k), table),
                Some(page),
                Seq::<char>::empty(),
            ),
    )
}

proof fn lemma_dotted_end(s: Seq<char>, e: int)
    requires
        0 <= e <= s.len(),
    ensures
        e <= dotted_end(s, e) <= s.len(),
    decreases s.len() - e,
{
    if e + 1 < s.len() && s[e] == '.' && is_digit(s[e + 1]) {
        lemma_run_end(s, e + 1, CharClass::Digit);
        lemma_dotted_end(s, run_end(s, e + 1, CharClass::Digit));
    }
}

fn dotted_end_exec(s: &Vec<char>, e: usize) -> (r: usize)
    requires
        e <= s.len(),
    ensures
        r == dotted_end(s@, e as int),
        e <= r <= s.len(),
{
    let mut k = e;
    while s.len() > 0 && k < s.len() - 1 && s[k] == '.' && class_contains(CharClass::Digit, s[k + 1])
        invariant
            e <= k <= s.len(),
            dotted_end(s@, k as int) == dotted_end(s@, e as int),
        decreases s.len() - k,
    {
        proof {
            lemma_run_end(s@, k + 1, CharClass::Digit);
        }
        k = scan_run(s, k + 1, CharClass::Digit);
    }
    proof {
        lemma_dotted_end(s@, k as int);
    }
    k
}

fn drop_clause_exec(s: &Vec<char>) -> (r: Vec<char>)
    ensures
        r@ == drop_clause(s@),
{
    let mut cur = slice_chars(s, 0, s.len());
    proof {
        assert(cur@ =~= s@);
    }
    loop
        invariant
            drop_clause(cur@) == drop_clause(s@),
        decreases cur.len(),
    {
        let a = scan_run(&cur, 0, CharClass::Digit);
        let d = dotted_end_exec(&cur, a);
        if a > 0 && d > a && (d == cur.len() || (!class_contains(CharClass::Letter, cur[d]) && cur[d]
            != '.')) {
            let rest = slice_chars(&cur, d, cur.len());
            proof {
                assert(rest@ =~= cur@.skip(d as int));
                lemma_trim_class_len(rest@, CharClass::SepOrSpace);
            }
            cur = trim_chars(&rest, CharClass::SepOrSpace);
        } else {
            return cur;
        }
    }
}

fn pdf_name_exec(text: &Vec<char>, m: &CodeMatch, prev_end: usize, table: bool) -> (r: Vec<char>)
    requires
        match_wf(text@, *m),
        prev_end <= m.start,
    ensures
        r@ == pdf_name(text@, *m, prev_end as int, table),
{
    let raw = pdf_raw_name_exec(text, m, prev_end, table);
    drop_clause_exec(&raw)
}

fn pdf_raw_name_exec(text: &Vec<char>, m: &CodeMatch, prev_end: usize, table: bool) -> (r: Vec<char>)
    requires
        match_wf(text@, *m),
        prev_end <= m.start,
    ensures
        r@ == pdf_raw_name(text@, *m, prev_end as int, table),
{
    let after_end = fwd_reach_exec(text, m.end, 150);
    let after = slice_chars(text, m.end, after_end);
    match title_find_exec(&after, 0) {
        Some(p) => {
            proof {
                lemma_title_find(after@, 0);
            }
            return title_name_exec(&after, p);
        },
        None => {},
    }
    let before_start = back_reach_exec(text, m.start, 150);
    let before = slice_chars(text, before_start, m.start);
    if table {
        match title_last_exec(&before) {
            Some(q) => {
                proof {
                    lemma_title_last(before@, 0, None);
                }
                return title_name_exec(&before, q);
            },
            None => {},
        }
    }
    let seg = slice_chars(text, prev_end, m.start);
    let joined = drop_char_exec(&seg, '\n');
    let tail = noise_tail_exec(&joined);
    trim_chars(&tail, CharClass::SepOrSpace)
}

fn code_text_exec(text: &Vec<char>, m: &CodeMatch) -> (r: Vec<char>)
    requires
        match_wf(text@, *m),
        m.year is Some,
    ensures
        r@ == dated_code_text(text@, *m),
{
    let y = m.year.unwrap();
    let mut r = slice_chars(text, m.start, m.prefix_end);
    r.push(' ');
    let num = slice_chars(text, m.number_start, m.number_end);
    push_all(&mut r, &num);
    r.push('-');
    let year = slice_chars(text, y, y + 4);
    push_all(&mut r, &year);
    r
}

fn block_entries(text: &Vec<char>, table: bool, page: u32) -> (r: Vec<StandardEntry>)
    ensures
        entry_views(r@) == block_items(text@, table, page),
{
    let ms = dated_all_exec(text);
    let ghost items = block_items(text@, table, page);
    let mut r: Vec<StandardEntry> = Vec::new();
    let mut prev_end: usize = 0;
    let mut k: usize = 0;
    while k < ms.len()
        invariant
            k <= ms.len(),
            ms@ == dated_all(text@, 0),
            items == block_items(text@, table, page),
            forall|i: int| 0 <= i < ms@.len() ==> match_wf(text@, #[trigger] ms@[i]) && ms@[i].year is Some,
            prev_end == prev_end_of(ms@, k as int),
            prev_end <= text.len(),
            k > 0 ==> prev_end == ms@[k - 1].end,
            entry_views(r@) == items.take(k as int),
        decreases ms.len() - k,
    {
        let m = ms[k];
        proof {
            if k > 0 {
                lemma_matches_ordered(text@, k as int);
            }
        }
        let code = code_text_exec(text, &m);
        let name = pdf_name_exec(text, &m, prev_end, table);
        let e = StandardEntry {
            code: string_of(&code),
            name: string_of(&name),
            page: Some(page),
            sheet: String::new(),
        };
        let ghost before = r@;
        r.push(e);
        proof {
            assert(entry_views(r@) =~= entry_views(before).push(entry_view(e)));
            assert(items.take(k + 1) =~= items.take(k as int).push(items[k as int]));
        }
        prev_end = m.end;
        k = k + 1;
    }
    proof {
        assert(items.take(ms@.len() as int) =~= items);
    }
    r
}

/// Successive dated matches do not overlap: each starts at or after the end
/// of the one before.
proof fn lemma_matches_ordered(s: Seq<char>, k: int)
    requires
        s.len() <= usize::MAX,
        0 < k < dated_all(s, 0).len(),
    ensures
        dated_all(s, 0)[k - 1].end <= dated_all(s, 0)[k].start,
{
    lemma_dated_all_ordered(s, 0, k);
}

proof fn lemma_dated_all_ordered(s: Seq<char>, from: int, k: int)
    requires
        s.len() <= usize::MAX,
        0 <= from,
        0 < k < dated_all(s, from).len(),
    ensures
        dated_all(s, from)[k - 1].end <= dated_all(s, from)[k].start,
    decreases s.len() - from,
{
    crate::grammar::lemma_dated_find(s, from);
    let m = crate::grammar::dated_find(s, from).unwrap();
    if from < m.end <= s.len() {
        let rest = dated_all(s, m.end as int);
        if k == 1 {
            crate::grammar::lemma_dated_find(s, m.end as int);
        } else {
            lemma_dated_all_ordered(s, m.end as int, k - 1);
        }
    }
}

// ---------------------------------------------------------------- a whole file

/// The texts read from one page: its number, whether it holds a table, and the
/// text of each non-empty column (or the page's whole text).
#[derive(Debug, Clone, PartialEq, Eq)]
pub struct PageText {
    pub page: u32,
    pub table: bool,
    pub blocks: Vec<String>,
}

pub open spec fn page_items(p: PageText) -> Seq<EntryView> {
    pages_blocks(p.blocks@, p.table, p.page)
}

pub open spec fn pages_blocks(blocks: Seq<String>, table: bool, page: u32) -> Seq<EntryView>
    decreases blocks.len(),
{
    if blocks.len() == 0 {
        Seq::empty()
    } else {
        pages_blocks(blocks.drop_last(), table, page) + block_items(blocks.last()@, table, page)
    }
}

pub open spec fn file_items(pages: Seq<PageText>) -> Seq<EntryView>
    decreases pages.len(),
{
    if pages.len() == 0 {
        Seq::empty()
    } else {
        file_items(pages.drop_last()) + page_items(pages.last())
    }
}

/// A code, normalised, occurs among the first `n` items.
pub open spec fn seen_before(items: Seq<EntryView>, n: int, key: Seq<char>) -> bool {
    exists|i: int| 0 <= i < n && normalized(#[trigger] items[i].0) == key
}

/// The items whose code, normalised, did not occur before them.
pub open spec fn first_of_each(items: Seq<EntryView>) -> Seq<EntryView>
    decreases items.len(),
{
    if items.len() == 0 {
        Seq::empty()
    } else {
        let rest = first_of_each(items.drop_last());
        if seen_before(items, items.len() - 1, normalized(items.last().0)) {
            rest
        } else {
            rest.push(items.last())
        }
    }
}

/// The entries of a PDF file: those of each page in turn, each code kept at
/// its first occurrence.
pub fn pdf_entries(pages: &Vec<PageText>) -> (r: Vec<StandardEntry>)
    ensures
        entry_views(r@) == first_of_each(file_items(pages@)),
{
    let mut all: Vec<StandardEntry> = Vec::new();
    let mut i: usize = 0;
    while i < pages.len()
        invariant
            i <= pages.len(),
            entry_views(all@) == file_items(pages@.take(i as int)),
        decreases pages.len() - i,
    {
        let page = &pages[i];
        let mut b: usize = 0;
        let ghost before_page = entry_views(all@);
        proof {
            assert(page.blocks@.take(0) =~= Seq::<String>::empty());
            assert(before_page + pages_blocks(page.blocks@.take(0), page.table, page.page) =~= before_page);
        }
        while b < page.blocks.len()
            invariant
                b <= page.blocks.len(),
                entry_views(all@) == before_page + pages_blocks(page.blocks@.take(b as int), page.table, page.page),
            decreases page.blocks.len() - b,
        {
            let text = chars_of(page.blocks[b].as_str());
            let es = block_entries(&text, page.table, page.page);
            let ghost pre = all@;
            let ghost added = es@;
            let mut es_mut = es;
            all.append(&mut es_mut);
            proof {
                assert(entry_views(all@) =~= entry_views(pre) + entry_views(added));
                assert(page.blocks@.take(b + 1).drop_last() =~= page.blocks@.take(b as int));
                assert(page.blocks@.take(b + 1).last() == page.blocks@[b as int]);
            }
            b = b + 1;
        }
        proof {
            assert(page.blocks@.take(page.blocks@.len() as int) =~= page.blocks@);
            assert(pages@.take(i + 1).drop_last() =~= pages@.take(i as int));
            assert(pages@.take(i + 1).last() == pages@[i as int]);
        }
        i = i + 1;
    }
    proof {
        assert(pages@.take(pages@.len() as int) =~= pages@);
    }
    keep_first_of_each(all)
}

fn keep_first_of_each(items: Vec<StandardEntry>) -> (r: Vec<StandardEntry>)
    ensures
        entry_views(r@) == first_of_each(entry_views(items@)),
{
    let ghost iv = entry_views(items@);
    let mut keys: Vec<Vec<char>> = Vec::new();
    let mut r: Vec<StandardEntry> = Vec::new();
    let mut k: usize = 0;
    while k < items.len()
        invariant
            k <= items.len(),
            iv == entry_views(items@),
            keys@.len() == k,
            forall|j: int| 0 <= j < k ==> (#[trigger] keys@[j])@ == normalized(iv[j].0),
            entry_views(r@) == first_of_each(iv.take(k as int)),
        decreases items.len() - k,
    {
        let key = normalize_chars(items[k].code.as_str());
        let mut seen = false;
        let mut j: usize = 0;
        while j < k && !seen
            invariant
                j <= k,
                k < items.len(),
                keys@.len() == k,
                iv == entry_views(items@),
                forall|t: int| 0 <= t < k ==> (#[trigger] keys@[t])@ == normalized(iv[t].0),
                key@ == normalized(iv[k as int].0),
                seen ==> seen_before(iv, k as int, key@),
                !seen ==> forall|t: int| 0 <= t < j ==> normalized(#[trigger] iv[t].0) != key@,
            decreases k - j,
        {
            if chars_equal(&keys[j], &key) {
                seen = true;
                proof {
                    assert(normalized(iv[j as int].0) == key@);
                }
            }
            j = j + 1;
        }
        proof {
            let t = iv.take(k + 1);
            assert(t.drop_last() =~= iv.take(k as int));
            assert(t.last() == iv[k as int]);
            if seen {
                let w = choose|i: int| 0 <= i < k && normalized(#[trigger] iv[i].0) == key@;
                assert(t[w] == iv[w]);
                assert(seen_before(t, k as int, key@));
            } else {
                assert forall|i: int| 0 <= i < k implies normalized(#[trigger] t[i].0) != key@ by {
                    assert(t[i] == iv[i]);
                }
                assert(!seen_before(t, k as int, key@));
            }
        }
        if !seen {
            let ghost before = r@;
            r.push(items[k].duplicate());
            proof {
                assert(entry_views(r@) =~= entry_views(before).push(iv[k as int]));
            }
        }
        keys.push(key);
        k = k + 1;
    }
    proof {
        assert(iv.take(iv.len() as int) =~= iv);
    }
    r
}

// ---------------------------------------------------------------- laws

/// Every code of `items`, normalised, is the code of some entry of `d`.
pub open spec fn keys_covered(items: Seq<EntryView>, d: Seq<EntryView>) -> bool {
    forall|i: int|
        0 <= i < items.len() ==> exists|k: int|
            0 <= k < d.len() && normalized(#[trigger] d[k].0) == normalized(#[trigger] items[i].0)
}

/// Every item whose code did not occur before it is kept as it is.
pub open spec fn firsts_kept(items: Seq<EntryView>, d: Seq<EntryView>) -> bool {
    forall|i: int|
        0 <= i < items.len() && !seen_before(items, i, normalized(items[i].0)) ==> exists|k: int|
            0 <= k < d.len() && #[trigger] d[k] == #[trigger] items[i]
}

proof fn lemma_first_distinct(items: Seq<EntryView>)
    ensures
        codes_distinct(first_of_each(items)),
        drawn_from(first_of_each(items), items),
    decreases items.len(),
{
    if items.len() > 0 {
        let rest = items.drop_last();
        let n = items.len() - 1;
        let e = items.last();
        let d0 = first_of_each(rest);
        let d = first_of_each(items);
        lemma_first_distinct(rest);
        if seen_before(items, n, normalized(e.0)) {
            assert(d == d0);
            assert forall|k: int| 0 <= k < d.len() implies exists|i: int|
                0 <= i < items.len() && #[trigger] d[k] == #[trigger] items[i] by {
                let i = choose|i: int| 0 <= i < rest.len() && #[trigger] d0[k] == #[trigger] rest[i];
                assert(items[i] == rest[i]);
            }
        } else {
            assert(d == d0.push(e));
            assert forall|i: int, j: int| 0 <= i < j < d.len() implies normalized(#[trigger] d[i].0)
                != normalized(#[trigger] d[j].0) by {
                assert(d[i] == d0[i]);
                if j < d0.len() {
                    assert(d[j] == d0[j]);
                } else {
                    let v = choose|v: int| 0 <= v < rest.len() && #[trigger] d0[i] == #[trigger] rest[v];
                    assert(items[v] == rest[v]);
                    assert(d[j] == e);
                }
            }
            assert forall|k: int| 0 <= k < d.len() implies exists|i: int|
                0 <= i < items.len() && #[trigger] d[k] == #[trigger] items[i] by {
                if k == d0.len() {
                    assert(d[k] == items[n]);
                } else {
                    let i = choose|i: int| 0 <= i < rest.len() && #[trigger] d0[k] == #[trigger] rest[i];
                    assert(d[k] == d0[k]);
                    assert(items[i] == rest[i]);
                }
            }
        }
    }
}

proof fn lemma_first_covered(items: Seq<EntryView>)
    ensures
        keys_covered(items, first_of_each(items)),
    decreases items.len(),
{
    if items.len() > 0 {
        let rest = items.drop_last();
        let n = items.len() - 1;
        let e = items.last();
        let d0 = first_of_each(rest);
        let d = first_of_each(items);
        lemma_first_covered(rest);
        assert forall|i: int| 0 <= i < items.len() implies exists|k: int|
            0 <= k < d.len() && normalized(#[trigger] d[k].0) == normalized(#[trigger] items[i].0) by {
            let j = if i == n && seen_before(items, n, normalized(e.0)) {
                choose|w: int| 0 <= w < n && normalized(#[trigger] items[w].0) == normalized(e.0)
            } else {
                i
            };
            if j < n {
                assert(rest[j] == items[j]);
                let k = choose|k: int|
                    0 <= k < d0.len() && normalized(#[trigger] d0[k].0) == normalized(#[trigger] rest[j].0);
                if seen_before(items, n, normalized(e.0)) {
                    assert(d[k] == d0[k]);
                } else {
                    assert(d == d0.push(e));
                    assert(d[k] == d0[k]);
                }
            } else {
                assert(d == d0.push(e));
                assert(d[d0.len() as int] == items[i]);
            }
        }
    }
}

proof fn lemma_first_kept(items: Seq<EntryView>)
    ensures
        firsts_kept(items, first_of_each(items)),
    decreases items.len(),
{
    if items.len() > 0 {
        let rest = items.drop_last();
        let n = items.len() - 1;
        let e = items.last();
        let d0 = first_of_each(rest);
        let d = first_of_each(items);
        lemma_first_kept(rest);
        assert forall|i: int|
            0 <= i < items.len() && !seen_before(items, i, normalized(items[i].0)) implies exists|k: int|
                0 <= k < d.len() && #[trigger] d[k] == #[trigger] items[i] by {
            if i == n {
                assert(d == d0.push(e));
                assert(d[d0.len() as int] == items[i]);
            } else {
                assert(items[i] == rest[i]);
                if seen_before(rest, i, normalized(rest[i].0)) {
                    let v = choose|v: int| 0 <= v < i && normalized(#[trigger] rest[v].0) == normalized(rest[i].0);
                    assert(items[v] == rest[v]);
                    assert(seen_before(items, i, normalized(items[i].0)));
                }
                let k = choose|k: int| 0 <= k < d0.len() && #[trigger] d0[k] == #[trigger] rest[i];
                if seen_before(items, n, normalized(e.0)) {
                    assert(d[k] == d0[k]);
                } else {
                    assert(d == d0.push(e));
                    assert(d[k] == d0[k]);
                }
            }
        }
    }
}

/// A PDF file yields one entry per code; every code of the file is there; the
/// entry kept for a code is the first one read; nothing is made up.
pub proof fn law_pdf_one_entry_per_code(pages: Seq<PageText>)
    ensures
        codes_distinct(first_of_each(file_items(pages))),
        keys_covered(file_items(pages), first_of_each(file_items(pages))),
        firsts_kept(file_items(pages), first_of_each(file_items(pages))),
        drawn_from(first_of_each(file_items(pages)), file_items(pages)),
{
    let items = file_items(pages);
    lemma_first_distinct(items);
    lemma_first_covered(items);
    lemma_first_kept(items);
}

proof fn lemma_byte_len_step(s: Seq<char>, k: int)
    requires
        0 <= k < s.len(),
    ensures
        byte_len(s.take(k + 1)) == byte_len(s.take(k)) + char_width(s[k]),
{
    assert(s.take(k + 1).drop_last() =~= s.take(k));
}

proof fn lemma_fwd_reach_fit(s: Seq<char>, from: int, budget: int)
    requires
        0 <= from <= s.len(),
        0 <= budget,
    ensures
        from <= fwd_reach(s, from, budget) <= s.len(),
        byte_len(s.take(fwd_reach(s, from, budget))) <= byte_len(s.take(from)) + budget,
        fwd_reach(s, from, budget) < s.len() ==> byte_len(s.take(fwd_reach(s, from, budget) + 1))
            > byte_len(s.take(from)) + budget,
    decreases s.len() - from,
{
    if from < s.len() {
        lemma_byte_len_step(s, from);
        if char_width(s[from]) <= budget {
            lemma_fwd_reach_fit(s, from + 1, budget - char_width(s[from]));
        }
    }
}

/// `floor_char_boundary` answers a character boundary at or before `idx`
/// (counted in UTF-8 bytes), and the boundary after it, if any, lies past `idx`.
pub proof fn law_floor_char_boundary(s: Seq<char>, idx: nat)
    ensures
        0 <= fwd_reach(s, 0, idx as int) <= s.len(),
        byte_len(s.take(fwd_reach(s, 0, idx as int))) <= idx,
        fwd_reach(s, 0, idx as int) < s.len() ==> byte_len(s.take(fwd_reach(s, 0, idx as int) + 1)) > idx,
{
    assert(s.take(0) =~= Seq::<char>::empty());
    lemma_fwd_reach_fit(s, 0, idx as int);
}

} // verus!
