//! Batch lookups: the list of codes read from a batch file, the name of each
//! standard as the answers give it, and the rows of the result sheet.
//!
//! The caller runs the lookups (they go over the network, with pauses between
//! them); `BatchRun` decides what is looked up next and what each row holds.
use vstd::prelude::*;
use crate::grammar::{CodeMatch, dated_all, dated_all_exec, dated_code_text, match_wf};
use crate::models::{BatchInput, BatchRow, MatchResult, StandardEntry, ValidityLine, ValidityResult};
use crate::naming::{drop_paren_tail, drop_paren_tail_exec, lines, split_exec};
use crate::services::standard_parser::{extract_code, extracted_code, normalize_chars, normalized};
use crate::text::{
    CharClass, chars_equal, chars_of, join, join_chars, push_all, run_end, scan_run, slice_chars,
    string_of, trim, trim_chars, trim_class, views,
};

verus! {

// ---------------------------------------------------------------- names in answers

/// A line of an answer made ready for reading: trimmed, leading `·` removed, trimmed.
pub open spec fn clean_result_line(l: Seq<char>) -> Seq<char> {
    let t = trim(l);
    trim(t.subrange(run_end(t, 0, CharClass::MiddleDot), t.len() as int))
}

/// What follows a code in a line, read as a name: trimmed, a closing
/// parenthesised remark removed, separators and white space trimmed.
pub open spec fn name_after(line: Seq<char>, m: CodeMatch) -> Seq<char> {
    let rest = line.subrange(m.end as int, line.len() as int);
    trim(trim_class(trim(drop_paren_tail(trim(rest))), CharClass::ResultSep))
}

/// The name given after the first code in `ms` that is `target` (in normal form)
/// and is followed by at least two characters.
pub open spec fn name_in_matches(line: Seq<char>, ms: Seq<CodeMatch>, target: Seq<char>) -> Option<
    Seq<char>,
>
    decreases ms.len(),
{
    if ms.len() == 0 {
        None
    } else {
        let m = ms[0];
        if normalized(dated_code_text(line, m)) == target && name_after(line, m).len() >= 2 {
            Some(name_after(line, m))
        } else {
            name_in_matches(line, ms.drop_first(), target)
        }
    }
}

pub open spec fn name_in_lines(ls: Seq<Seq<char>>, target: Seq<char>) -> Seq<char>
    decreases ls.len(),
{
    if ls.len() == 0 {
        Seq::empty()
    } else {
        let l = clean_result_line(ls[0]);
        match name_in_matches(l, dated_all(l, 0), target) {
            Some(n) => n,
            None => name_in_lines(ls.drop_first(), target),
        }
    }
}

/// The name that an answer text gives for `code`: after the first dated code
/// in its lines that is the same code (in normal form) and carries a name.
pub open spec fn name_from_text(text: Seq<char>, code: Seq<char>) -> Seq<char> {
    name_in_lines(lines(text), normalized(code))
}

fn clean_result_line_exec(l: &Vec<char>) -> (r: Vec<char>)
    ensures
        r@ == clean_result_line(l@),
{
    let t = trim_chars(l, CharClass::Space);
    let a = scan_run(&t, 0, CharClass::MiddleDot);
    let u = slice_chars(&t, a, t.len());
    trim_chars(&u, CharClass::Space)
}

fn name_after_exec(line: &Vec<char>, m: &CodeMatch) -> (r: Vec<char>)
    requires
        match_wf(line@, *m),
    ensures
        r@ == name_after(line@, *m),
{
    let rest = slice_chars(line, m.end, line.len());
    let t = trim_chars(&rest, CharClass::Space);
    let u = drop_paren_tail_exec(&t);
    let v = trim_chars(&u, CharClass::Space);
    let w = trim_chars(&v, CharClass::ResultSep);
    trim_chars(&w, CharClass::Space)
}

fn code_text_of(line: &Vec<char>, m: &CodeMatch) -> (r: Vec<char>)
    requires
        match_wf(line@, *m),
        m.year is Some,
    ensures
        r@ == dated_code_text(line@, *m),
{
    let mut out = slice_chars(line, m.start, m.prefix_end);
    out.push(' ');
    let number = slice_chars(line, m.number_start, m.number_end);
    push_all(&mut out, &number);
    out.push('-');
    let y = m.year.unwrap();
    let year = slice_chars(line, y, y + 4);
    push_all(&mut out, &year);
    out
}

fn name_in_line_exec(line: &Vec<char>, target: &Vec<char>) -> (r: Option<Vec<char>>)
    ensures
        match r {
            Some(n) => name_in_matches(line@, dated_all(line@, 0), target@) == Some(n@),
            None => name_in_matches(line@, dated_all(line@, 0), target@) is None,
        },
{
    let ms = dated_all_exec(line);
    let mut i: usize = 0;
    proof {
        assert(ms@.subrange(0, ms@.len() as int) == ms@);
    }
    while i < ms.len()
        invariant
            i <= ms.len(),
            ms@ == dated_all(line@, 0),
            forall|k: int| 0 <= k < ms@.len() ==> match_wf(line@, #[trigger] ms@[k]) && ms@[k].year is Some,
            name_in_matches(line@, ms@.subrange(i as int, ms@.len() as int), target@)
                == name_in_matches(line@, ms@, target@),
        decreases ms.len() - i,
    {
        let m = &ms[i];
        proof {
            let rest = ms@.subrange(i as int, ms@.len() as int);
            assert(rest[0] == *m);
            assert(rest.drop_first() == ms@.subrange(i + 1, ms@.len() as int));
        }
        let code = code_text_of(line, m);
        let code_str = string_of(&code);
        let norm = normalize_chars(code_str.as_str());
        if chars_equal(&norm, target) {
            let name = name_after_exec(line, m);
            if name.len() >= 2 {
                return Some(name);
            }
        }
        i = i + 1;
    }
    None
}

/// The name that an answer text gives for a code: the text after the first
/// dated code in its lines that is the same code (in normal form), with a
/// closing parenthesised remark and separators removed, when that leaves at
/// least two characters; empty when no line gives one.
pub fn extract_name_from_text(text: &str, code: &str) -> (r: String)
    ensures
        r@ == name_from_text(text@, code@),
{
    let target = normalize_chars(code);
    let chars = chars_of(text);
    let ls = split_exec(&chars, '\n');
    let mut i: usize = 0;
    proof {
        assert(views(ls@).subrange(0, ls@.len() as int) == views(ls@));
    }
    while i < ls.len()
        invariant
            i <= ls.len(),
            target@ == normalized(code@),
            views(ls@) == lines(text@),
            name_in_lines(views(ls@).subrange(i as int, ls@.len() as int), target@) == name_in_lines(
                views(ls@),
                target@,
            ),
        decreases ls.len() - i,
    {
        proof {
            let rest = views(ls@).subrange(i as int, ls@.len() as int);
            assert(rest[0] == ls@[i as int]@);
            assert(rest.drop_first() == views(ls@).subrange(i + 1, ls@.len() as int));
        }
        let line = clean_result_line_exec(&ls[i]);
        match name_in_line_exec(&line, &target) {
            Some(n) => {
                return string_of(&n);
            },
            None => {},
        }
        i = i + 1;
    }
    proof {
        assert(views(ls@).subrange(ls@.len() as int, ls@.len() as int).len() == 0);
    }
    String::new()
}

// ---------------------------------------------------------------- the list of codes

/// Lexicographic order of texts by code point (the order `String` compares in,
/// since UTF-8 keeps the order of code points).
pub open spec fn text_lt(a: Seq<char>, b: Seq<char>) -> bool
    decreases a.len(),
{
    if a.len() == 0 {
        b.len() > 0
    } else if b.len() == 0 {
        false
    } else if a[0] != b[0] {
        a[0] < b[0]
    } else {
        text_lt(a.drop_first(), b.drop_first())
    }
}

pub proof fn lemma_text_lt_irreflexive(a: Seq<char>)
    ensures
        !text_lt(a, a),
    decreases a.len(),
{
    if a.len() > 0 {
        lemma_text_lt_irreflexive(a.drop_first());
    }
}

pub proof fn lemma_text_lt_total(a: Seq<char>, b: Seq<char>)
    ensures
        a != b ==> text_lt(a, b) || text_lt(b, a),
        !(text_lt(a, b) && text_lt(b, a)),
    decreases a.len(),
{
    if a.len() > 0 && b.len() > 0 {
        lemma_text_lt_total(a.drop_first(), b.drop_first());
        if a != b && a[0] == b[0] {
            assert(a.drop_first() != b.drop_first()) by {
                if a.drop_first() == b.drop_first() {
                    assert(a =~= seq![a[0]] + a.drop_first());
                    assert(b =~= seq![b[0]] + b.drop_first());
                }
            }
        }
    } else if a.len() == 0 && b.len() == 0 {
        assert(a =~= b);
    }
}

pub proof fn lemma_text_lt_trans(a: Seq<char>, b: Seq<char>, c: Seq<char>)
    requires
        text_lt(a, b),
        text_lt(b, c),
    ensures
        text_lt(a, c),
    decreases a.len(),
{
    if a.len() > 0 && b.len() > 0 && c.len() > 0 && a[0] == b[0] && b[0] == c[0] {
        lemma_text_lt_trans(a.drop_first(), b.drop_first(), c.drop_first());
    }
}

/// Which text is smaller, by code point.
pub fn text_less(a: &Vec<char>, b: &Vec<char>) -> (r: bool)
    ensures
        r == text_lt(a@, b@),
{
    let mut k: usize = 0;
    proof {
        assert(a@.subrange(0, a@.len() as int) == a@);
        assert(b@.subrange(0, b@.len() as int) == b@);
    }
    while k < a.len() && k < b.len() && a[k] == b[k]
        invariant
            k <= a.len(),
            k <= b.len(),
            text_lt(a@.subrange(k as int, a@.len() as int), b@.subrange(k as int, b@.len() as int))
                == text_lt(a@, b@),
        decreases a.len() - k,
    {
        proof {
            let x = a@.subrange(k as int, a@.len() as int);
            let y = b@.subrange(k as int, b@.len() as int);
            assert(x.drop_first() == a@.subrange(k + 1, a@.len() as int));
            assert(y.drop_first() == b@.subrange(k + 1, b@.len() as int));
        }
        k = k + 1;
    }
    proof {
        assert(a@.subrange(0, a@.len() as int) == a@);
        assert(b@.subrange(0, b@.len() as int) == b@);
    }
    if k == a.len() {
        k < b.len()
    } else if k == b.len() {
        false
    } else {
        a[k] < b[k]
    }
}

/// Some line of `r` has this code.
pub open spec fn listed(r: Seq<BatchInput>, code: Seq<char>) -> bool {
    exists|j: int| 0 <= j < r.len() && r[j].code@ == code
}

/// `entries[k]` is the first entry with its code.
pub open spec fn first_with_code(entries: Seq<StandardEntry>, k: int) -> bool {
    &&& 0 <= k < entries.len()
    &&& forall|k2: int| 0 <= k2 < k ==> #[trigger] entries[k2].code@ != entries[k].code@
}

/// The line is taken from the first entry with its code.
pub open spec fn taken_from_first(entries: Seq<StandardEntry>, item: BatchInput) -> bool {
    exists|k: int| first_with_code(entries, k) && item.code@ == entries[k].code@ && item.name@ == entries[k].name@
}

/// The codes of a batch file as the lookup takes them: sorted by code, every
/// code listed, each line taken from the first entry with its code.
pub open spec fn batch_inputs_ok(entries: Seq<StandardEntry>, r: Seq<BatchInput>) -> bool {
    &&& forall|i: int, j: int| 0 <= i < j < r.len() ==> text_lt(#[trigger] r[i].code@, #[trigger] r[j].code@)
    &&& forall|k: int| 0 <= k < entries.len() ==> #[trigger] listed(r, entries[k].code@)
    &&& forall|j: int| 0 <= j < r.len() ==> #[trigger] taken_from_first(entries, r[j])
}

/// Where `code` stands, or would stand, in a list sorted by code.
fn locate(codes: &Vec<Vec<char>>, code: &Vec<char>, Ghost(items): Ghost<Seq<BatchInput>>) -> (r: (
    usize,
    bool,
))
    requires
        codes@.len() == items.len(),
        forall|j: int| 0 <= j < items.len() ==> #[trigger] codes@[j]@ == items[j].code@,
    ensures
        r.0 <= items.len(),
        r.1 ==> r.0 < items.len() && items[r.0 as int].code@ == code@,
        !r.1 ==> forall|j: int| 0 <= j < r.0 ==> text_lt(#[trigger] items[j].code@, code@),
        !r.1 && r.0 < items.len() ==> text_lt(code@, items[r.0 as int].code@),
{
    let mut pos: usize = 0;
    while pos < codes.len()
        invariant
            pos <= codes@.len(),
            codes@.len() == items.len(),
            forall|j: int| 0 <= j < items.len() ==> #[trigger] codes@[j]@ == items[j].code@,
            forall|j: int| 0 <= j < pos ==> text_lt(#[trigger] items[j].code@, code@),
        decreases codes@.len() - pos,
    {
        if chars_equal(&codes[pos], code) {
            return (pos, true);
        }
        if text_less(code, &codes[pos]) {
            return (pos, false);
        }
        proof {
            lemma_text_lt_total(code@, items[pos as int].code@);
        }
        pos = pos + 1;
    }
    (pos, false)
}

/// Turns the entries read from a batch file into the list of codes to look
/// up: sorted by code, with one line per code, taken from the first entry
/// with that code.
pub fn batch_inputs_from_entries(entries: &Vec<StandardEntry>) -> (r: Vec<BatchInput>)
    ensures
        batch_inputs_ok(entries@, r@),
{
    let mut r: Vec<BatchInput> = Vec::new();
    let mut codes: Vec<Vec<char>> = Vec::new();
    let mut i: usize = 0;
    while i < entries.len()
        invariant
            i <= entries.len(),
            codes@.len() == r@.len(),
            forall|j: int| 0 <= j < r@.len() ==> #[trigger] codes@[j]@ == r@[j].code@,
            batch_inputs_ok(entries@.take(i as int), r@),
        decreases entries.len() - i,
    {
        let e = &entries[i];
        let code = chars_of(e.code.as_str());
        let ghost pre = entries@.take(i as int);
        let ghost next = entries@.take(i + 1);
        proof {
            assert(next[i as int] == *e);
            assert forall|k: int| 0 <= k < i implies #[trigger] next[k] == pre[k] by {}
        }
        // Is the code already listed, and where would it go?
        let (pos, present) = locate(&codes, &code, Ghost(r@));
        if present {
            proof {
                assert forall|k: int| 0 <= k < next.len() implies #[trigger] listed(r@, next[k].code@) by {
                    if k < i {
                        assert(next[k] == pre[k]);
                        assert(listed(r@, pre[k].code@));
                    } else {
                        assert(r@[pos as int].code@ == next[k].code@);
                    }
                }
                assert forall|j: int| 0 <= j < r@.len() implies #[trigger] taken_from_first(next, r@[j]) by {
                    assert(taken_from_first(pre, r@[j]));
                    let k = choose|k: int| first_with_code(pre, k) && r@[j].code@ == pre[k].code@
                        && r@[j].name@ == pre[k].name@;
                    assert(first_with_code(next, k));
                }
            }
        } else {
            let ghost old_r = r@;
            let ghost old_codes = codes@;
            let item = BatchInput { code: e.code.clone(), name: e.name.clone() };
            r.insert(pos, item);
            codes.insert(pos, code);
            proof {
                assert forall|j: int| 0 <= j < r@.len() implies #[trigger] codes@[j]@ == r@[j].code@ by {
                    if j < pos {
                        assert(codes@[j] == old_codes[j] && r@[j] == old_r[j]);
                    } else if j > pos {
                        assert(codes@[j] == old_codes[j - 1] && r@[j] == old_r[j - 1]);
                    }
                }
                assert forall|j: int| pos <= j < old_r.len() implies text_lt(code@, #[trigger] old_r[j].code@) by {
                    if j > pos {
                        assert(text_lt(old_r[pos as int].code@, old_r[j].code@));
                        lemma_text_lt_trans(code@, old_r[pos as int].code@, old_r[j].code@);
                    }
                }
                assert forall|j: int| 0 <= j < old_r.len() implies #[trigger] old_r[j].code@ != code@ by {
                    lemma_text_lt_irreflexive(code@);
                }
                assert forall|a: int, b: int| 0 <= a < b < r@.len() implies text_lt(
                    #[trigger] r@[a].code@,
                    #[trigger] r@[b].code@,
                ) by {
                    if a < pos && b == pos {
                        assert(r@[a] == old_r[a]);
                    } else if a < pos && b > pos {
                        assert(r@[a] == old_r[a]);
                        assert(r@[b] == old_r[b - 1]);
                        assert(text_lt(old_r[a].code@, code@));
                        lemma_text_lt_trans(old_r[a].code@, code@, old_r[b - 1].code@);
                    } else if a < pos {
                        assert(r@[a] == old_r[a]);
                        assert(r@[b] == old_r[b]);
                    } else if a == pos {
                        assert(r@[b] == old_r[b - 1]);
                    } else {
                        assert(r@[a] == old_r[a - 1]);
                        assert(r@[b] == old_r[b - 1]);
                    }
                }
                assert forall|k: int| 0 <= k < next.len() implies #[trigger] listed(r@, next[k].code@) by {
                    if k < i {
                        assert(next[k] == pre[k]);
                        assert(listed(old_r, pre[k].code@));
                        let j = choose|j: int| 0 <= j < old_r.len() && old_r[j].code@ == pre[k].code@;
                        if j < pos {
                            assert(r@[j] == old_r[j]);
                        } else {
                            assert(r@[j + 1] == old_r[j]);
                        }
                    } else {
                        assert(r@[pos as int].code@ == next[k].code@);
                    }
                }
                assert forall|j: int| 0 <= j < r@.len() implies #[trigger] taken_from_first(next, r@[j]) by {
                    if j == pos {
                        assert forall|k2: int| 0 <= k2 < i implies #[trigger] next[k2].code@ != next[i as int].code@ by {
                            assert(next[k2] == pre[k2]);
                            assert(listed(old_r, pre[k2].code@));
                        }
                        assert(first_with_code(next, i as int));
                    } else {
                        let jo = if j < pos { j } else { j - 1 };
                        assert(r@[j] == old_r[jo]);
                        assert(taken_from_first(pre, old_r[jo]));
                        let k = choose|k: int| first_with_code(pre, k) && old_r[jo].code@ == pre[k].code@
                            && old_r[jo].name@ == pre[k].name@;
                        assert(first_with_code(next, k));
                    }
                }
            }
        }
        i = i + 1;
    }
    proof {
        assert(entries@.take(entries@.len() as int) == entries@);
    }
    r
}

// ---------------------------------------------------------------- running a batch

/// The text of a validity answer: its lines, one per line.
pub open spec fn validity_text(v: ValidityResult) -> Seq<char> {
    join(v.lines@.map_values(|l: ValidityLine| l.text@), seq!['\n'])
}

/// The first name that the answers give for the code, or `fallback`.
pub open spec fn name_from_answers(texts: Seq<Seq<char>>, code: Seq<char>, fallback: Seq<char>) -> Seq<char>
    decreases texts.len(),
{
    if texts.len() == 0 {
        fallback
    } else if name_from_text(texts[0], code).len() > 0 {
        name_from_text(texts[0], code)
    } else {
        name_from_answers(texts.drop_first(), code, fallback)
    }
}

/// The result row for one line of a batch, given the four answers.
pub open spec fn batch_row_ok(
    row: BatchRow,
    input: BatchInput,
    validity: ValidityResult,
    cnas: MatchResult,
    cma_file: MatchResult,
    cma_api: MatchResult,
) -> bool {
    let code = extracted_code(input.code@);
    let vt = validity_text(validity);
    &&& row.code@ == code
    &&& row.name@ == name_from_answers(
        seq![vt, cnas.message@, cma_file.message@, cma_api.message@],
        code,
        input.name@,
    )
    &&& row.validity@ == vt
    &&& row.cnas@ == cnas.message@
    &&& row.cma_file@ == cma_file.message@
    &&& row.cma_api@ == cma_api.message@
}

fn validity_text_exec(v: &ValidityResult) -> (r: Vec<char>)
    ensures
        r@ == validity_text(*v),
{
    let mut parts: Vec<Vec<char>> = Vec::new();
    let mut i: usize = 0;
    while i < v.lines.len()
        invariant
            i <= v.lines.len(),
            views(parts@) == v.lines@.take(i as int).map_values(|l: ValidityLine| l.text@),
        decreases v.lines.len() - i,
    {
        let t = chars_of(v.lines[i].text.as_str());
        let ghost before = parts@;
        parts.push(t);
        proof {
            assert(views(parts@) =~= views(before).push(v.lines@[i as int].text@));
            assert(v.lines@.take(i + 1).map_values(|l: ValidityLine| l.text@) =~= v.lines@.take(
                i as int,
            ).map_values(|l: ValidityLine| l.text@).push(v.lines@[i as int].text@));
        }
        i = i + 1;
    }
    proof {
        assert(v.lines@.take(v.lines@.len() as int) == v.lines@);
    }
    let mut sep: Vec<char> = Vec::new();
    sep.push('\n');
    join_chars(&parts, &sep)
}

fn first_name(texts: &Vec<String>, code: &str, fallback: &String) -> (r: String)
    ensures
        r@ == name_from_answers(texts@.map_values(|t: String| t@), code@, fallback@),
{
    let ghost all = texts@.map_values(|t: String| t@);
    let mut i: usize = 0;
    proof {
        assert(all.subrange(0, all.len() as int) == all);
    }
    while i < texts.len()
        invariant
            i <= texts.len(),
            all == texts@.map_values(|t: String| t@),
            name_from_answers(all.subrange(i as int, all.len() as int), code@, fallback@)
                == name_from_answers(all, code@, fallback@),
        decreases texts.len() - i,
    {
        proof {
            let rest = all.subrange(i as int, all.len() as int);
            assert(rest[0] == texts@[i as int]@);
            assert(rest.drop_first() == all.subrange(i + 1, all.len() as int));
        }
        let n = extract_name_from_text(texts[i].as_str(), code);
        if n.as_str().unicode_len() > 0 {
            return n;
        }
        i = i + 1;
    }
    proof {
        assert(all.subrange(all.len() as int, all.len() as int).len() == 0);
    }
    fallback.clone()
}

/// A batch in progress: the lines to look up and the rows made so far.
// ---------------------------------------------------------------- the result sheet

/// The header row of the result sheet.
pub open spec fn result_header() -> Seq<Seq<char>> {
    seq!["标准号"@, "标准名"@, "有效性(SAMR)"@, "CMA能力项目库"@, "CNAS附表"@, "CMA附表"@]
}

/// The cells of a row of the result sheet, in column order.
pub open spec fn result_cells(r: BatchRow) -> Seq<Seq<char>> {
    seq![r.code@, r.name@, r.validity@, r.cma_api@, r.cnas@, r.cma_file@]
}

/// The rows of a sheet as text.
pub open spec fn sheet_text(rows: Seq<Vec<String>>) -> Seq<Seq<Seq<char>>> {
    rows.map_values(|row: Vec<String>| row@.map_values(|c: String| c@))
}

/// The widths of the six columns of the result sheet, in characters.
pub open spec fn result_widths() -> Seq<u32> {
    seq![18u32, 42u32, 46u32, 46u32, 42u32, 42u32]
}

fn result_row(r: &BatchRow) -> (cells: Vec<String>)
    ensures
        cells@.map_values(|c: String| c@) == result_cells(*r),
{
    let mut cells: Vec<String> = Vec::new();
    cells.push(r.code.clone());
    cells.push(r.name.clone());
    cells.push(r.validity.clone());
    cells.push(r.cma_api.clone());
    cells.push(r.cnas.clone());
    cells.push(r.cma_file.clone());
    proof {
        assert(cells@.map_values(|c: String| c@) =~= result_cells(*r));
    }
    cells
}

/// The result sheet of a batch: the header row, then one row per line of the
/// batch with its code, name and the answers of SAMR, the CMA library, the
/// CNAS files and the CMA files.
pub fn result_sheet(rows: &Vec<BatchRow>) -> (r: Vec<Vec<String>>)
    ensures
        sheet_text(r@) == seq![result_header()] + rows@.map_values(|b: BatchRow| result_cells(b)),
{
    let mut header: Vec<String> = Vec::new();
    header.push(String::from_str("标准号"));
    header.push(String::from_str("标准名"));
    header.push(String::from_str("有效性(SAMR)"));
    header.push(String::from_str("CMA能力项目库"));
    header.push(String::from_str("CNAS附表"));
    header.push(String::from_str("CMA附表"));
    proof {
        assert(header@.map_values(|c: String| c@) =~= result_header());
    }
    let mut out: Vec<Vec<String>> = Vec::new();
    out.push(header);
    let mut i: usize = 0;
    while i < rows.len()
        invariant
            i <= rows.len(),
            sheet_text(out@) == seq![result_header()] + rows@.take(i as int).map_values(
                |b: BatchRow| result_cells(b),
            ),
        decreases rows.len() - i,
    {
        let cells = result_row(&rows[i]);
        let ghost before = out@;
        out.push(cells);
        proof {
            assert(sheet_text(out@) =~= sheet_text(before).push(result_cells(rows@[i as int])));
            assert(rows@.take(i + 1).map_values(|b: BatchRow| result_cells(b)) =~= rows@.take(
                i as int,
            ).map_values(|b: BatchRow| result_cells(b)).push(result_cells(rows@[i as int])));
        }
        i = i + 1;
    }
    proof {
        assert(rows@.take(rows@.len() as int) == rows@);
    }
    out
}

/// The widths of the columns of the result sheet, in characters.
pub fn result_column_widths() -> (r: Vec<u32>)
    ensures
        r@ == result_widths(),
{
    let r: Vec<u32> = vec![18, 42, 46, 46, 42, 42];
    proof {
        assert(r@ =~= result_widths());
    }
    r
}

/// What a batch does after trying to write its result sheet.
pub enum WriteStep {
    /// Go on with the next line.
    Next,
    /// Pause until the user resumes, showing `warning`, with `done` rows made.
    Pause { done: usize, warning: String },
}

pub struct BatchRun {
    inputs: Vec<BatchInput>,
    rows: Vec<BatchRow>,
}

impl BatchRun {
    pub closed spec fn inputs(&self) -> Seq<BatchInput> {
        self.inputs@
    }

    pub closed spec fn rows_made(&self) -> Seq<BatchRow> {
        self.rows@
    }

    /// At most one row per line.
    #[verifier::type_invariant]
    spec fn wf(&self) -> bool {
        self.rows@.len() <= self.inputs@.len()
    }

    /// Starts a batch over `inputs`; refused when there is nothing to look up.
    pub fn start(inputs: Vec<BatchInput>) -> (r: Result<BatchRun, String>)
        ensures
            inputs@.len() == 0 <==> r is Err,
            r matches Err(e) ==> e@ == "没有可查询的标准，请先选择批量文件"@,
            r matches Ok(b) ==> b.inputs() == inputs@ && b.rows_made().len() == 0,
    {
        if inputs.len() == 0 {
            return Err(String::from_str("没有可查询的标准，请先选择批量文件"));
        }
        Ok(BatchRun { inputs, rows: Vec::new() })
    }

    /// How many lines the batch has.
    pub fn total(&self) -> (r: usize)
        ensures
            r == self.inputs().len(),
    {
        self.inputs.len()
    }

    /// How many rows are made.
    pub fn done(&self) -> (r: usize)
        ensures
            r == self.rows_made().len(),
            r <= self.inputs().len(),
    {
        proof {
            use_type_invariant(self);
        }
        self.rows.len()
    }

    /// Whether every line has its row.
    pub fn is_finished(&self) -> (r: bool)
        ensures
            r == (self.rows_made().len() == self.inputs().len()),
    {
        proof {
            use_type_invariant(self);
        }
        self.rows.len() == self.inputs.len()
    }

    /// The code to look up next: the code extracted from the next line.
    pub fn next_code(&self) -> (r: Option<String>)
        ensures
            r is None <==> self.rows_made().len() == self.inputs().len(),
            r matches Some(c) ==> c@ == extracted_code(self.inputs()[self.rows_made().len() as int].code@),
    {
        proof {
            use_type_invariant(self);
        }
        if self.rows.len() < self.inputs.len() {
            Some(extract_code(self.inputs[self.rows.len()].code.as_str()))
        } else {
            None
        }
    }

    /// Records the four answers for the next line and answers its row.
    pub fn record(
        &mut self,
        validity: &ValidityResult,
        cnas: &MatchResult,
        cma_file: &MatchResult,
        cma_api: &MatchResult,
    ) -> (row: BatchRow)
        requires
            old(self).rows_made().len() < old(self).inputs().len(),
        ensures
            final(self).inputs() == old(self).inputs(),
            final(self).rows_made() == old(self).rows_made().push(row),
            batch_row_ok(
                row,
                old(self).inputs()[old(self).rows_made().len() as int],
                *validity,
                *cnas,
                *cma_file,
                *cma_api,
            ),
    {
        let input = &self.inputs[self.rows.len()];
        let code = extract_code(input.code.as_str());
        let vt = validity_text_exec(validity);
        let vt_str = string_of(&vt);
        let mut texts: Vec<String> = Vec::new();
        texts.push(vt_str.clone());
        texts.push(cnas.message.clone());
        texts.push(cma_file.message.clone());
        texts.push(cma_api.message.clone());
        proof {
            assert(texts@.map_values(|t: String| t@) =~= seq![
                vt@,
                cnas.message@,
                cma_file.message@,
                cma_api.message@,
            ]);
        }
        let name = first_name(&texts, code.as_str(), &input.name);
        let row = BatchRow {
            code,
            name,
            validity: vt_str,
            cnas: cnas.message.clone(),
            cma_file: cma_file.message.clone(),
            cma_api: cma_api.message.clone(),
        };
        let copy = BatchRow {
            code: row.code.clone(),
            name: row.name.clone(),
            validity: row.validity.clone(),
            cnas: row.cnas.clone(),
            cma_file: row.cma_file.clone(),
            cma_api: row.cma_api.clone(),
        };
        let mut rows: Vec<BatchRow> = Vec::new();
        std::mem::swap(&mut rows, &mut self.rows);
        rows.push(copy);
        std::mem::swap(&mut rows, &mut self.rows);
        row
    }

    /// Whether the batch may begin once the result sheet, with its header row
    /// alone, was written: it is refused, before any code is looked up, when the
    /// file could not be written.
    pub fn after_header(&self, written: bool) -> (r: Result<(), String>)
        ensures
            written <==> r is Ok,
            r matches Err(e) ==> e@ == "无法写入目标文件，请确认该 Excel 文件已关闭后重试"@,
    {
        if written {
            Ok(())
        } else {
            Err(String::from_str("无法写入目标文件，请确认该 Excel 文件已关闭后重试"))
        }
    }

    /// What follows an attempt to write the result sheet with the rows made so
    /// far: the next line when it was written; else a pause, reporting the rows
    /// made and a warning that the file may be open in Excel, after which the
    /// sheet is written again.
    pub fn after_write(&self, written: bool) -> (r: WriteStep)
        ensures
            written <==> r is Next,
            r is Pause ==> r->done == self.rows_made().len()
                && r->warning@ == "结果文件写入失败（可能正被 Excel 打开），请关闭该文件后点击「恢复」"@,
    {
        if written {
            WriteStep::Next
        } else {
            WriteStep::Pause {
                done: self.done(),
                warning: String::from_str("结果文件写入失败（可能正被 Excel 打开），请关闭该文件后点击「恢复」"),
            }
        }
    }

    /// The rows made so far.
    pub fn rows(&self) -> (r: &Vec<BatchRow>)
        ensures
            r@ == self.rows_made(),
    {
        &self.rows
    }
}

/// The name of a row is the name the first answer gives for the code (in the
/// order validity, CNAS file, CMA file, CMA library); when no answer gives one,
/// it is the name written in the batch file.
pub proof fn law_row_name_from_answers(texts: Seq<Seq<char>>, code: Seq<char>, fallback: Seq<char>)
    ensures
        (forall|i: int| 0 <= i < texts.len() ==> name_from_text(#[trigger] texts[i], code).len() == 0)
            ==> name_from_answers(texts, code, fallback) == fallback,
        forall|i: int|
            0 <= i < texts.len() && name_from_text(#[trigger] texts[i], code).len() > 0 && (forall|j: int|
                0 <= j < i ==> name_from_text(#[trigger] texts[j], code).len() == 0) ==> name_from_answers(
                texts,
                code,
                fallback,
            ) == name_from_text(texts[i], code),
    decreases texts.len(),
{
    if texts.len() > 0 {
        law_row_name_from_answers(texts.drop_first(), code, fallback);
        assert forall|i: int| 1 <= i < texts.len() implies #[trigger] texts[i] == texts.drop_first()[i - 1] by {}
        if forall|i: int| 0 <= i < texts.len() ==> name_from_text(#[trigger] texts[i], code).len() == 0 {
            assert forall|i: int| 0 <= i < texts.drop_first().len() implies name_from_text(
                #[trigger] texts.drop_first()[i],
                code,
            ).len() == 0 by {
                assert(texts.drop_first()[i] == texts[i + 1]);
            }
        }
        assert forall|i: int|
            0 <= i < texts.len() && name_from_text(#[trigger] texts[i], code).len() > 0 && (forall|j: int|
                0 <= j < i ==> name_from_text(#[trigger] texts[j], code).len() == 0) implies name_from_answers(
            texts,
            code,
            fallback,
        ) == name_from_text(texts[i], code) by {
            if i > 0 {
                assert(name_from_text(texts[0], code).len() == 0);
                let r = texts.drop_first();
                assert(r[i - 1] == texts[i]);
                assert forall|j: int| 0 <= j < i - 1 implies name_from_text(#[trigger] r[j], code).len() == 0 by {
                    assert(r[j] == texts[j + 1]);
                }
            }
        }
    }
}

proof fn lemma_name_in_matches_long(line: Seq<char>, ms: Seq<CodeMatch>, target: Seq<char>)
    ensures
        name_in_matches(line, ms, target) matches Some(n) ==> n.len() >= 2,
    decreases ms.len(),
{
    if ms.len() > 0 {
        lemma_name_in_matches_long(line, ms.drop_first(), target);
    }
}

proof fn lemma_name_in_lines_long(ls: Seq<Seq<char>>, target: Seq<char>)
    ensures
        name_in_lines(ls, target).len() == 0 || name_in_lines(ls, target).len() >= 2,
    decreases ls.len(),
{
    if ls.len() > 0 {
        let l = clean_result_line(ls[0]);
        lemma_name_in_matches_long(l, dated_all(l, 0), target);
        lemma_name_in_lines_long(ls.drop_first(), target);
    }
}

/// The name found for a code in an answer is either nothing or at least two
/// characters long.
pub proof fn law_name_from_text_long(text: Seq<char>, code: Seq<char>)
    ensures
        name_from_text(text, code).len() == 0 || name_from_text(text, code).len() >= 2,
{
    lemma_name_in_lines_long(lines(text), normalized(code));
}

/// The name an answer gives for a code is the one of its first line that
/// names the code: the lines before it are passed over, whatever they hold, and
/// the lines after it do not matter.
pub proof fn law_name_from_first_naming_line(ls: Seq<Seq<char>>, target: Seq<char>, i: int)
    requires
        0 <= i < ls.len(),
        name_in_matches(clean_result_line(ls[i]), dated_all(clean_result_line(ls[i]), 0), target) is Some,
        forall|j: int|
            0 <= j < i ==> name_in_matches(
                clean_result_line(#[trigger] ls[j]),
                dated_all(clean_result_line(ls[j]), 0),
                target,
            ) is None,
    ensures
        name_in_lines(ls, target) == name_in_matches(
            clean_result_line(ls[i]),
            dated_all(clean_result_line(ls[i]), 0),
            target,
        )->Some_0,
        name_in_lines(ls, target).len() >= 2,
    decreases i,
{
    lemma_name_in_matches_long(clean_result_line(ls[i]), dated_all(clean_result_line(ls[i]), 0), target);
    if i > 0 {
        let rest = ls.drop_first();
        assert(rest[i - 1] == ls[i]);
        assert forall|j: int| 0 <= j < i - 1 implies name_in_matches(
            clean_result_line(#[trigger] rest[j]),
            dated_all(clean_result_line(rest[j]), 0),
            target,
        ) is None by {
            assert(rest[j] == ls[j + 1]);
        }
        assert(name_in_matches(clean_result_line(ls[0]), dated_all(clean_result_line(ls[0]), 0), target) is None);
        law_name_from_first_naming_line(rest, target, i - 1);
    }
}

/// When no line of an answer names the code, no name is found.
pub proof fn law_no_naming_line_no_name(ls: Seq<Seq<char>>, target: Seq<char>)
    requires
        forall|j: int|
            0 <= j < ls.len() ==> name_in_matches(
                clean_result_line(#[trigger] ls[j]),
                dated_all(clean_result_line(ls[j]), 0),
                target,
            ) is None,
    ensures
        name_in_lines(ls, target).len() == 0,
    decreases ls.len(),
{
    if ls.len() > 0 {
        let rest = ls.drop_first();
        assert forall|j: int| 0 <= j < rest.len() implies name_in_matches(
            clean_result_line(#[trigger] rest[j]),
            dated_all(clean_result_line(rest[j]), 0),
            target,
        ) is None by {
            assert(rest[j] == ls[j + 1]);
        }
        assert(name_in_matches(clean_result_line(ls[0]), dated_all(clean_result_line(ls[0]), 0), target) is None);
        law_no_naming_line_no_name(rest, target);
    }
}

} // verus!
