//! Reading standard entries out of table rows and paragraphs, and keeping one
//! entry per code.
use vstd::prelude::*;
use crate::grammar::{CodeMatch, dated_all, dated_all_exec, dated_code_text, dated_find,
    dated_find_exec, match_wf};
use crate::models::StandardEntry;
use crate::naming::{drop_notes, drop_notes_exec, lines, name_beside, name_beside_exec, split_exec};
use crate::services::standard_parser::{normalize_chars, normalized};
use crate::text::{
    CharClass, chars_equal, chars_of, push_all, slice_chars, string_of, trim, trim_chars, views,
};

verus! {

/// An entry as the specification sees it: code, name, page, sheet.
pub type EntryView = (Seq<char>, Seq<char>, Option<u32>, Seq<char>);

pub open spec fn entry_view(e: StandardEntry) -> EntryView {
    (e.code@, e.name@, e.page, e.sheet@)
}

pub open spec fn entry_views(es: Seq<StandardEntry>) -> Seq<EntryView> {
    es.map_values(|e: StandardEntry| entry_view(e))
}

/// A CJK unified ideograph (`U+4E00..=U+9FFF`).
pub open spec fn is_cjk(c: char) -> bool {
    '\u{4e00}' <= c && c <= '\u{9fff}'
}

pub open spec fn has_cjk(s: Seq<char>) -> bool {
    exists|i: int| 0 <= i < s.len() && is_cjk(s[i])
}

/// A cell read as a name: notes removed, trimmed.
pub open spec fn cell_name(cell: Seq<char>) -> Seq<char> {
    trim(drop_notes(cell))
}

/// The first cell of the row, other than the empty ones, the one that is being
/// read and those that hold a dated code, that reads as a name: at least two
/// characters with a CJK ideograph among them.
pub open spec fn row_name(cells: Seq<Seq<char>>, current: Seq<char>) -> Seq<char>
    decreases cells.len(),
{
    if cells.len() == 0 {
        Seq::empty()
    } else {
        let c = cells[0];
        if c.len() != 0 && c != current && dated_find(c, 0) is None && cell_name(c).len() >= 2
            && has_cjk(cell_name(c)) {
            cell_name(c)
        } else {
            row_name(cells.drop_first(), current)
        }
    }
}

/// The name for the code matched by `m` in `segment`: the name beside it, or,
/// in a table row whose `cells` are given, the row's name when there is none beside it.
pub open spec fn name_for(
    segment: Seq<char>,
    m: CodeMatch,
    cells: Option<Seq<Seq<char>>>,
    current: Seq<char>,
) -> Seq<char> {
    let n = name_beside(segment, m);
    match cells {
        Some(cs) => if n.len() == 0 {
            row_name(cs, current)
        } else {
            n
        },
        None => n,
    }
}

/// The entries of the matches `ms` in `segment`.
pub open spec fn match_entries(
    segment: Seq<char>,
    ms: Seq<CodeMatch>,
    cells: Option<Seq<Seq<char>>>,
    current: Seq<char>,
    page: u32,
    sheet: Seq<char>,
) -> Seq<EntryView>
    decreases ms.len(),
{
    if ms.len() == 0 {
        Seq::empty()
    } else {
        let m = ms.last();
        match_entries(segment, ms.drop_last(), cells, current, page, sheet) + seq![
            (dated_code_text(segment, m), name_for(segment, m, cells, current), Some(page), sheet),
        ]
    }
}

/// The entries of a list of lines: each line is trimmed, and every dated code in it gives an entry.
pub open spec fn line_entries(
    ls: Seq<Seq<char>>,
    cells: Option<Seq<Seq<char>>>,
    current: Seq<char>,
    page: u32,
    sheet: Seq<char>,
) -> Seq<EntryView>
    decreases ls.len(),
{
    if ls.len() == 0 {
        Seq::empty()
    } else {
        let t = trim(ls.last());
        line_entries(ls.drop_last(), cells, current, page, sheet) + if t.len() == 0 {
            Seq::<EntryView>::empty()
        } else {
            match_entries(t, dated_all(t, 0), cells, current, page, sheet)
        }
    }
}

/// The entries of the cells `cs` of a row whose cells are `cells`.
pub open spec fn cells_entries(cs: Seq<Seq<char>>, cells: Seq<Seq<char>>, page: u32, sheet: Seq<char>) -> Seq<
    EntryView,
>
    decreases cs.len(),
{
    if cs.len() == 0 {
        Seq::empty()
    } else {
        let c = cs.last();
        cells_entries(cs.drop_last(), cells, page, sheet) + if c.len() == 0 {
            Seq::<EntryView>::empty()
        } else {
            line_entries(lines(c), Some(cells), c, page, sheet)
        }
    }
}

/// The entries of a table row: every dated code in every line of every cell,
/// named from its surroundings or else from another cell of the row.
pub open spec fn row_entries(cells: Seq<Seq<char>>, page: u32, sheet: Seq<char>) -> Seq<EntryView> {
    cells_entries(cells, cells, page, sheet)
}

/// The entries of a paragraph: every dated code in every line of the trimmed text.
pub open spec fn paragraph_entries(text: Seq<char>, page: u32, sheet: Seq<char>) -> Seq<EntryView> {
    let t = trim(text);
    if t.len() == 0 {
        Seq::empty()
    } else {
        line_entries(lines(t), None, t, page, sheet)
    }
}

// ---------------------------------------------------------------- one entry per code

/// The order in which pages are preferred; an entry without a page comes last.
pub open spec fn page_rank(p: Option<u32>) -> int {
    match p {
        Some(x) => x as int,
        None => u32::MAX as int,
    }
}

/// `e` is preferred to `d` for the same code: it has a name where `d` has
/// none, or both have one (or neither has) and `e` stands on an earlier page.
pub open spec fn preferred(e: EntryView, d: EntryView) -> bool {
    ||| (d.1.len() == 0 && e.1.len() > 0)
    ||| ((d.1.len() == 0) == (e.1.len() == 0) && page_rank(e.2) < page_rank(d.2))
}

/// The position of the entry with normal form `key` in a list of distinct codes.
pub open spec fn key_pos(d: Seq<EntryView>, key: Seq<char>) -> Option<int>
    decreases d.len(),
{
    if d.len() == 0 {
        None
    } else if normalized(d.last().0) == key {
        Some(d.len() - 1)
    } else {
        key_pos(d.drop_last(), key)
    }
}

/// One entry per normal form of code, in the order the codes first appear,
/// each the most preferred of the entries with that code (the first of equals).
pub open spec fn dedup_entries(es: Seq<EntryView>) -> Seq<EntryView>
    decreases es.len(),
{
    if es.len() == 0 {
        Seq::empty()
    } else {
        let d = dedup_entries(es.drop_last());
        let e = es.last();
        match key_pos(d, normalized(e.0)) {
            Some(i) => if preferred(e, d[i]) {
                d.update(i, e)
            } else {
                d
            },
            None => d.push(e),
        }
    }
}

pub proof fn lemma_key_pos(d: Seq<EntryView>, key: Seq<char>)
    ensures
        key_pos(d, key) matches Some(i) ==> 0 <= i < d.len() && normalized(d[i].0) == key,
        key_pos(d, key) is None ==> forall|i: int| 0 <= i < d.len() ==> normalized(d[i].0) != key,
    decreases d.len(),
{
    if d.len() > 0 {
        lemma_key_pos(d.drop_last(), key);
        if normalized(d.last().0) != key {
            if let Some(i) = key_pos(d.drop_last(), key) {
                assert(d[i] == d.drop_last()[i]);
            } else {
                assert forall|i: int| 0 <= i < d.len() implies normalized(d[i].0) != key by {
                    if i < d.len() - 1 {
                        assert(d[i] == d.drop_last()[i]);
                    }
                }
            }
        }
    }
}

// ---------------------------------------------------------------- executable

fn has_cjk_exec(s: &Vec<char>) -> (r: bool)
    ensures
        r == has_cjk(s@),
{
    let mut i: usize = 0;
    while i < s.len()
        invariant
            i <= s.len(),
            forall|j: int| 0 <= j < i ==> !is_cjk(s@[j]),
        decreases s.len() - i,
    {
        if '\u{4e00}' <= s[i] && s[i] <= '\u{9fff}' {
            return true;
        }
        i = i + 1;
    }
    false
}

fn row_name_exec(cells: &Vec<Vec<char>>, current: &Vec<char>) -> (r: Vec<char>)
    ensures
        r@ == row_name(views(cells@), current@),
{
    let mut i: usize = 0;
    proof {
        assert(views(cells@).subrange(0, cells@.len() as int) == views(cells@));
    }
    while i < cells.len()
        invariant
            i <= cells.len(),
            row_name(views(cells@).subrange(i as int, cells@.len() as int), current@) == row_name(
                views(cells@),
                current@,
            ),
        decreases cells.len() - i,
    {
        let c = &cells[i];
        proof {
            let rest = views(cells@).subrange(i as int, cells@.len() as int);
            assert(rest[0] == c@);
            assert(rest.drop_first() == views(cells@).subrange(i + 1, cells@.len() as int));
        }
        if c.len() != 0 && !chars_equal(c, current) && dated_find_exec(c, 0).is_none() {
            let cleaned = drop_notes_exec(c);
            let name = trim_chars(&cleaned, CharClass::Space);
            if name.len() >= 2 && has_cjk_exec(&name) {
                return name;
            }
        }
        i = i + 1;
    }
    proof {
        assert(views(cells@).subrange(cells@.len() as int, cells@.len() as int).len() == 0);
    }
    Vec::new()
}

fn code_text_exec(segment: &Vec<char>, m: &CodeMatch) -> (r: Vec<char>)
    requires
        match_wf(segment@, *m),
        m.year is Some,
    ensures
        r@ == dated_code_text(segment@, *m),
{
    let mut out = slice_chars(segment, m.start, m.prefix_end);
    out.push(' ');
    let number = slice_chars(segment, m.number_start, m.number_end);
    push_all(&mut out, &number);
    out.push('-');
    let y = m.year.unwrap();
    let year = slice_chars(segment, y, y + 4);
    push_all(&mut out, &year);
    out
}

fn segment_entries_exec(
    out: &mut Vec<StandardEntry>,
    segment: &Vec<char>,
    cells: Option<&Vec<Vec<char>>>,
    current: &Vec<char>,
    page: u32,
    sheet: &str,
)
    ensures
        entry_views(final(out)@) == entry_views(old(out)@) + match_entries(
            segment@,
            dated_all(segment@, 0),
            match cells {
                Some(cs) => Some(views(cs@)),
                None => None,
            },
            current@,
            page,
            sheet@,
        ),
{
    let ghost cs_view = match cells {
        Some(cs) => Some(views(cs@)),
        None => None,
    };
    let ms = dated_all_exec(segment);
    let ghost base = entry_views(out@);
    let mut i: usize = 0;
    while i < ms.len()
        invariant
            i <= ms.len(),
            ms@ == dated_all(segment@, 0),
            forall|k: int| 0 <= k < ms@.len() ==> match_wf(segment@, #[trigger] ms@[k]) && ms@[k].year is Some,
            cs_view == match cells {
                Some(cs) => Some(views(cs@)),
                None => None,
            },
            entry_views(out@) == base + match_entries(segment@, ms@.take(i as int), cs_view, current@, page, sheet@),
        decreases ms.len() - i,
    {
        let m = &ms[i];
        let code = code_text_exec(segment, m);
        let beside = name_beside_exec(segment, m);
        let name = match cells {
            Some(cs) => if beside.len() == 0 {
                row_name_exec(cs, current)
            } else {
                beside
            },
            None => beside,
        };
        let e = StandardEntry {
            code: string_of(&code),
            name: string_of(&name),
            page: Some(page),
            sheet: String::from_str(sheet),
        };
        let ghost before = out@;
        out.push(e);
        proof {
            assert(ms@.take(i + 1).drop_last() == ms@.take(i as int));
            assert(ms@.take(i + 1).last() == *m);
            assert(entry_views(out@) =~= entry_views(before).push(entry_view(e)));
        }
        i = i + 1;
    }
    proof {
        assert(ms@.take(ms@.len() as int) == ms@);
    }
}

fn lines_entries_exec(
    out: &mut Vec<StandardEntry>,
    ls: &Vec<Vec<char>>,
    cells: Option<&Vec<Vec<char>>>,
    current: &Vec<char>,
    page: u32,
    sheet: &str,
)
    ensures
        entry_views(final(out)@) == entry_views(old(out)@) + line_entries(
            views(ls@),
            match cells {
                Some(cs) => Some(views(cs@)),
                None => None,
            },
            current@,
            page,
            sheet@,
        ),
{
    let ghost cs_view = match cells {
        Some(cs) => Some(views(cs@)),
        None => None,
    };
    let ghost base = entry_views(out@);
    let mut i: usize = 0;
    while i < ls.len()
        invariant
            i <= ls.len(),
            cs_view == match cells {
                Some(cs) => Some(views(cs@)),
                None => None,
            },
            entry_views(out@) == base + line_entries(views(ls@).take(i as int), cs_view, current@, page, sheet@),
        decreases ls.len() - i,
    {
        proof {
            assert(views(ls@).take(i + 1).drop_last() == views(ls@).take(i as int));
            assert(views(ls@).take(i + 1).last() == ls@[i as int]@);
        }
        let t = trim_chars(&ls[i], CharClass::Space);
        if t.len() > 0 {
            segment_entries_exec(out, &t, cells, current, page, sheet);
        }
        i = i + 1;
    }
    proof {
        assert(views(ls@).take(ls@.len() as int) == views(ls@));
    }
}

fn chars_of_all(v: &Vec<String>) -> (r: Vec<Vec<char>>)
    ensures
        views(r@) == v@.map_values(|s: String| s@),
{
    let mut r: Vec<Vec<char>> = Vec::new();
    let mut i: usize = 0;
    while i < v.len()
        invariant
            i <= v.len(),
            views(r@) == v@.take(i as int).map_values(|s: String| s@),
        decreases v.len() - i,
    {
        let c = chars_of(v[i].as_str());
        let ghost before = r@;
        r.push(c);
        proof {
            assert(views(r@) =~= views(before).push(v@[i as int]@));
            assert(v@.take(i + 1).map_values(|s: String| s@) =~= v@.take(i as int).map_values(
                |s: String| s@,
            ).push(v@[i as int]@));
        }
        i = i + 1;
    }
    proof {
        assert(v@.take(v@.len() as int) == v@);
    }
    r
}

/// The texts of a row of cells.
pub open spec fn cell_texts(cells: Seq<String>) -> Seq<Seq<char>> {
    cells.map_values(|s: String| s@)
}

/// The entries of one table row whose cells read `cells`, on page (row) `page`
/// of sheet `sheet`.
pub fn scan_row(cells: &Vec<String>, page: u32, sheet: &str) -> (r: Vec<StandardEntry>)
    ensures
        entry_views(r@) == row_entries(cell_texts(cells@), page, sheet@),
{
    let cs = chars_of_all(cells);
    scan_row_chars(&cs, page, sheet)
}

/// `scan_row` over cells given as characters.
pub fn scan_row_chars(cs: &Vec<Vec<char>>, page: u32, sheet: &str) -> (r: Vec<StandardEntry>)
    ensures
        entry_views(r@) == row_entries(views(cs@), page, sheet@),
{
    let mut out: Vec<StandardEntry> = Vec::new();
    let mut i: usize = 0;
    proof {
        assert(entry_views(out@) =~= Seq::<EntryView>::empty());
    }
    while i < cs.len()
        invariant
            i <= cs.len(),
            entry_views(out@) == cells_entries(views(cs@).take(i as int), views(cs@), page, sheet@),
        decreases cs.len() - i,
    {
        proof {
            assert(views(cs@).take(i + 1).drop_last() == views(cs@).take(i as int));
            assert(views(cs@).take(i + 1).last() == cs@[i as int]@);
        }
        let c = &cs[i];
        if c.len() > 0 {
            let ls = split_exec(c, '\n');
            lines_entries_exec(&mut out, &ls, Some(cs), c, page, sheet);
        }
        i = i + 1;
    }
    proof {
        assert(views(cs@).take(cs@.len() as int) == views(cs@));
    }
    out
}

/// The entries of a paragraph of running text on page `page` of sheet `sheet`.
pub fn scan_paragraph(text: &Vec<char>, page: u32, sheet: &str) -> (r: Vec<StandardEntry>)
    ensures
        entry_views(r@) == paragraph_entries(text@, page, sheet@),
{
    let mut out: Vec<StandardEntry> = Vec::new();
    let t = trim_chars(text, CharClass::Space);
    if t.len() > 0 {
        let ls = split_exec(&t, '\n');
        proof {
            assert(entry_views(out@) =~= Seq::<EntryView>::empty());
        }
        lines_entries_exec(&mut out, &ls, None, &t, page, sheet);
        proof {
            assert(entry_views(out@) =~= paragraph_entries(text@, page, sheet@));
        }
    } else {
        proof {
            assert(entry_views(out@) =~= Seq::<EntryView>::empty());
        }
    }
    out
}

fn find_key(keys: &Vec<Vec<char>>, key: &Vec<char>, Ghost(d): Ghost<Seq<EntryView>>) -> (r: Option<
    usize,
>)
    requires
        keys@.len() == d.len(),
        forall|k: int| 0 <= k < keys@.len() ==> #[trigger] keys@[k]@ == normalized(d[k].0),
    ensures
        match r {
            Some(i) => key_pos(d, key@) == Some(i as int),
            None => key_pos(d, key@) is None,
        },
{
    let mut j: usize = keys.len();
    proof {
        assert(d.take(d.len() as int) == d);
    }
    while j > 0
        invariant
            j <= keys@.len(),
            keys@.len() == d.len(),
            forall|k: int| 0 <= k < keys@.len() ==> #[trigger] keys@[k]@ == normalized(d[k].0),
            key_pos(d.take(j as int), key@) == key_pos(d, key@),
        decreases j,
    {
        proof {
            assert(d.take(j as int).drop_last() == d.take(j - 1));
            assert(d.take(j as int).last() == d[j - 1]);
        }
        if chars_equal(&keys[j - 1], key) {
            return Some(j - 1);
        }
        j = j - 1;
    }
    proof {
        assert(d.take(0) =~= Seq::<EntryView>::empty());
    }
    None
}

/// The entries of several groups, one after the other.
pub open spec fn concat_groups(groups: Seq<Seq<EntryView>>) -> Seq<EntryView>
    decreases groups.len(),
{
    if groups.len() == 0 {
        Seq::empty()
    } else {
        concat_groups(groups.drop_last()) + groups.last()
    }
}

/// The entries of several groups (such as the parts of a document), one per
/// code; see `dedup_by_code`.
pub fn merge_entries(groups: &Vec<Vec<StandardEntry>>) -> (r: Vec<StandardEntry>)
    ensures
        entry_views(r@) == dedup_entries(concat_groups(groups@.map_values(|g: Vec<StandardEntry>| entry_views(g@)))),
{
    let ghost gv = groups@.map_values(|g: Vec<StandardEntry>| entry_views(g@));
    let mut all: Vec<StandardEntry> = Vec::new();
    let mut i: usize = 0;
    while i < groups.len()
        invariant
            i <= groups.len(),
            gv == groups@.map_values(|g: Vec<StandardEntry>| entry_views(g@)),
            entry_views(all@) == concat_groups(gv.take(i as int)),
        decreases groups.len() - i,
    {
        let g = &groups[i];
        let mut j: usize = 0;
        let ghost base = entry_views(all@);
        while j < g.len()
            invariant
                j <= g.len(),
                entry_views(all@) == base + entry_views(g@.take(j as int)),
            decreases g.len() - j,
        {
            let ghost before = all@;
            all.push(g[j].duplicate());
            proof {
                assert(entry_views(all@) =~= entry_views(before).push(entry_view(g@[j as int])));
                assert(entry_views(g@.take(j + 1)) =~= entry_views(g@.take(j as int)).push(
                    entry_view(g@[j as int]),
                ));
            }
            j = j + 1;
        }
        proof {
            assert(g@.take(g@.len() as int) == g@);
            assert(gv.take(i + 1).drop_last() == gv.take(i as int));
            assert(gv.take(i + 1).last() == entry_views(g@));
        }
        i = i + 1;
    }
    proof {
        assert(gv.take(groups@.len() as int) == gv);
    }
    dedup_by_code(all)
}

/// Keeps one entry per normal form of code, the most preferred one: an entry
/// with a name over one without, then the one on the earlier page, then the
/// first. Codes keep the order in which they first appear.
pub fn dedup_by_code(entries: Vec<StandardEntry>) -> (r: Vec<StandardEntry>)
    ensures
        entry_views(r@) == dedup_entries(entry_views(entries@)),
{
    let mut out: Vec<StandardEntry> = Vec::new();
    let mut keys: Vec<Vec<char>> = Vec::new();
    let ghost src = entry_views(entries@);
    let mut i: usize = 0;
    while i < entries.len()
        invariant
            i <= entries.len(),
            src == entry_views(entries@),
            entry_views(out@) == dedup_entries(src.take(i as int)),
            keys@.len() == out@.len(),
            forall|k: int| 0 <= k < keys@.len() ==> #[trigger] keys@[k]@ == normalized(out@[k].code@),
        decreases entries.len() - i,
    {
        let e = &entries[i];
        let key = normalize_chars(e.code.as_str());
        let ghost d = entry_views(out@);
        proof {
            assert(src.take(i + 1).drop_last() == src.take(i as int));
            assert(src.take(i + 1).last() == entry_view(*e));
            lemma_key_pos(d, key@);
        }
        let found = find_key(&keys, &key, Ghost(d));
        match found {
            Some(pos) => {
                let d_name_empty = out[pos].name.as_str().unicode_len() == 0;
                let e_name_empty = e.name.as_str().unicode_len() == 0;
                let d_rank: u64 = match out[pos].page {
                    Some(x) => x as u64,
                    None => 4294967295u64,
                };
                let e_rank: u64 = match e.page {
                    Some(x) => x as u64,
                    None => 4294967295u64,
                };
                let better = (d_name_empty && !e_name_empty) || (d_name_empty == e_name_empty && e_rank
                    < d_rank);
                if better {
                    let ghost before = out@;
                    out.set(pos, e.duplicate());
                    proof {
                        assert(entry_views(out@) =~= d.update(pos as int, entry_view(*e)));
                    }
                }
            },
            None => {
                let ghost before = out@;
                out.push(e.duplicate());
                keys.push(key);
                proof {
                    assert(entry_views(out@) =~= d.push(entry_view(*e)));
                }
            },
        }
        i = i + 1;
    }
    proof {
        assert(src.take(entries@.len() as int) == src);
    }
    out
}

// ---------------------------------------------------------------- laws

/// No two entries share a normal form of code.
pub open spec fn codes_distinct(d: Seq<EntryView>) -> bool {
    forall|i: int, j: int|
        0 <= i < j < d.len() ==> normalized(#[trigger] d[i].0) != normalized(#[trigger] d[j].0)
}

/// Every entry of `es` has one in `d` with the same normal form of code that it
/// is not preferred to.
pub open spec fn best_kept(es: Seq<EntryView>, d: Seq<EntryView>) -> bool {
    forall|i: int|
        0 <= i < es.len() ==> exists|k: int|
            0 <= k < d.len() && normalized(#[trigger] d[k].0) == normalized(#[trigger] es[i].0)
                && !preferred(es[i], d[k])
}

/// Every entry of `d` is one of `es`.
pub open spec fn drawn_from(d: Seq<EntryView>, es: Seq<EntryView>) -> bool {
    forall|k: int| 0 <= k < d.len() ==> exists|i: int| 0 <= i < es.len() && #[trigger] d[k] == #[trigger] es[i]
}

proof fn lemma_dedup_distinct(es: Seq<EntryView>)
    ensures
        codes_distinct(dedup_entries(es)),
    decreases es.len(),
{
    if es.len() > 0 {
        let e = es.last();
        let d0 = dedup_entries(es.drop_last());
        lemma_dedup_distinct(es.drop_last());
        lemma_key_pos(d0, normalized(e.0));
        let d = dedup_entries(es);
        match key_pos(d0, normalized(e.0)) {
            Some(p) => {
                assert forall|i: int, j: int| 0 <= i < j < d.len() implies normalized(
                    #[trigger] d[i].0,
                ) != normalized(#[trigger] d[j].0) by {
                    assert(normalized(d[i].0) == normalized(d0[i].0));
                    assert(normalized(d[j].0) == normalized(d0[j].0));
                }
            },
            None => {
                assert forall|i: int, j: int| 0 <= i < j < d.len() implies normalized(
                    #[trigger] d[i].0,
                ) != normalized(#[trigger] d[j].0) by {
                    assert(d[i] == d0[i]);
                    if j < d0.len() {
                        assert(d[j] == d0[j]);
                    }
                }
            },
        }
    }
}

proof fn lemma_dedup_drawn(es: Seq<EntryView>)
    ensures
        drawn_from(dedup_entries(es), es),
    decreases es.len(),
{
    if es.len() > 0 {
        let rest = es.drop_last();
        let e = es.last();
        let n = es.len() - 1;
        let d0 = dedup_entries(rest);
        lemma_dedup_drawn(rest);
        let d = dedup_entries(es);
        lemma_key_pos(d0, normalized(e.0));
        assert forall|k: int| 0 <= k < d.len() implies exists|i: int|
            0 <= i < es.len() && #[trigger] d[k] == #[trigger] es[i] by {
            let fresh = match key_pos(d0, normalized(e.0)) {
                Some(p) => k == p && preferred(e, d0[p]),
                None => k == d0.len(),
            };
            if fresh {
                assert(d[k] == es[n]);
            } else {
                assert(k < d0.len() && d[k] == d0[k]);
                let i = choose|i: int| 0 <= i < rest.len() && #[trigger] d0[k] == #[trigger] rest[i];
                assert(rest[i] == es[i]);
            }
        }
    }
}

proof fn lemma_preferred_order(x: EntryView, d: EntryView, e: EntryView)
    requires
        !preferred(x, d),
        preferred(e, d),
    ensures
        !preferred(x, e),
{
}

proof fn lemma_dedup_best(es: Seq<EntryView>)
    ensures
        best_kept(es, dedup_entries(es)),
    decreases es.len(),
{
    if es.len() > 0 {
        let rest = es.drop_last();
        let e = es.last();
        let n = es.len() - 1;
        let d0 = dedup_entries(rest);
        lemma_dedup_best(rest);
        lemma_dedup_distinct(rest);
        lemma_key_pos(d0, normalized(e.0));
        let d = dedup_entries(es);
        assert forall|i: int| 0 <= i < es.len() implies exists|k: int|
            0 <= k < d.len() && normalized(#[trigger] d[k].0) == normalized(#[trigger] es[i].0)
                && !preferred(es[i], d[k]) by {
            lemma_dedup_best_at(es, i);
            let k = choose|k: int|
                0 <= k < d.len() && normalized(d[k].0) == normalized(es[i].0) && !preferred(es[i], d[k]);
            assert(normalized(d[k].0) == normalized(es[i].0));
        }
    }
}

proof fn lemma_dedup_best_at(es: Seq<EntryView>, i: int)
    requires
        es.len() > 0,
        best_kept(es.drop_last(), dedup_entries(es.drop_last())),
        codes_distinct(dedup_entries(es.drop_last())),
        0 <= i < es.len(),
    ensures
        exists|k: int|
            0 <= k < dedup_entries(es).len() && normalized(dedup_entries(es)[k].0) == normalized(es[i].0)
                && !preferred(es[i], dedup_entries(es)[k]),
{
    let rest = es.drop_last();
    let e = es.last();
    let d0 = dedup_entries(rest);
    let d = dedup_entries(es);
    lemma_key_pos(d0, normalized(e.0));
    if i == rest.len() {
        match key_pos(d0, normalized(e.0)) {
            Some(p) => {
                assert(normalized(d[p].0) == normalized(es[i].0));
            },
            None => {
                assert(d[d0.len() as int] == e);
            },
        }
    } else {
        assert(es[i] == rest[i]);
        let k = choose|k: int|
            0 <= k < d0.len() && normalized(#[trigger] d0[k].0) == normalized(#[trigger] rest[i].0)
                && !preferred(rest[i], d0[k]);
        match key_pos(d0, normalized(e.0)) {
            Some(p) => {
                if k == p && preferred(e, d0[p]) {
                    lemma_preferred_order(rest[i], d0[p], e);
                    assert(d[p] == e);
                } else {
                    assert(d[k] == d0[k]);
                }
            },
            None => {
                assert(d[k] == d0[k]);
            },
        }
    }
}

/// Keeping one entry per code keeps exactly one entry for every code of the
/// file, the one with a name if any has one, and among those the one on the
/// earliest page; nothing is made up.
pub proof fn law_dedup_one_best_per_code(es: Seq<EntryView>)
    ensures
        codes_distinct(dedup_entries(es)),
        best_kept(es, dedup_entries(es)),
        drawn_from(dedup_entries(es), es),
{
    lemma_dedup_distinct(es);
    lemma_dedup_best(es);
    lemma_dedup_drawn(es);
}

} // verus!
