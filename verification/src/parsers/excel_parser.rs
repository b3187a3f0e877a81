//! Entries of a spreadsheet: every dated code in every cell, one entry per code.
//!
//! The workbook is opened and its cells written out as text by `calamine`.
use vstd::prelude::*;
use calamine::Reader;
use crate::models::StandardEntry;
use crate::parsers::entries::{
    EntryView, best_kept, cell_texts, codes_distinct, dedup_by_code, dedup_entries, drawn_from,
    entry_views, law_dedup_one_best_per_code, row_entries, scan_row,
};
use crate::text::{chars_equal, chars_of, push_str, string_of};

verus! {

/// The cells of one sheet, as text, row by row.
pub struct SheetRows {
    pub name: String,
    pub rows: Vec<Vec<String>>,
}

/// The rows of a sheet as text: row after row, each a list of cell texts.
pub type RowsView = Seq<Seq<Seq<char>>>;

pub open spec fn rows_view(rows: Seq<Vec<String>>) -> RowsView {
    rows.map_values(|row: Vec<String>| cell_texts(row@))
}

/// A sheet as text: its name and its rows.
pub open spec fn sheet_view(s: SheetRows) -> (Seq<char>, RowsView) {
    (s.name@, rows_view(s.rows@))
}

pub open spec fn sheets_view(sheets: Seq<SheetRows>) -> Seq<(Seq<char>, RowsView)> {
    sheets.map_values(|s: SheetRows| sheet_view(s))
}

/// The entries of the rows `rows` of a sheet; rows are numbered from 1.
pub open spec fn rows_entries(rows: RowsView, sheet: Seq<char>) -> Seq<EntryView>
    decreases rows.len(),
{
    if rows.len() == 0 {
        Seq::empty()
    } else {
        rows_entries(rows.drop_last(), sheet) + row_entries(rows.last(), (rows.len() as u32), sheet)
    }
}

/// The entries of the sheets, sheet after sheet.
pub open spec fn sheets_entries(sheets: Seq<(Seq<char>, RowsView)>) -> Seq<EntryView>
    decreases sheets.len(),
{
    if sheets.len() == 0 {
        Seq::empty()
    } else {
        sheets_entries(sheets.drop_last()) + rows_entries(sheets.last().1, sheets.last().0)
    }
}

/// The standards listed in a workbook: every dated code in every line of
/// every cell (page = row number, sheet = sheet name), named from its
/// surroundings or another cell of its row, kept once per code.
pub fn parse_sheets(sheets: &Vec<SheetRows>) -> (r: Vec<StandardEntry>)
    ensures
        entry_views(r@) == dedup_entries(sheets_entries(sheets_view(sheets@))),
{
    let ghost sv = sheets_view(sheets@);
    let mut all: Vec<StandardEntry> = Vec::new();
    let mut si: usize = 0;
    while si < sheets.len()
        invariant
            si <= sheets.len(),
            sv == sheets_view(sheets@),
            entry_views(all@) == sheets_entries(sv.take(si as int)),
        decreases sheets.len() - si,
    {
        let sheet = &sheets[si];
        let ghost base = entry_views(all@);
        let mut ri: usize = 0;
        while ri < sheet.rows.len()
            invariant
                ri <= sheet.rows.len(),
                si < sheets.len(),
                sheet == &sheets@[si as int],
                entry_views(all@) == base + rows_entries(
                    rows_view(sheet.rows@).take(ri as int),
                    sheet.name@,
                ),
            decreases sheet.rows.len() - ri,
        {
            let page = (ri + 1) as u32;
            let found = scan_row(&sheet.rows[ri], page, sheet.name.as_str());
            let ghost before = entry_views(all@);
            let mut k: usize = 0;
            while k < found.len()
                invariant
                    k <= found.len(),
                    entry_views(all@) == before + entry_views(found@.take(k as int)),
                decreases found.len() - k,
            {
                let ghost prev = all@;
                all.push(found[k].duplicate());
                proof {
                    assert(entry_views(all@) =~= entry_views(prev).push(
                        crate::parsers::entries::entry_view(found@[k as int]),
                    ));
                    assert(entry_views(found@.take(k + 1)) =~= entry_views(found@.take(k as int)).push(
                        crate::parsers::entries::entry_view(found@[k as int]),
                    ));
                }
                k = k + 1;
            }
            proof {
                assert(found@.take(found@.len() as int) == found@);
                let rs = rows_view(sheet.rows@).take(ri + 1);
                assert(rs.drop_last() == rows_view(sheet.rows@).take(ri as int));
                assert(rs.last() == cell_texts(sheet.rows@[ri as int]@));
                assert(rs.len() == ri + 1);
            }
            ri = ri + 1;
        }
        proof {
            assert(rows_view(sheet.rows@).take(sheet.rows@.len() as int) == rows_view(sheet.rows@));
            assert(sv.take(si + 1).drop_last() == sv.take(si as int));
            assert(sv.take(si + 1).last() == sheet_view(*sheet));
        }
        si = si + 1;
    }
    proof {
        assert(sv.take(sv.len() as int) == sv);
    }
    dedup_by_code(all)
}

// ---------------------------------------------------------------- reading a workbook

/// A sheet of a workbook as read: its name, and its rows as text or the error
/// met in reading them.
pub type SheetRead = (Seq<char>, Result<RowsView, Seq<char>>);

pub open spec fn sheet_read_view(x: (String, Result<Vec<Vec<String>>, String>)) -> SheetRead {
    (
        x.0@,
        match x.1 {
            Ok(rows) => Ok(rows_view(rows@)),
            Err(e) => Err(e@),
        },
    )
}

#[verifier::external_type_specification]
#[verifier::external_body]
#[verifier::reject_recursive_types(T)]
pub struct ExCursor<T>(std::io::Cursor<T>);

#[verifier::external_type_specification]
#[verifier::external_body]
#[verifier::reject_recursive_types(RS)]
pub struct ExSheets<RS>(calamine::Sheets<RS>);

/// The sheets of an open workbook, as `calamine` reads them: each sheet in the
/// workbook's order, with its cells written out as text or the error met in
/// reading it.
pub uninterp spec fn book_sheets(book: calamine::Sheets<std::io::Cursor<Vec<u8>>>) -> Seq<SheetRead>;

/// The sheets of the bytes read as an xls workbook, or the error met in opening it.
pub uninterp spec fn xls_sheets(bytes: Seq<u8>) -> Result<Seq<SheetRead>, Seq<char>>;

/// The sheets of the bytes read as an xlsx workbook, or the error met in opening it.
pub uninterp spec fn xlsx_sheets(bytes: Seq<u8>) -> Result<Seq<SheetRead>, Seq<char>>;

/// The sheets of the bytes read as an xlsb workbook, or the error met in opening it.
pub uninterp spec fn xlsb_sheets(bytes: Seq<u8>) -> Result<Seq<SheetRead>, Seq<char>>;

/// The sheets of the bytes read as an ods workbook, or the error met in opening it.
pub uninterp spec fn ods_sheets(bytes: Seq<u8>) -> Result<Seq<SheetRead>, Seq<char>>;

/// The sheets of the bytes read in the first of the xls, xlsx, xlsb and ods
/// formats that opens them, or the error met when none does.
pub uninterp spec fn detected_sheets(bytes: Seq<u8>) -> Result<Seq<SheetRead>, Seq<char>>;

/// `calamine::open_workbook_from_rs` as an xls workbook, its error reported as
/// `calamine::Error::Xls`; what is read from it is `xls_sheets`.
#[verifier::external_body]
fn open_xls(bytes: &[u8]) -> (r: Result<calamine::Sheets<std::io::Cursor<Vec<u8>>>, String>)
    ensures
        match r {
            Ok(b) => xls_sheets(bytes@) == Ok::<Seq<SheetRead>, Seq<char>>(book_sheets(b)),
            Err(e) => xls_sheets(bytes@) == Err::<Seq<SheetRead>, Seq<char>>(e@),
        },
{
    calamine::open_workbook_from_rs::<calamine::Xls<_>, _>(std::io::Cursor::new(bytes.to_vec()))
        .map(calamine::Sheets::Xls)
        .map_err(|e| calamine::Error::Xls(e).to_string())
}

/// `calamine::open_workbook_from_rs` as an xlsx workbook, its error reported as
/// `calamine::Error::Xlsx`; what is read from it is `xlsx_sheets`.
#[verifier::external_body]
fn open_xlsx(bytes: &[u8]) -> (r: Result<calamine::Sheets<std::io::Cursor<Vec<u8>>>, String>)
    ensures
        match r {
            Ok(b) => xlsx_sheets(bytes@) == Ok::<Seq<SheetRead>, Seq<char>>(book_sheets(b)),
            Err(e) => xlsx_sheets(bytes@) == Err::<Seq<SheetRead>, Seq<char>>(e@),
        },
{
    calamine::open_workbook_from_rs::<calamine::Xlsx<_>, _>(std::io::Cursor::new(bytes.to_vec()))
        .map(calamine::Sheets::Xlsx)
        .map_err(|e| calamine::Error::Xlsx(e).to_string())
}

/// `calamine::open_workbook_from_rs` as an xlsb workbook, its error reported as
/// `calamine::Error::Xlsb`; what is read from it is `xlsb_sheets`.
#[verifier::external_body]
fn open_xlsb(bytes: &[u8]) -> (r: Result<calamine::Sheets<std::io::Cursor<Vec<u8>>>, String>)
    ensures
        match r {
            Ok(b) => xlsb_sheets(bytes@) == Ok::<Seq<SheetRead>, Seq<char>>(book_sheets(b)),
            Err(e) => xlsb_sheets(bytes@) == Err::<Seq<SheetRead>, Seq<char>>(e@),
        },
{
    calamine::open_workbook_from_rs::<calamine::Xlsb<_>, _>(std::io::Cursor::new(bytes.to_vec()))
        .map(calamine::Sheets::Xlsb)
        .map_err(|e| calamine::Error::Xlsb(e).to_string())
}

/// `calamine::open_workbook_from_rs` as an ods workbook, its error reported as
/// `calamine::Error::Ods`; what is read from it is `ods_sheets`.
#[verifier::external_body]
fn open_ods(bytes: &[u8]) -> (r: Result<calamine::Sheets<std::io::Cursor<Vec<u8>>>, String>)
    ensures
        match r {
            Ok(b) => ods_sheets(bytes@) == Ok::<Seq<SheetRead>, Seq<char>>(book_sheets(b)),
            Err(e) => ods_sheets(bytes@) == Err::<Seq<SheetRead>, Seq<char>>(e@),
        },
{
    calamine::open_workbook_from_rs::<calamine::Ods<_>, _>(std::io::Cursor::new(bytes.to_vec()))
        .map(calamine::Sheets::Ods)
        .map_err(|e| calamine::Error::Ods(e).to_string())
}

/// `calamine::open_workbook_auto_from_rs`, which tries the xls, xlsx, xlsb and
/// ods formats in turn; what is read from it is `detected_sheets`.
#[verifier::external_body]
fn open_detected(bytes: &[u8]) -> (r: Result<calamine::Sheets<std::io::Cursor<Vec<u8>>>, String>)
    ensures
        match r {
            Ok(b) => detected_sheets(bytes@) == Ok::<Seq<SheetRead>, Seq<char>>(book_sheets(b)),
            Err(e) => detected_sheets(bytes@) == Err::<Seq<SheetRead>, Seq<char>>(e@),
        },
{
    calamine::open_workbook_auto_from_rs(std::io::Cursor::new(bytes.to_vec())).map_err(|e| e.to_string())
}

/// For each of the workbook's `sheet_names`, `worksheet_range`, with every
/// cell written out by `Data::to_string`, or the error's text.
#[verifier::external_body]
fn read_sheets(book: calamine::Sheets<std::io::Cursor<Vec<u8>>>) -> (r: Vec<(String, Result<Vec<Vec<String>>, String>)>)
    ensures
        r@.map_values(|x: (String, Result<Vec<Vec<String>>, String>)| sheet_read_view(x))
            == book_sheets(book),
{
    let mut book = book;
    let mut sheets = Vec::new();
    for name in book.sheet_names() {
        let range = match book.worksheet_range(&name) { Ok(r) => r, Err(e) => { sheets.push((name, Err(e.to_string()))); continue; } };
        let mut rows = Vec::new();
        for row in range.rows() {
            rows.push(row.iter().map(|c| c.to_string()).collect());
        }
        sheets.push((name, Ok(rows)));
    }
    sheets
}

/// The sheets of a workbook file, read as its extension says (as
/// `calamine::open_workbook_auto` does for a path): `xls`/`xla`,
/// `xlsx`/`xlsm`/`xlam`, `xlsb`, `ods`; any other extension by trying each format.
pub open spec fn workbook_sheets(extension: Seq<char>, bytes: Seq<u8>) -> Result<Seq<SheetRead>, Seq<char>> {
    if extension == "xls"@ || extension == "xla"@ {
        xls_sheets(bytes)
    } else if extension == "xlsx"@ || extension == "xlsm"@ || extension == "xlam"@ {
        xlsx_sheets(bytes)
    } else if extension == "xlsb"@ {
        xlsb_sheets(bytes)
    } else if extension == "ods"@ {
        ods_sheets(bytes)
    } else {
        detected_sheets(bytes)
    }
}

fn is_text(s: &str, t: &str) -> (r: bool)
    ensures
        r == (s@ == t@),
{
    chars_equal(&chars_of(s), &chars_of(t))
}

fn open_workbook(extension: &str, bytes: &[u8]) -> (r: Result<
    Vec<(String, Result<Vec<Vec<String>>, String>)>,
    String,
>)
    ensures
        match r {
            Ok(v) => workbook_sheets(extension@, bytes@) == Ok::<Seq<SheetRead>, Seq<char>>(
                v@.map_values(|x: (String, Result<Vec<Vec<String>>, String>)| sheet_read_view(x)),
            ),
            Err(e) => workbook_sheets(extension@, bytes@) == Err::<Seq<SheetRead>, Seq<char>>(e@),
        },
{
    let opened = if is_text(extension, "xls") || is_text(extension, "xla") {
        open_xls(bytes)
    } else if is_text(extension, "xlsx") || is_text(extension, "xlsm") || is_text(extension, "xlam") {
        open_xlsx(bytes)
    } else if is_text(extension, "xlsb") {
        open_xlsb(bytes)
    } else if is_text(extension, "ods") {
        open_ods(bytes)
    } else {
        open_detected(bytes)
    };
    match opened {
        Ok(book) => Ok(read_sheets(book)),
        Err(e) => Err(e),
    }
}

/// The sheets that could be read, in order.
pub open spec fn readable_sheets(ss: Seq<SheetRead>) -> Seq<(Seq<char>, RowsView)>
    decreases ss.len(),
{
    if ss.len() == 0 {
        Seq::empty()
    } else {
        readable_sheets(ss.drop_last()) + match ss.last().1 {
            Ok(rows) => seq![(ss.last().0, rows)],
            Err(_) => Seq::empty(),
        }
    }
}

/// What reading a workbook from its bytes gives: the message shown when it
/// cannot be opened, or its entries. A sheet that cannot be read is passed over.
pub open spec fn workbook_outcome(extension: Seq<char>, bytes: Seq<u8>) -> Result<Seq<EntryView>, Seq<char>> {
    match workbook_sheets(extension, bytes) {
        Err(e) => Err("Excel 解析失败: "@ + e),
        Ok(ss) => Ok(dedup_entries(sheets_entries(readable_sheets(ss)))),
    }
}

/// The standards listed in a workbook given as the extension of its file name
/// and the bytes of the file; see `parse_sheets`.
pub fn parse_workbook(extension: &str, bytes: &[u8]) -> (r: Result<Vec<StandardEntry>, String>)
    ensures
        match r {
            Ok(v) => workbook_outcome(extension@, bytes@) == Ok::<Seq<EntryView>, Seq<char>>(
                entry_views(v@),
            ),
            Err(e) => workbook_outcome(extension@, bytes@) == Err::<Seq<EntryView>, Seq<char>>(e@),
        },
{
    match open_workbook(extension, bytes) {
        Err(e) => {
            let mut m = chars_of("Excel 解析失败: ");
            push_str(&mut m, e.as_str());
            Err(string_of(&m))
        },
        Ok(read) => {
            let n: usize = read.len();
            let ghost all = read@.map_values(
                |x: (String, Result<Vec<Vec<String>>, String>)| sheet_read_view(x),
            );
            proof {
                assert(all.len() == n);
                assert(all.skip(0) =~= all);
                assert(readable_sheets(all.take(0)) =~= Seq::<(Seq<char>, RowsView)>::empty());
            }
            let mut rest = read;
            let mut sheets: Vec<SheetRows> = Vec::new();
            let mut k: usize = 0;
            while rest.len() > 0
                invariant
                    k + rest@.len() == all.len(),
                    all.len() <= usize::MAX,
                    rest@.map_values(
                        |x: (String, Result<Vec<Vec<String>>, String>)| sheet_read_view(x),
                    ) == all.skip(k as int),
                    sheets_view(sheets@) == readable_sheets(all.take(k as int)),
                decreases rest.len(),
            {
                let ghost before = sheets@;
                let ghost rv = rest@;
                let (name, rows) = rest.remove(0);
                proof {
                    assert(sheet_read_view((name, rows)) == all[k as int]) by {
                        assert(rv.map_values(
                            |x: (String, Result<Vec<Vec<String>>, String>)| sheet_read_view(x),
                        )[0] == all.skip(k as int)[0]);
                    }
                    let f = |x: (String, Result<Vec<Vec<String>>, String>)| sheet_read_view(x);
                    assert forall|j: int| 0 <= j < rest@.len() implies #[trigger] rest@.map_values(f)[j]
                        == all.skip(k + 1)[j] by {
                        assert(rest@[j] == rv[j + 1]);
                        assert(rv.map_values(f)[j + 1] == all.skip(k as int)[j + 1]);
                    }
                    assert(rest@.map_values(f) =~= all.skip(k + 1));
                    assert(all.take(k + 1).drop_last() == all.take(k as int));
                    assert(all.take(k + 1).last() == all[k as int]);
                }
                match rows {
                    Ok(rows) => {
                        let sh = SheetRows { name, rows };
                        sheets.push(sh);
                        proof {
                            assert(sheets_view(sheets@) =~= sheets_view(before).push(sheet_view(sh)));
                        }
                    },
                    Err(_) => {},
                }
                k = k + 1;
            }
            proof {
                assert(all.take(k as int) == all);
            }
            Ok(parse_sheets(&sheets))
        },
    }
}

/// A workbook lists each code once: of the entries found for a code, one with
/// a name is kept when there is one, and among those the one on the smallest
/// row number (the first of equals); every code found is kept, and every entry
/// kept was found.
pub proof fn law_workbook_one_entry_per_code(sheets: Seq<(Seq<char>, RowsView)>)
    ensures
        codes_distinct(dedup_entries(sheets_entries(sheets))),
        best_kept(sheets_entries(sheets), dedup_entries(sheets_entries(sheets))),
        drawn_from(dedup_entries(sheets_entries(sheets)), sheets_entries(sheets)),
{
    law_dedup_one_best_per_code(sheets_entries(sheets));
}

} // verus!
