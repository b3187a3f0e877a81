//! Entries of a Word document (the XML parts of a `.docx`): every dated code
//! in the table rows and in the paragraphs outside tables.
//!
//! The archive is opened by `zip`, the XML is tokenised by `quick_xml`; the walk
//! over the events is a state machine specified by `docx_step`.
use vstd::prelude::*;
use std::io::Read;
use quick_xml::Reader;
use quick_xml::events::Event;
use crate::models::StandardEntry;
use crate::parsers::entries::{
    EntryView, concat_groups, dedup_entries, entry_view, entry_views, merge_entries,
    paragraph_entries, row_entries, scan_paragraph, scan_row_chars,
};
use crate::text::{chars_equal, chars_of, decimal, decimal_chars, push_all, push_str, string_of, views};

verus! {

#[verifier::external_type_specification]
#[verifier::external_body]
#[verifier::reject_recursive_types(R)]
pub struct ExXmlReader<R>(Reader<R>);

/// An XML event as the walk sees it.
pub enum XmlEvent {
    /// A start tag, with its local name.
    Start(Vec<u8>),
    /// An end tag, with its local name.
    End(Vec<u8>),
    /// Character data, unescaped; `None` when it could not be unescaped.
    Text(Option<String>),
    /// The end of the document.
    Eof,
    /// The document is malformed at this point.
    Failed,
    /// Any other event.
    Other,
}

/// An XML event as a value: tag names as bytes, text as characters.
pub enum XmlEventView {
    Start(Seq<u8>),
    End(Seq<u8>),
    Text(Option<Seq<char>>),
    Eof,
    Failed,
    Other,
}

pub open spec fn event_view(e: XmlEvent) -> XmlEventView {
    match e {
        XmlEvent::Start(n) => XmlEventView::Start(n@),
        XmlEvent::End(n) => XmlEventView::End(n@),
        XmlEvent::Text(t) => XmlEventView::Text(
            match t {
                Some(s) => Some(s@),
                None => None,
            },
        ),
        XmlEvent::Eof => XmlEventView::Eof,
        XmlEvent::Failed => XmlEventView::Failed,
        XmlEvent::Other => XmlEventView::Other,
    }
}

pub open spec fn events_view(evs: Seq<XmlEvent>) -> Seq<XmlEventView> {
    evs.map_values(|e: XmlEvent| event_view(e))
}

/// The end of the document, or the point where it is malformed: the reader
/// yields nothing more of the document after it.
pub open spec fn is_last_event(e: XmlEventView) -> bool {
    e is Eof || e is Failed
}

/// A list of events that ends with its first end of document or error.
pub open spec fn ends_once(evs: Seq<XmlEventView>) -> bool {
    &&& evs.len() > 0
    &&& is_last_event(evs.last())
    &&& forall|i: int| 0 <= i < evs.len() - 1 ==> !is_last_event(#[trigger] evs[i])
}

/// The events that `quick_xml` reads from a text with a fresh reader (tag names
/// as local names, text unescaped, as `next_xml_event` gives them), up to and
/// including the end of the document or the first error.
pub uninterp spec fn xml_events(xml: Seq<char>) -> Seq<XmlEventView>;

/// The events that a reader yields from where it stands (as `next_xml_event`
/// gives them), up to and including the next end of document or error.
pub uninterp spec fn events_ahead(reader: Reader<&[u8]>) -> Seq<XmlEventView>;

/// `quick_xml::Reader::from_str`: a reader at the start of the text, whose
/// events ahead are the events of the text. Every event but the end of the
/// document consumes at least one byte of the text (`read_text` stops at the
/// next `<`, markup runs to the next `>`), so the list is finite and ends once.
#[verifier::external_body]
fn xml_reader<'a>(xml: &'a str) -> (r: Reader<&'a [u8]>)
    ensures
        events_ahead(r) == xml_events(xml@),
        ends_once(events_ahead(r)),
{
    Reader::from_str(xml)
}

/// `quick_xml::Reader::read_event`: the first of the events ahead, with the
/// local name of a start or end tag (`BytesStart::local_name`,
/// `BytesEnd::local_name`) and the unescaped text of character data
/// (`BytesText::unescape`). Unless it ends the document or reports an error,
/// the reader moves past it. What the reader yields after an end or an error is
/// left unsaid, beyond that it again ends once.
#[verifier::external_body]
fn next_xml_event<'a>(reader: &mut Reader<&'a [u8]>) -> (ev: XmlEvent)
    ensures
        event_view(ev) == events_ahead(*old(reader))[0],
        !is_last_event(event_view(ev)) ==> events_ahead(*final(reader)) == events_ahead(
            *old(reader),
        ).drop_first(),
        ends_once(events_ahead(*final(reader))),
{
    match reader.read_event() {
        Ok(Event::Start(e)) => XmlEvent::Start(e.local_name().as_ref().to_vec()),
        Ok(Event::End(e)) => XmlEvent::End(e.local_name().as_ref().to_vec()),
        Ok(Event::Text(e)) => XmlEvent::Text(e.unescape().ok().map(|t| t.into_owned())),
        Ok(Event::Eof) => XmlEvent::Eof,
        Ok(_) => XmlEvent::Other,
        Err(_) => XmlEvent::Failed,
    }
}

/// Where the walk over a document stands.
pub struct DocxState {
    pub in_table: bool,
    pub in_cell: bool,
    pub in_text: bool,
    pub row: Seq<Seq<char>>,
    pub cell: Seq<char>,
    pub para: Seq<char>,
    pub table_idx: nat,
    pub row_idx: nat,
    pub para_idx: nat,
    pub entries: Seq<EntryView>,
}

pub open spec fn tag_is(name: Seq<u8>, tag: Seq<u8>) -> bool {
    name == tag
}

pub open spec fn tag_tbl() -> Seq<u8> {
    seq![116u8, 98u8, 108u8]
}

pub open spec fn tag_tr() -> Seq<u8> {
    seq![116u8, 114u8]
}

pub open spec fn tag_tc() -> Seq<u8> {
    seq![116u8, 99u8]
}

pub open spec fn tag_p() -> Seq<u8> {
    seq![112u8]
}

pub open spec fn tag_t() -> Seq<u8> {
    seq![116u8]
}

/// The state before the first event.
pub open spec fn docx_start() -> DocxState {
    DocxState {
        in_table: false,
        in_cell: false,
        in_text: false,
        row: Seq::empty(),
        cell: Seq::empty(),
        para: Seq::empty(),
        table_idx: 0,
        row_idx: 0,
        para_idx: 0,
        entries: Seq::empty(),
    }
}

/// The label of the n-th table, used as its sheet name.
pub open spec fn table_label(n: nat) -> Seq<char> {
    "表格 "@ + decimal(n)
}

/// One step of the walk:
/// * `<tbl>` enters a table and counts it; its rows are counted from 1;
/// * `<tr>` starts a row, `<tc>` a cell, `<t>` a text run;
/// * `<p>` inside a cell starts a new line of the cell, outside a table a new paragraph;
/// * text inside a text run goes to the cell, or outside tables to the paragraph;
/// * `</tc>` adds the cell to the row; `</tr>` reads the row's entries;
/// * `</p>` outside tables counts the paragraph and reads its entries.
pub open spec fn docx_step(st: DocxState, ev: XmlEventView, sheet: Seq<char>) -> DocxState {
    match ev {
        XmlEventView::Start(n) => {
            if tag_is(n, tag_tbl()) {
                DocxState { in_table: true, table_idx: st.table_idx + 1, row_idx: 0, ..st }
            } else if tag_is(n, tag_tr()) {
                DocxState { row_idx: st.row_idx + 1, row: Seq::empty(), ..st }
            } else if tag_is(n, tag_tc()) {
                DocxState { in_cell: true, cell: Seq::empty(), ..st }
            } else if tag_is(n, tag_p()) {
                DocxState {
                    cell: if st.in_cell && st.cell.len() > 0 && st.cell.last() != '\n' {
                        st.cell.push('\n')
                    } else {
                        st.cell
                    },
                    para: if !st.in_table {
                        Seq::empty()
                    } else {
                        st.para
                    },
                    ..st
                }
            } else if tag_is(n, tag_t()) {
                DocxState { in_text: true, ..st }
            } else {
                st
            }
        },
        XmlEventView::Text(t) => match t {
            Some(text) => if st.in_text && st.in_cell {
                DocxState { cell: st.cell + text, ..st }
            } else if st.in_text && !st.in_table {
                DocxState { para: st.para + text, ..st }
            } else {
                st
            },
            None => st,
        },
        XmlEventView::End(n) => {
            if tag_is(n, tag_t()) {
                DocxState { in_text: false, ..st }
            } else if tag_is(n, tag_tc()) {
                DocxState { in_cell: false, row: st.row.push(st.cell), cell: Seq::empty(), ..st }
            } else if tag_is(n, tag_tr()) {
                DocxState {
                    entries: st.entries + row_entries(
                        st.row,
                        st.row_idx as u32,
                        table_label(st.table_idx),
                    ),
                    row: Seq::empty(),
                    ..st
                }
            } else if tag_is(n, tag_tbl()) {
                DocxState { in_table: false, ..st }
            } else if tag_is(n, tag_p()) && !st.in_table {
                DocxState {
                    para_idx: st.para_idx + 1,
                    entries: st.entries + paragraph_entries(
                        st.para,
                        (st.para_idx + 1) as u32,
                        sheet,
                    ),
                    para: Seq::empty(),
                    ..st
                }
            } else {
                st
            }
        },
        _ => st,
    }
}

/// The walk over a list of events; it stops at the end of the document or
/// where the document is malformed.
pub open spec fn docx_run(st: DocxState, evs: Seq<XmlEventView>, sheet: Seq<char>) -> DocxState
    decreases evs.len(),
{
    if evs.len() == 0 {
        st
    } else {
        match evs[0] {
            XmlEventView::Eof => st,
            XmlEventView::Failed => st,
            _ => docx_run(docx_step(st, evs[0], sheet), evs.drop_first(), sheet),
        }
    }
}

/// The entries read from a list of events.
pub open spec fn docx_entries(evs: Seq<XmlEventView>, sheet: Seq<char>) -> Seq<EntryView> {
    docx_run(docx_start(), evs, sheet).entries
}

struct DocxScan {
    in_table: bool,
    in_cell: bool,
    in_text: bool,
    row: Vec<Vec<char>>,
    cell: Vec<char>,
    para: Vec<char>,
    table_idx: usize,
    row_idx: usize,
    para_idx: usize,
    entries: Vec<StandardEntry>,
}

spec fn scan_view(s: DocxScan) -> DocxState {
    DocxState {
        in_table: s.in_table,
        in_cell: s.in_cell,
        in_text: s.in_text,
        row: views(s.row@),
        cell: s.cell@,
        para: s.para@,
        table_idx: s.table_idx as nat,
        row_idx: s.row_idx as nat,
        para_idx: s.para_idx as nat,
        entries: entry_views(s.entries@),
    }
}

fn tag_eq(name: &Vec<u8>, tag: &[u8]) -> (r: bool)
    ensures
        r == (name@ == tag@),
{
    if name.len() != tag.len() {
        return false;
    }
    let mut k: usize = 0;
    while k < name.len()
        invariant
            k <= name.len(),
            name.len() == tag@.len(),
            forall|j: int| 0 <= j < k ==> name@[j] == tag@[j],
        decreases name.len() - k,
    {
        if name[k] != tag[k] {
            return false;
        }
        k = k + 1;
    }
    proof {
        assert(name@ =~= tag@);
    }
    true
}

fn is_tbl(name: &Vec<u8>) -> (r: bool)
    ensures
        r == tag_is(name@, tag_tbl()),
{
    let t: [u8; 3] = [116u8, 98u8, 108u8];
    let r = tag_eq(name, &t);
    proof {
        assert(t@ =~= tag_tbl());
    }
    r
}

fn is_tr(name: &Vec<u8>) -> (r: bool)
    ensures
        r == tag_is(name@, tag_tr()),
{
    let t: [u8; 2] = [116u8, 114u8];
    let r = tag_eq(name, &t);
    proof {
        assert(t@ =~= tag_tr());
    }
    r
}

fn is_tc(name: &Vec<u8>) -> (r: bool)
    ensures
        r == tag_is(name@, tag_tc()),
{
    let t: [u8; 2] = [116u8, 99u8];
    let r = tag_eq(name, &t);
    proof {
        assert(t@ =~= tag_tc());
    }
    r
}

fn is_p(name: &Vec<u8>) -> (r: bool)
    ensures
        r == tag_is(name@, tag_p()),
{
    let t: [u8; 1] = [112u8];
    let r = tag_eq(name, &t);
    proof {
        assert(t@ =~= tag_p());
    }
    r
}

fn is_t(name: &Vec<u8>) -> (r: bool)
    ensures
        r == tag_is(name@, tag_t()),
{
    let t: [u8; 1] = [116u8];
    let r = tag_eq(name, &t);
    proof {
        assert(t@ =~= tag_t());
    }
    r
}

fn append_entries(out: &mut Vec<StandardEntry>, found: Vec<StandardEntry>)
    ensures
        entry_views(final(out)@) == entry_views(old(out)@) + entry_views(found@),
{
    let mut k: usize = 0;
    while k < found.len()
        invariant
            k <= found.len(),
            entry_views(out@) == entry_views(old(out)@) + entry_views(found@.take(k as int)),
        decreases found.len() - k,
    {
        let ghost prev = out@;
        out.push(found[k].duplicate());
        proof {
            assert(entry_views(out@) =~= entry_views(prev).push(entry_view(found@[k as int])));
            assert(entry_views(found@.take(k + 1)) =~= entry_views(found@.take(k as int)).push(
                entry_view(found@[k as int]),
            ));
        }
        k = k + 1;
    }
    proof {
        assert(found@.take(found@.len() as int) == found@);
    }
}

fn table_label_exec(n: usize) -> (r: String)
    ensures
        r@ == table_label(n as nat),
{
    let mut v = chars_of("表格 ");
    let d = decimal_chars(n as u64);
    push_all(&mut v, &d);
    string_of(&v)
}

fn docx_step_exec(st: &mut DocxScan, ev: &XmlEvent, sheet: &str)
    requires
        old(st).table_idx < usize::MAX,
        old(st).row_idx < usize::MAX,
        old(st).para_idx < usize::MAX,
    ensures
        scan_view(*final(st)) == docx_step(scan_view(*old(st)), event_view(*ev), sheet@),
        final(st).table_idx <= old(st).table_idx + 1,
        final(st).row_idx <= old(st).row_idx + 1 || final(st).row_idx == 0,
        final(st).para_idx <= old(st).para_idx + 1,
{
    match ev {
        XmlEvent::Start(n) => {
            if is_tbl(n) {
                st.in_table = true;
                st.table_idx = st.table_idx + 1;
                st.row_idx = 0;
            } else if is_tr(n) {
                st.row_idx = st.row_idx + 1;
                st.row = Vec::new();
                proof {
                    assert(views(st.row@) =~= Seq::<Seq<char>>::empty());
                }
            } else if is_tc(n) {
                st.in_cell = true;
                st.cell = Vec::new();
            } else if is_p(n) {
                if st.in_cell && st.cell.len() > 0 && st.cell[st.cell.len() - 1] != '\n' {
                    st.cell.push('\n');
                }
                if !st.in_table {
                    st.para = Vec::new();
                }
            } else if is_t(n) {
                st.in_text = true;
            }
        },
        XmlEvent::Text(t) => match t {
            Some(text) => {
                if st.in_text && st.in_cell {
                    let c = chars_of(text.as_str());
                    push_all(&mut st.cell, &c);
                } else if st.in_text && !st.in_table {
                    let c = chars_of(text.as_str());
                    push_all(&mut st.para, &c);
                }
            },
            None => {},
        },
        XmlEvent::End(n) => {
            if is_t(n) {
                st.in_text = false;
            } else if is_tc(n) {
                st.in_cell = false;
                let mut cell: Vec<char> = Vec::new();
                std::mem::swap(&mut cell, &mut st.cell);
                let ghost before = st.row@;
                st.row.push(cell);
                proof {
                    assert(views(st.row@) =~= views(before).push(cell@));
                }
            } else if is_tr(n) {
                let label = table_label_exec(st.table_idx);
                let found = scan_row_chars(&st.row, st.row_idx as u32, label.as_str());
                append_entries(&mut st.entries, found);
                st.row = Vec::new();
                proof {
                    assert(views(st.row@) =~= Seq::<Seq<char>>::empty());
                }
            } else if is_tbl(n) {
                st.in_table = false;
            } else if is_p(n) && !st.in_table {
                st.para_idx = st.para_idx + 1;
                let found = scan_paragraph(&st.para, st.para_idx as u32, sheet);
                append_entries(&mut st.entries, found);
                st.para = Vec::new();
            }
        },
        _ => {},
    }
}

/// The entries read from a list of XML events of a document part, with
/// `default_sheet` as the sheet of paragraph entries.
pub fn entries_from_events(events: &Vec<XmlEvent>, default_sheet: &str) -> (r: Vec<StandardEntry>)
    ensures
        entry_views(r@) == docx_entries(events_view(events@), default_sheet@),
{
    let ghost evs = events_view(events@);
    let mut st = DocxScan {
        in_table: false,
        in_cell: false,
        in_text: false,
        row: Vec::new(),
        cell: Vec::new(),
        para: Vec::new(),
        table_idx: 0,
        row_idx: 0,
        para_idx: 0,
        entries: Vec::new(),
    };
    proof {
        assert(views(st.row@) =~= Seq::<Seq<char>>::empty());
        assert(entry_views(st.entries@) =~= Seq::<EntryView>::empty());
        assert(st.cell@ =~= Seq::<char>::empty());
        assert(st.para@ =~= Seq::<char>::empty());
        assert(scan_view(st) == docx_start());
        assert(evs.subrange(0, evs.len() as int) == evs);
    }
    let mut i: usize = 0;
    let mut stopped = false;
    while i < events.len() && !stopped
        invariant
            i <= events.len(),
            evs == events_view(events@),
            evs.len() == events@.len(),
            st.table_idx <= i,
            st.row_idx <= i,
            st.para_idx <= i,
            docx_run(scan_view(st), evs.subrange(i as int, evs.len() as int), default_sheet@)
                == docx_run(docx_start(), evs, default_sheet@),
            stopped ==> docx_run(
                scan_view(st),
                evs.subrange(i as int, evs.len() as int),
                default_sheet@,
            ) == scan_view(st),
        decreases events.len() - i, if stopped { 0int } else { 1int },
    {
        let ev = &events[i];
        proof {
            let rest = evs.subrange(i as int, evs.len() as int);
            assert(rest[0] == event_view(*ev));
            assert(rest.drop_first() == evs.subrange(i + 1, evs.len() as int));
        }
        match ev {
            XmlEvent::Eof => {
                stopped = true;
            },
            XmlEvent::Failed => {
                stopped = true;
            },
            _ => {
                docx_step_exec(&mut st, ev, default_sheet);
                i = i + 1;
            },
        }
    }
    proof {
        if !stopped {
            assert(evs.subrange(i as int, evs.len() as int).len() == 0);
        }
    }
    st.entries
}

/// The entries of one XML part of a Word document (`default_sheet` names the
/// part for paragraph entries): the events that `quick_xml` reads from the text,
/// up to the end of the document or the first error, walked as `docx_entries`
/// describes.
pub fn parse_document_xml(xml: &str, default_sheet: &str) -> (r: Vec<StandardEntry>)
    ensures
        entry_views(r@) == docx_entries(xml_events(xml@), default_sheet@),
{
    let mut reader = xml_reader(xml);
    let mut events: Vec<XmlEvent> = Vec::new();
    let mut done = false;
    while !done
        invariant
            ends_once(events_ahead(reader)),
            !done ==> events_view(events@) + events_ahead(reader) == xml_events(xml@),
            done ==> events_view(events@) == xml_events(xml@),
        decreases if done { 0int } else { events_ahead(reader).len() as int + 1 },
    {
        let ghost ahead = events_ahead(reader);
        let ghost before = events@;
        let ev = next_xml_event(&mut reader);
        let last = match ev {
            XmlEvent::Eof => true,
            XmlEvent::Failed => true,
            _ => false,
        };
        events.push(ev);
        proof {
            assert(events_view(events@) =~= events_view(before).push(ahead[0]));
            if last {
                assert(ahead.len() == 1) by {
                    if ahead.len() > 1 {
                        assert(!is_last_event(ahead[0]));
                    }
                }
                assert(ahead =~= seq![ahead[0]]);
                assert(events_view(events@) =~= events_view(before) + ahead);
            } else {
                assert(ahead.len() > 1);
                assert(events_view(events@) + ahead.drop_first() =~= events_view(before) + ahead);
            }
        }
        done = last;
    }
    entries_from_events(&events, default_sheet)
}

/// The label of an extra part of a Word document (header, footer, footnotes,
/// endnotes), by its name in the archive; `None` for other parts.
pub open spec fn part_label(name: Seq<char>) -> Option<Seq<char>> {
    let known = name.len() >= 4 && name.subrange(name.len() - 4, name.len() as int) == ".xml"@ && (
    starts_with(name, "word/header"@) || starts_with(name, "word/footer"@) || starts_with(
        name,
        "word/footnotes"@,
    ) || starts_with(name, "word/endnotes"@));
    if !known {
        None
    } else if crate::text::contains_seq(name, "header"@) {
        Some("页眉"@)
    } else if crate::text::contains_seq(name, "footer"@) {
        Some("页脚"@)
    } else if crate::text::contains_seq(name, "footnote"@) {
        Some("脚注"@)
    } else {
        Some("尾注"@)
    }
}

pub open spec fn starts_with(s: Seq<char>, p: Seq<char>) -> bool {
    p.len() <= s.len() && s.subrange(0, p.len() as int) == p
}

fn starts_with_exec(s: &Vec<char>, p: &Vec<char>) -> (r: bool)
    ensures
        r == starts_with(s@, p@),
{
    if p.len() > s.len() {
        return false;
    }
    let head = crate::text::slice_chars(s, 0, p.len());
    crate::text::chars_equal(&head, p)
}

/// The label under which the entries of an archive part are listed, for the
/// extra parts of a Word document that are read besides the body.
pub fn docx_part_label(name: &str) -> (r: Option<String>)
    ensures
        match r {
            Some(l) => part_label(name@) == Some(l@),
            None => part_label(name@) is None,
        },
{
    let s = chars_of(name);
    let xml = chars_of(".xml");
    let ends_xml = s.len() >= 4 && {
        let tail = crate::text::slice_chars(&s, s.len() - 4, s.len());
        crate::text::chars_equal(&tail, &xml)
    };
    let known = ends_xml && (starts_with_exec(&s, &chars_of("word/header")) || starts_with_exec(
        &s,
        &chars_of("word/footer"),
    ) || starts_with_exec(&s, &chars_of("word/footnotes")) || starts_with_exec(
        &s,
        &chars_of("word/endnotes"),
    ));
    if !known {
        return None;
    }
    if crate::text::contains_exec(&s, &chars_of("header")) {
        Some(String::from_str("页眉"))
    } else if crate::text::contains_exec(&s, &chars_of("footer")) {
        Some(String::from_str("页脚"))
    } else if crate::text::contains_exec(&s, &chars_of("footnote")) {
        Some(String::from_str("脚注"))
    } else {
        Some(String::from_str("尾注"))
    }
}

// ---------------------------------------------------------------- reading a document file

/// An entry of a `.docx` archive as read: its name and its contents as text (or
/// the error met in reading them), or nothing when the entry cannot be opened.
pub type PartRead = Option<(Seq<char>, Result<Seq<char>, Seq<char>>)>;

/// The entries of the zip archive whose bytes are given, in the archive's
/// order, as `zip` reads them; or the error met in opening the archive.
pub uninterp spec fn archive_parts(bytes: Seq<u8>) -> Result<Seq<PartRead>, Seq<char>>;

pub open spec fn part_read_view(x: Option<(String, Result<String, String>)>) -> PartRead {
    match x {
        Some(p) => Some(
            (
                p.0@,
                match p.1 {
                    Ok(t) => Ok(t@),
                    Err(e) => Err(e@),
                },
            ),
        ),
        None => None,
    }
}

pub open spec fn parts_view(v: Seq<Option<(String, Result<String, String>)>>) -> Seq<PartRead> {
    v.map_values(|x: Option<(String, Result<String, String>)>| part_read_view(x))
}

/// `zip::ZipArchive::new` over the bytes, then for each index in turn
/// `by_index`, the entry's `name` and `std::io::Read::read_to_string`. The
/// result is what `archive_parts` names; an entry that cannot be opened, or
/// whose name cannot be decoded, is `None`; errors are given by their text.
#[verifier::external_body]
fn read_archive_parts(bytes: &[u8]) -> (r: Result<Vec<Option<(String, Result<String, String>)>>, String>)
    ensures
        match r {
            Ok(v) => archive_parts(bytes@) == Ok::<Seq<PartRead>, Seq<char>>(parts_view(v@)),
            Err(e) => archive_parts(bytes@) == Err::<Seq<PartRead>, Seq<char>>(e@),
        },
{
    let mut archive = zip::ZipArchive::new(std::io::Cursor::new(bytes.to_vec()))
        .map_err(|e| e.to_string())?;
    let mut parts = Vec::new();
    for i in 0..archive.len() {
        let mut f = match archive.by_index(i) { Ok(f) => f, Err(_) => { parts.push(None); continue; } };
        let name = match f.name() { Ok(n) => n.to_string(), Err(_) => { parts.push(None); continue; } };
        let mut text = String::new();
        let read = f.read_to_string(&mut text).map(|_| text).map_err(|e| e.to_string());
        parts.push(Some((name, read)));
    }
    Ok(parts)
}

pub open spec fn is_main_part(p: PartRead) -> bool {
    p matches Some(q) && q.0 == "word/document.xml"@
}

/// `i` is the first entry that is the main document part.
pub open spec fn main_part_at(parts: Seq<PartRead>, i: int) -> bool {
    &&& 0 <= i < parts.len()
    &&& is_main_part(parts[i])
    &&& forall|j: int| 0 <= j < i ==> !is_main_part(#[trigger] parts[j])
}

/// The entries of the readable headers, footers, footnotes and endnotes among
/// `parts`, part after part, each under its label.
pub open spec fn extra_entries(parts: Seq<PartRead>) -> Seq<EntryView>
    decreases parts.len(),
{
    if parts.len() == 0 {
        Seq::empty()
    } else {
        extra_entries(parts.drop_last()) + match parts.last() {
            Some(p) => match (p.1, part_label(p.0)) {
                (Ok(x), Some(l)) => docx_entries(xml_events(x), l),
                _ => Seq::empty(),
            },
            None => Seq::empty(),
        }
    }
}

pub open spec fn docx_open_message() -> Seq<char> {
    "Word 解析失败: 打开 Word 文档失败（如为老版本二进制 .doc 格式，请在 Word 中另存为 .docx 格式后导入）："@
}

pub open spec fn docx_missing_message() -> Seq<char> {
    "Word 解析失败: 无效的 DOCX 文件：未找到 word/document.xml"@
}

/// What reading a Word document from its bytes gives:
/// * the archive cannot be opened: a message with the reason;
/// * there is no readable `word/document.xml`: a message saying so;
/// * the main part cannot be read as text: the reading error;
/// * else the entries of the main part (under `正文`), then of the readable
///   extra parts in archive order, one entry per code.
pub open spec fn docx_outcome(bytes: Seq<u8>) -> Result<Seq<EntryView>, Seq<char>> {
    match archive_parts(bytes) {
        Err(e) => Err(docx_open_message() + e),
        Ok(parts) => if exists|i: int| main_part_at(parts, i) {
            let i = choose|i: int| main_part_at(parts, i);
            match parts[i] {
                Some(p) => match p.1 {
                    Ok(x) => Ok(
                        dedup_entries(docx_entries(xml_events(x), "正文"@) + extra_entries(parts)),
                    ),
                    Err(e) => Err("IO 错误: "@ + e),
                },
                None => Err(docx_missing_message()),
            }
        } else {
            Err(docx_missing_message())
        },
    }
}

fn is_main_name(name: &String) -> (r: bool)
    ensures
        r == (name@ == "word/document.xml"@),
{
    chars_equal(&chars_of(name.as_str()), &chars_of("word/document.xml"))
}

/// The standards listed in a Word document given as the bytes of its file.
pub fn parse_docx(bytes: &[u8]) -> (r: Result<Vec<StandardEntry>, String>)
    ensures
        match r {
            Ok(v) => docx_outcome(bytes@) == Ok::<Seq<EntryView>, Seq<char>>(entry_views(v@)),
            Err(e) => docx_outcome(bytes@) == Err::<Seq<EntryView>, Seq<char>>(e@),
        },
{
    let parts = match read_archive_parts(bytes) {
        Err(e) => {
            let mut m = chars_of(
                "Word 解析失败: 打开 Word 文档失败（如为老版本二进制 .doc 格式，请在 Word 中另存为 .docx 格式后导入）：",
            );
            push_str(&mut m, e.as_str());
            return Err(string_of(&m));
        },
        Ok(parts) => parts,
    };
    let ghost pv = parts_view(parts@);
    let mut i: usize = 0;
    let mut found = false;
    while i < parts.len() && !found
        invariant
            i <= parts.len(),
            pv == parts_view(parts@),
            forall|j: int| 0 <= j < i ==> !is_main_part(#[trigger] pv[j]),
            found ==> i < parts.len() && is_main_part(pv[i as int]),
        decreases parts.len() - i, if found { 0int } else { 1int },
    {
        let hit = match &parts[i] {
            Some(p) => is_main_name(&p.0),
            None => false,
        };
        proof {
            assert(pv[i as int] == part_read_view(parts@[i as int]));
        }
        if hit {
            found = true;
        } else {
            i = i + 1;
        }
    }
    if !found {
        proof {
            assert(!exists|j: int| main_part_at(pv, j));
        }
        return Err(String::from_str("Word 解析失败: 无效的 DOCX 文件：未找到 word/document.xml"));
    }
    proof {
        assert(main_part_at(pv, i as int));
        let c = choose|j: int| main_part_at(pv, j);
        assert(c == i) by {
            if c < i {
                assert(!is_main_part(pv[c]));
            } else if c > i {
                assert(!is_main_part(pv[i as int]));
            }
        }
    }
    let main = match &parts[i] {
        Some(p) => match &p.1 {
            Ok(xml) => parse_document_xml(xml.as_str(), "正文"),
            Err(e) => {
                let mut m = chars_of("IO 错误: ");
                push_str(&mut m, e.as_str());
                return Err(string_of(&m));
            },
        },
        None => {
            return Err(String::from_str("Word 解析失败: 无效的 DOCX 文件：未找到 word/document.xml"));
        },
    };
    let ghost main_v = entry_views(main@);
    let mut groups: Vec<Vec<StandardEntry>> = Vec::new();
    groups.push(main);
    proof {
        let gv = groups@.map_values(|g: Vec<StandardEntry>| entry_views(g@));
        assert(gv.drop_last() =~= Seq::<Seq<EntryView>>::empty());
        assert(gv.last() == main_v);
        assert(pv.take(0) =~= Seq::<PartRead>::empty());
        assert(main_v + extra_entries(pv.take(0)) =~= main_v);
        assert(concat_groups(gv.drop_last()) =~= Seq::<EntryView>::empty());
        assert(concat_groups(gv) =~= main_v);
    }
    let mut k: usize = 0;
    while k < parts.len()
        invariant
            k <= parts.len(),
            pv == parts_view(parts@),
            concat_groups(groups@.map_values(|g: Vec<StandardEntry>| entry_views(g@))) == main_v
                + extra_entries(pv.take(k as int)),
        decreases parts.len() - k,
    {
        let ghost before = groups@;
        proof {
            assert(pv.take(k + 1).drop_last() == pv.take(k as int));
            assert(pv.take(k + 1).last() == part_read_view(parts@[k as int]));
        }
        match &parts[k] {
            Some(p) => match &p.1 {
                Ok(xml) => match docx_part_label(p.0.as_str()) {
                    Some(label) => {
                        let found = parse_document_xml(xml.as_str(), label.as_str());
                        groups.push(found);
                        proof {
                            let gv = groups@.map_values(|g: Vec<StandardEntry>| entry_views(g@));
                            let bv = before.map_values(|g: Vec<StandardEntry>| entry_views(g@));
                            assert(gv.drop_last() =~= bv);
                            assert(gv.last() == entry_views(found@));
                            assert(extra_entries(pv.take(k + 1)) == extra_entries(pv.take(k as int))
                                + entry_views(found@));
                        }
                    },
                    None => {
                        proof {
                            assert(extra_entries(pv.take(k + 1)) =~= extra_entries(pv.take(k as int)));
                        }
                    },
                },
                Err(_) => {
                    proof {
                        assert(extra_entries(pv.take(k + 1)) =~= extra_entries(pv.take(k as int)));
                    }
                },
            },
            None => {
                proof {
                    assert(extra_entries(pv.take(k + 1)) =~= extra_entries(pv.take(k as int)));
                }
            },
        }
        k = k + 1;
    }
    proof {
        assert(pv.take(pv.len() as int) == pv);
    }
    Ok(merge_entries(&groups))
}

} // verus!
