//! What a user request turns into: a lookup by code or by name, which reader
//! opens a file, and the address that shows a page of a PDF file.
use vstd::prelude::*;
use crate::naming::{split_exec, split_from};
use crate::services::standard_parser::{
    contains_code, extract_code, extracted_code, lowercase, mentions_code, to_lowercase,
};
use crate::services::url_text::{percent_encode, url_encode};
use crate::text::{
    CharClass, chars_equal, chars_of, decimal, decimal_chars, join, join_chars, push_all, push_str,
    string_of, trim, trim_chars, views,
};

verus! {

/// How a query text is looked up.
#[derive(Debug, Clone, PartialEq, Eq)]
pub enum LookupPlan {
    /// The text holds no code: look it up by name, as typed (trimmed).
    ByName(String),
    /// Look up the code found in the text.
    ByCode(String),
}

pub open spec fn plan_view(p: LookupPlan) -> (bool, Seq<char>) {
    match p {
        LookupPlan::ByName(n) => (false, n@),
        LookupPlan::ByCode(c) => (true, c@),
    }
}

/// A text that mentions a code is looked up by the code found in it; any other
/// text, trimmed, is looked up by name.
pub open spec fn planned(input: Seq<char>) -> (bool, Seq<char>) {
    if mentions_code(trim(input)) {
        (true, extracted_code(input))
    } else {
        (false, trim(input))
    }
}

/// Decides how a query text is looked up.
pub fn plan_lookup(input: &str) -> (r: LookupPlan)
    ensures
        plan_view(r) == planned(input@),
{
    let chars = chars_of(input);
    let raw = trim_chars(&chars, CharClass::Space);
    let raw_str = string_of(&raw);
    if contains_code(raw_str.as_str()) {
        LookupPlan::ByCode(extract_code(input))
    } else {
        LookupPlan::ByName(raw_str)
    }
}

/// The readers of appendix files.
#[derive(Debug, Clone, Copy, PartialEq, Eq)]
pub enum FileKind {
    Excel,
    Pdf,
    Word,
}

/// The reader for a file extension, compared in lower case; the lower-case
/// extension when no reader takes it.
pub open spec fn kind_of(extension: Seq<char>) -> Result<FileKind, Seq<char>> {
    let e = lowercase(extension);
    if e == "xlsx"@ || e == "xls"@ {
        Ok(FileKind::Excel)
    } else if e == "pdf"@ {
        Ok(FileKind::Pdf)
    } else if e == "docx"@ || e == "doc"@ {
        Ok(FileKind::Word)
    } else {
        Err(e)
    }
}

/// Chooses the reader for a file by its extension.
pub fn file_kind(extension: &str) -> (r: Result<FileKind, String>)
    ensures
        match r {
            Ok(k) => kind_of(extension@) == Ok::<FileKind, Seq<char>>(k),
            Err(e) => kind_of(extension@) == Err::<FileKind, Seq<char>>(e@),
        },
{
    let lower = to_lowercase(extension);
    let e = chars_of(lower.as_str());
    let xlsx = chars_of("xlsx");
    let xls = chars_of("xls");
    let pdf = chars_of("pdf");
    let docx = chars_of("docx");
    let doc = chars_of("doc");
    if chars_equal(&e, &xlsx) || chars_equal(&e, &xls) {
        Ok(FileKind::Excel)
    } else if chars_equal(&e, &pdf) {
        Ok(FileKind::Pdf)
    } else if chars_equal(&e, &docx) || chars_equal(&e, &doc) {
        Ok(FileKind::Word)
    } else {
        Err(lower)
    }
}

/// `s` with every `a` written as `b`.
pub open spec fn swap_char(s: Seq<char>, a: char, b: char) -> Seq<char> {
    s.map_values(|c: char| if c == a { b } else { c })
}

/// A piece of a path in the address: a drive name such as `C:` as it is,
/// anything else percent-encoded.
pub open spec fn path_piece(seg: Seq<char>) -> Seq<char> {
    if seg.len() == 2 && seg[0] <= '\u{7f}' && seg[1] == ':' {
        seg
    } else {
        percent_encode(vstd::utf8::encode_utf8(seg))
    }
}

/// The address that opens a PDF file at a page: `file:///`, the path with
/// `/` between its pieces, `#page=` and the page number.
pub open spec fn page_address(path: Seq<char>, page: u32) -> Seq<char> {
    let pieces = split_from(swap_char(path, '\\', '/'), '/', 0);
    "file:///"@ + join(pieces.map_values(|p: Seq<char>| path_piece(p)), seq!['/']) + "#page="@
        + decimal(page as nat)
}

fn path_piece_exec(seg: &Vec<char>) -> (r: Vec<char>)
    ensures
        r@ == path_piece(seg@),
{
    if seg.len() == 2 && seg[0] <= '\u{7f}' && seg[1] == ':' {
        let mut r: Vec<char> = Vec::new();
        r.push(seg[0]);
        r.push(seg[1]);
        proof {
            assert(r@ =~= seg@);
        }
        r
    } else {
        let s = string_of(seg);
        let enc = url_encode(s.as_str());
        chars_of(enc.as_str())
    }
}

/// The address that opens the PDF file at `path` at page `page`.
pub fn pdf_page_url(path: &str, page: u32) -> (r: String)
    ensures
        r@ == page_address(path@, page),
{
    let chars = chars_of(path);
    let mut swapped: Vec<char> = Vec::new();
    let mut k: usize = 0;
    while k < chars.len()
        invariant
            k <= chars.len(),
            swapped@ == swap_char(chars@.take(k as int), '\\', '/'),
        decreases chars.len() - k,
    {
        let c = chars[k];
        swapped.push(if c == '\\' {
            '/'
        } else {
            c
        });
        proof {
            assert(swap_char(chars@.take(k + 1), '\\', '/') =~= swap_char(chars@.take(k as int), '\\', '/').push(
                if c == '\\' {
                    '/'
                } else {
                    c
                },
            ));
        }
        k = k + 1;
    }
    proof {
        assert(chars@.take(chars@.len() as int) =~= chars@);
    }
    let pieces = split_exec(&swapped, '/');
    let ghost pv = views(pieces@);
    let mut encoded: Vec<Vec<char>> = Vec::new();
    let mut i: usize = 0;
    while i < pieces.len()
        invariant
            i <= pieces.len(),
            pv == views(pieces@),
            views(encoded@) == pv.take(i as int).map_values(|p: Seq<char>| path_piece(p)),
        decreases pieces.len() - i,
    {
        let e = path_piece_exec(&pieces[i]);
        let ghost before = encoded@;
        encoded.push(e);
        proof {
            assert(views(encoded@) =~= views(before).push(e@));
            assert(pv.take(i + 1).map_values(|p: Seq<char>| path_piece(p)) =~= pv.take(i as int).map_values(
                |p: Seq<char>| path_piece(p),
            ).push(path_piece(pv[i as int])));
        }
        i = i + 1;
    }
    proof {
        assert(pv.take(pv.len() as int) =~= pv);
    }
    let mut sep: Vec<char> = Vec::new();
    sep.push('/');
    proof {
        assert(sep@ =~= seq!['/']);
    }
    let joined = join_chars(&encoded, &sep);
    let mut out = chars_of("file:///");
    push_all(&mut out, &joined);
    push_str(&mut out, "#page=");
    let d = decimal_chars(page as u64);
    push_all(&mut out, &d);
    string_of(&out)
}

} // verus!
