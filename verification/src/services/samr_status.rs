//! The validity of a standard according to the national standards platform:
//! reading the result cards of its search page and deciding what to tell the user.
//!
//! Fetching the page is left to the caller; `query` and `query_by_name` take
//! the page's HTML.
use vstd::prelude::*;
use crate::models::{ValidityLine, ValidityResult};
use crate::services::standard_parser::{normalize_chars, normalized};
use crate::services::url_text::{percent_encode, url_encode, without_trailing_slashes,
    without_trailing_slashes_exec};
use crate::text::{
    CharClass, chars_equal, chars_of, contains_exec, contains_seq, decimal, decimal_chars,
    find_from, find_from_exec, lemma_find_from, occurs_at, parse_u32,
    parse_u32_exec, push_all, push_str, replace_exec, replace_from, run_end, scan_run,
    slice_chars, split_text_exec, lemma_split_text_nonempty, split_text_from, string_of, trim, trim_chars, views, is_digit,
};
use crate::naming::{drop_char, drop_char_exec};
use crate::patterns::{capture_first_group, first_group};

verus! {

/// One result card of the search page: code, title, status.
#[derive(Debug, Clone, PartialEq, Eq)]
pub struct ParsedCard {
    pub code: String,
    pub name: String,
    pub status: String,
}

pub type CardView = (Seq<char>, Seq<char>, Seq<char>);

pub open spec fn card_view(c: ParsedCard) -> CardView {
    (c.code@, c.name@, c.status@)
}

pub open spec fn cards_view(cs: Seq<ParsedCard>) -> Seq<CardView> {
    cs.map_values(|c: ParsedCard| card_view(c))
}

pub open spec fn card_mark() -> Seq<char> {
    "<div class=\"panel panel-default post\">"@
}

pub open spec fn code_open() -> Seq<char> {
    "<span class=\"en-code\">"@
}

pub open spec fn span_close() -> Seq<char> {
    "</span>"@
}

pub open spec fn link_close() -> Seq<char> {
    "</a>"@
}

pub open spec fn status_open() -> Seq<char> {
    "<span class=\"s-status label label-"@
}

/// What stands between the code tag and its closing tag.
pub open spec fn code_capture(part: Seq<char>) -> Option<Seq<char>> {
    match find_from(part, code_open(), 0) {
        Some(p) => match find_from(part, span_close(), p + code_open().len()) {
            Some(c) => Some(part.subrange(p + code_open().len(), c)),
            None => None,
        },
        None => None,
    }
}

/// What stands between the end of the code tag and the end of the link.
pub open spec fn name_capture(part: Seq<char>) -> Option<Seq<char>> {
    match find_from(part, code_open(), 0) {
        Some(p) => match find_from(part, span_close(), p + code_open().len()) {
            Some(c) => match find_from(part, link_close(), c + span_close().len()) {
                Some(a) => Some(part.subrange(c + span_close().len(), a)),
                None => None,
            },
            None => None,
        },
        None => None,
    }
}

/// The status tag at `q` is well formed: a label class without quotes or
/// white space, `">`, a text without `<`, `</span>`.
pub open spec fn status_ok(s: Seq<char>, q: int) -> bool {
    let a = q + status_open().len();
    let r = run_end(s, a, CharClass::NotQuoteOrSpace);
    let t = run_end(s, r + 2, CharClass::NotLess);
    &&& a < r
    &&& r + 1 < s.len()
    &&& s[r] == '"'
    &&& s[r + 1] == '>'
    &&& r + 2 < t
    &&& occurs_at(s, span_close(), t)
}

/// The text of the status tag at `q`.
pub open spec fn status_text(s: Seq<char>, q: int) -> Seq<char> {
    let r = run_end(s, q + status_open().len(), CharClass::NotQuoteOrSpace);
    s.subrange(r + 2, run_end(s, r + 2, CharClass::NotLess))
}

/// The text of the first well-formed status tag from `from` on.
pub open spec fn status_from(s: Seq<char>, from: int) -> Option<Seq<char>>
    decreases s.len() - from,
{
    match find_from(s, status_open(), from) {
        Some(q) => if from <= q < s.len() {
            if status_ok(s, q) {
                Some(status_text(s, q))
            } else {
                status_from(s, q + 1)
            }
        } else {
            None
        },
        None => None,
    }
}

/// A tag `<...>` with at least one character inside starts at `p`.
pub open spec fn tag_at(s: Seq<char>, p: int) -> bool {
    &&& 0 <= p < s.len()
    &&& s[p] == '<'
    &&& p + 1 < run_end(s, p + 1, CharClass::NotGreater) < s.len()
}

pub open spec fn tag_find(s: Seq<char>, from: int) -> Option<int>
    decreases s.len() - from,
{
    if from < 0 || from >= s.len() {
        None
    } else if tag_at(s, from) {
        Some(from)
    } else {
        tag_find(s, from + 1)
    }
}

/// The text from `from` on with every tag removed, left to right.
pub open spec fn drop_tags_from(s: Seq<char>, from: int) -> Seq<char>
    decreases s.len() - from,
{
    if from < 0 || from > s.len() {
        Seq::empty()
    } else {
        match tag_find(s, from) {
            Some(p) => {
                let next = run_end(s, p + 1, CharClass::NotGreater) + 1;
                if from <= p && from < next <= s.len() {
                    s.subrange(from, p) + drop_tags_from(s, next)
                } else {
                    Seq::empty()
                }
            },
            None => s.subrange(from, s.len() as int),
        }
    }
}

pub open spec fn drop_tags(s: Seq<char>) -> Seq<char> {
    drop_tags_from(s, 0)
}

/// The card read from one part of the page, when it has a code.
pub open spec fn card_of(part: Seq<char>) -> Option<CardView> {
    match code_capture(part) {
        Some(c) => Some(
            (
                trim(drop_tags(c)),
                match name_capture(part) {
                    Some(n) => trim(replace_from(drop_tags(n), "&nbsp;"@, " "@, 0)),
                    None => Seq::empty(),
                },
                match status_from(part, 0) {
                    Some(st) => trim(st),
                    None => "未知"@,
                },
            ),
        ),
        None => None,
    }
}

pub open spec fn cards_of(parts: Seq<Seq<char>>) -> Seq<CardView>
    decreases parts.len(),
{
    if parts.len() == 0 {
        Seq::empty()
    } else {
        cards_of(parts.drop_last()) + match card_of(parts.last()) {
            Some(c) => seq![c],
            None => Seq::<CardView>::empty(),
        }
    }
}

/// The cards of a search page: the parts after each card mark that have a code.
pub open spec fn parsed_cards(html: Seq<char>) -> Seq<CardView> {
    cards_of(split_text_from(html, card_mark(), 0).drop_first())
}

/// The digits after the first `totalPages:` that is followed by decimal digits
/// (in Unicode's sense).
pub open spec fn total_pages_digits(html: Seq<char>) -> Option<Seq<char>> {
    first_group(pages_pattern(), html)
}

pub open spec fn pages_pattern() -> Seq<char> {
    "totalPages:(\\d+)"@
}

/// The number of result pages the page announces, 1 when it announces none
/// that reads as a `u32`.
pub open spec fn page_count(html: Seq<char>) -> u32 {
    match total_pages_digits(html) {
        Some(d) => match parse_u32(d) {
            Some(v) => v,
            None => 1,
        },
        None => 1,
    }
}

// ---------------------------------------------------------------- answers

pub type LineView = (Seq<char>, Seq<char>);

pub open spec fn line_view(l: ValidityLine) -> LineView {
    (l.text@, l.color@)
}

pub open spec fn lines_view(ls: Seq<ValidityLine>) -> Seq<LineView> {
    ls.map_values(|l: ValidityLine| line_view(l))
}

/// A validity answer as plain values: whether a standard was found, and its lines.
pub open spec fn validity_view(v: ValidityResult) -> (bool, Seq<LineView>) {
    (v.found, lines_view(v.lines@))
}

pub open spec fn is_revoked(status: Seq<char>) -> bool {
    contains_seq(status, "废止"@) || contains_seq(status, "作废"@)
}

pub open spec fn full_name(c: CardView) -> Seq<char> {
    if c.1.len() == 0 {
        c.0
    } else {
        c.0 + " "@ + c.1
    }
}

pub open spec fn card_line(c: CardView) -> Seq<char> {
    "· "@ + c.0 + " "@ + c.1 + "（"@ + c.2 + "）"@
}

pub open spec fn pages_line(total: u32) -> LineView {
    (
        "共 "@ + decimal(total as nat) + " 页结果，当前仅显示第 1 页，更多内容请前往全国标准信息公共服务平台查看"@,
        "gray"@,
    )
}

pub open spec fn no_match() -> (bool, Seq<LineView>) {
    (false, seq![("无匹配结果"@, "red"@)])
}

/// The position of the last `c` in `s` before `j` (`str::rfind`).
pub open spec fn last_pos(s: Seq<char>, c: char, j: int) -> Option<int>
    decreases j,
{
    if j <= 0 || j > s.len() {
        None
    } else if s[j - 1] == c {
        Some(j - 1)
    } else {
        last_pos(s, c, j - 1)
    }
}

/// A normalised code without its year: the part before the last `-`, when
/// exactly four ASCII digits follow that `-`.
pub open spec fn base_code(s: Seq<char>) -> Seq<char> {
    match last_pos(s, '-', s.len() as int) {
        Some(p) => if s.len() - (p + 1) == 4 && (forall|k: int| p + 1 <= k < s.len() ==> is_digit(
            #[trigger] s[k],
        )) {
            s.take(p)
        } else {
            s
        },
        None => s,
    }
}

/// The first card other than `idx` with the same base code as `base` whose
/// status says it is in force.
pub open spec fn replacement_from(cards: Seq<CardView>, idx: int, base: Seq<char>, from: int) -> Option<int>
    decreases cards.len() - from,
{
    if from < 0 || from >= cards.len() {
        None
    } else if from != idx && base_code(normalized(cards[from].0)) == base && contains_seq(
        cards[from].2,
        "现行"@,
    ) {
        Some(from)
    } else {
        replacement_from(cards, idx, base, from + 1)
    }
}

/// The answer for an exact match with card `idx`: its full name, its status,
/// and for a withdrawn standard the standard in force that replaces it.
pub open spec fn exact_answer(cards: Seq<CardView>, idx: int) -> (bool, Seq<LineView>) {
    let m = cards[idx];
    let revoked = is_revoked(m.2);
    let head = seq![
        ("完全匹配，标准为："@ + full_name(m), "green"@),
        ("状态："@ + m.2, if revoked { "red"@ } else { "green"@ }),
    ];
    if revoked {
        match replacement_from(cards, idx, base_code(normalized(m.0)), 0) {
            Some(j) => (true, head.push(("被以下现行标准替代："@ + full_name(cards[j]), "green"@))),
            None => (true, head.push(("无替代标准"@, "red"@))),
        }
    } else {
        (true, head)
    }
}

/// The first card whose code, normalised, is `target`.
pub open spec fn exact_from(cards: Seq<CardView>, target: Seq<char>, from: int) -> Option<int>
    decreases cards.len() - from,
{
    if from < 0 || from >= cards.len() {
        None
    } else if normalized(cards[from].0) == target {
        Some(from)
    } else {
        exact_from(cards, target, from + 1)
    }
}

/// The cards whose normalised code starts with `target`, in order.
pub open spec fn prefixed(cards: Seq<CardView>, target: Seq<char>) -> Seq<CardView>
    decreases cards.len(),
{
    if cards.len() == 0 {
        Seq::empty()
    } else {
        let c = cards.last();
        let n = normalized(c.0);
        prefixed(cards.drop_last(), target) + if target.len() <= n.len() && n.take(target.len() as int)
            == target {
            seq![c]
        } else {
            Seq::<CardView>::empty()
        }
    }
}

/// The line listing one card, red for a withdrawn one (by both words, or
/// by `废止` alone).
pub open spec fn listing_entry(c: CardView, both_words: bool) -> LineView {
    (
        card_line(c),
        if (if both_words {
            is_revoked(c.2)
        } else {
            contains_seq(c.2, "废止"@)
        }) {
            "red"@
        } else {
            "green"@
        },
    )
}

/// The lines listing cards.
pub open spec fn listing(cards: Seq<CardView>, both_words: bool) -> Seq<LineView> {
    cards.map_values(|c: CardView| listing_entry(c, both_words))
}

pub open spec fn with_pages(lines: Seq<LineView>, total: u32) -> Seq<LineView> {
    if total > 1 {
        lines.push(pages_line(total))
    } else {
        lines
    }
}

/// The answer to a lookup by code: an exact match if a card has the code;
/// else the cards whose code starts with it; else no match.
pub open spec fn code_answer(cards: Seq<CardView>, code: Seq<char>, total: u32) -> (bool, Seq<LineView>) {
    let target = normalized(code);
    let pre = prefixed(cards, target);
    if cards.len() == 0 {
        no_match()
    } else {
        match exact_from(cards, target, 0) {
            Some(i) => exact_answer(cards, i),
            None => if pre.len() > 0 {
                (
                    true,
                    with_pages(
                        seq![("未完全匹配，找到 "@ + decimal(pre.len()) + " 个相关标准："@, "yellow"@)]
                            + listing(pre, false),
                        total,
                    ),
                )
            } else {
                no_match()
            },
        }
    }
}

/// The answer to a lookup by name: the first ten cards found.
pub open spec fn name_answer(cards: Seq<CardView>, total: u32) -> (bool, Seq<LineView>) {
    if cards.len() == 0 {
        no_match()
    } else {
        let shown = if cards.len() > 10 {
            cards.take(10)
        } else {
            cards
        };
        (
            true,
            with_pages(
                seq![("按名称找到 "@ + decimal(cards.len()) + " 个相关标准："@, "yellow"@)] + listing(
                    shown,
                    true,
                ),
                total,
            ),
        )
    }
}

/// The answer when the page could not be fetched.
pub open spec fn failure_answer(msg: Seq<char>) -> (bool, Seq<LineView>) {
    (false, seq![("有效性查询异常："@ + msg, "red"@)])
}

/// The address of the search page for a query: the base address without
/// trailing slashes, `/search/stdPage?q=`, the query without spaces,
/// percent-encoded, and `&tid=`.
pub open spec fn search_address(query: Seq<char>, base_url: Seq<char>) -> Seq<char> {
    without_trailing_slashes(base_url) + "/search/stdPage?q="@ + percent_encode(
        vstd::utf8::encode_utf8(drop_char(query, ' ')),
    ) + "&tid="@
}

// ---------------------------------------------------------------- executable

/// The address of the search page for a query.
pub fn search_url(query: &str, base_url: &str) -> (r: String)
    ensures
        r@ == search_address(query@, base_url@),
{
    let mut out = without_trailing_slashes_exec(base_url);
    push_str(&mut out, "/search/stdPage?q=");
    let q = chars_of(query);
    let clean = drop_char_exec(&q, ' ');
    let clean_str = string_of(&clean);
    let enc = url_encode(clean_str.as_str());
    push_str(&mut out, enc.as_str());
    push_str(&mut out, "&tid=");
    string_of(&out)
}

fn capture_between(part: &Vec<char>) -> (r: (Option<Vec<char>>, Option<Vec<char>>))
    ensures
        match r.0 {
            Some(c) => code_capture(part@) == Some(c@),
            None => code_capture(part@) is None,
        },
        match r.1 {
            Some(n) => name_capture(part@) == Some(n@),
            None => name_capture(part@) is None,
        },
{
    let open = chars_of("<span class=\"en-code\">");
    let close = chars_of("</span>");
    let link = chars_of("</a>");
    let n = part.len();
    match find_from_exec(part, &open, 0) {
        Some(p) => {
            proof {
                lemma_find_from(part@, open@, 0);
                assert(occurs_at(part@, open@, p as int));
            }
            match find_from_exec(part, &close, p + open.len()) {
                Some(c) => {
                    proof {
                        lemma_find_from(part@, close@, p + open@.len());
                        assert(occurs_at(part@, close@, c as int));
                    }
                    let code = slice_chars(part, p + open.len(), c);
                    match find_from_exec(part, &link, c + close.len()) {
                        Some(a) => {
                            proof {
                                lemma_find_from(part@, link@, c + close@.len());
                            }
                            let name = slice_chars(part, c + close.len(), a);
                            (Some(code), Some(name))
                        },
                        None => (Some(code), None),
                    }
                },
                None => (None, None),
            }
        },
        None => (None, None),
    }
}

fn status_exec(s: &Vec<char>) -> (r: Option<Vec<char>>)
    ensures
        match r {
            Some(t) => status_from(s@, 0) == Some(t@),
            None => status_from(s@, 0) is None,
        },
{
    let open = chars_of("<span class=\"s-status label label-");
    let close = chars_of("</span>");
    proof {
        reveal_strlit("<span class=\"s-status label label-");
        reveal_strlit("</span>");
    }
    let n = s.len();
    let mut from: usize = 0;
    loop
        invariant
            from <= s.len(),
            n == s.len(),
            open@ == status_open(),
            close@ == span_close(),
            open@.len() > 0,
            close@.len() == 7,
            status_from(s@, from as int) == status_from(s@, 0),
        decreases s.len() - from,
    {
        match find_from_exec(s, &open, from) {
            Some(q) => {
                proof {
                    lemma_find_from(s@, open@, from as int);
                    assert(occurs_at(s@, open@, q as int));
                }
                let a = q + open.len();
                let r = scan_run(s, a, CharClass::NotQuoteOrSpace);
                if a < r && r < s.len() && s[r] == '"' && r + 1 < s.len() && s[r + 1] == '>' {
                    let t = scan_run(s, r + 2, CharClass::NotLess);
                    if r + 2 < t && t <= n && close.len() <= n - t {
                        let tail = slice_chars(s, t, t + close.len());
                        if chars_equal(&tail, &close) {
                            return Some(slice_chars(s, r + 2, t));
                        }
                    }
                }
                from = q + 1;
            },
            None => {
                return None;
            },
        }
    }
}

fn tag_at_exec(s: &Vec<char>, p: usize) -> (r: bool)
    requires
        p < s.len(),
    ensures
        r == tag_at(s@, p as int),
{
    if s[p] != '<' {
        return false;
    }
    let e = scan_run(s, p + 1, CharClass::NotGreater);
    p + 1 < e && e < s.len()
}

fn drop_tags_exec(s: &Vec<char>) -> (r: Vec<char>)
    ensures
        r@ == drop_tags(s@),
{
    let mut r: Vec<char> = Vec::new();
    let mut pos: usize = 0;
    loop
        invariant
            pos <= s.len(),
            r@ + drop_tags_from(s@, pos as int) == drop_tags(s@),
        decreases s.len() - pos,
    {
        let mut p = pos;
        while p < s.len() && !tag_at_exec(s, p)
            invariant
                pos <= p <= s.len(),
                tag_find(s@, p as int) == tag_find(s@, pos as int),
            decreases s.len() - p,
        {
            p = p + 1;
        }
        if p < s.len() {
            let close = scan_run(s, p + 1, CharClass::NotGreater);
            let piece = slice_chars(s, pos, p);
            let ghost before = r@;
            push_all(&mut r, &piece);
            proof {
                assert(tag_find(s@, pos as int) == Some(p as int));
                assert(drop_tags_from(s@, pos as int) == s@.subrange(pos as int, p as int)
                    + drop_tags_from(s@, close + 1));
                assert(r@ + drop_tags_from(s@, close + 1) =~= before + drop_tags_from(
                    s@,
                    pos as int,
                ));
            }
            pos = close + 1;
        } else {
            proof {
                assert(tag_find(s@, pos as int) is None);
            }
            let piece = slice_chars(s, pos, s.len());
            push_all(&mut r, &piece);
            return r;
        }
    }
}

fn card_of_exec(part: &Vec<char>) -> (r: Option<ParsedCard>)
    ensures
        match r {
            Some(c) => card_of(part@) == Some(card_view(c)),
            None => card_of(part@) is None,
        },
{
    let (code, name) = capture_between(part);
    match code {
        Some(c) => {
            let c2 = drop_tags_exec(&c);
            let code_text = trim_chars(&c2, CharClass::Space);
            let name_text = match name {
                Some(n) => {
                    let n2 = drop_tags_exec(&n);
                    let pat = chars_of("&nbsp;");
                    let rep = chars_of(" ");
                    proof {
                        reveal_strlit("&nbsp;");
                    }
                    let n3 = replace_exec(&n2, &pat, &rep);
                    trim_chars(&n3, CharClass::Space)
                },
                None => Vec::new(),
            };
            let status_text = match status_exec(part) {
                Some(st) => trim_chars(&st, CharClass::Space),
                None => chars_of("未知"),
            };
            Some(
                ParsedCard {
                    code: string_of(&code_text),
                    name: string_of(&name_text),
                    status: string_of(&status_text),
                },
            )
        },
        None => None,
    }
}

/// The result cards of a search page.
pub fn parse_cards(html: &str) -> (r: Vec<ParsedCard>)
    ensures
        cards_view(r@) == parsed_cards(html@),
{
    let h = chars_of(html);
    let mark = chars_of("<div class=\"panel panel-default post\">");
    proof {
        reveal_strlit("<div class=\"panel panel-default post\">");
    }
    let parts = split_text_exec(&h, &mark);
    proof {
        lemma_split_text_nonempty(h@, mark@, 0);
    }
    let ghost ps = views(parts@).drop_first();
    let mut cards: Vec<ParsedCard> = Vec::new();
    let mut i: usize = 1;
    proof {
        assert(cards_view(cards@) =~= cards_of(ps.take(0)));
    }
    while i < parts.len()
        invariant
            1 <= i <= parts.len(),
            ps == views(parts@).drop_first(),
            cards_view(cards@) == cards_of(ps.take(i - 1)),
        decreases parts.len() - i,
    {
        proof {
            assert(ps.take(i as int).drop_last() == ps.take(i - 1));
            assert(ps.take(i as int).last() == parts@[i as int]@);
        }
        let ghost before = cards@;
        match card_of_exec(&parts[i]) {
            Some(c) => {
                cards.push(c);
                proof {
                    assert(cards_view(cards@) =~= cards_view(before).push(card_view(c)));
                }
            },
            None => {},
        }
        i = i + 1;
    }
    proof {
        assert(ps.take(parts@.len() - 1) == ps);
    }
    cards
}

/// The number of result pages a search page announces (1 when it announces none).
pub fn total_pages(html: &str) -> (r: u32)
    ensures
        r == page_count(html@),
{
    match capture_first_group("totalPages:(\\d+)", html) {
        Some(d) => {
            let v = chars_of(d.as_str());
            match parse_u32_exec(&v) {
                Some(n) => n,
                None => 1,
            }
        },
        None => 1,
    }
}

fn push_line(lines: &mut Vec<ValidityLine>, text: &Vec<char>, color: &str)
    ensures
        lines_view(final(lines)@) == lines_view(old(lines)@).push((text@, color@)),
{
    let ghost before = lines@;
    let l = ValidityLine { text: string_of(text), color: String::from_str(color) };
    lines.push(l);
    proof {
        assert(lines_view(lines@) =~= lines_view(before).push((text@, color@)));
    }
}

fn is_revoked_exec(status: &Vec<char>) -> (r: bool)
    ensures
        r == is_revoked(status@),
{
    let a = chars_of("废止");
    let b = chars_of("作废");
    contains_exec(status, &a) || contains_exec(status, &b)
}

fn full_name_exec(c: &ParsedCard) -> (r: Vec<char>)
    ensures
        r@ == full_name(card_view(*c)),
{
    let mut r = chars_of(c.code.as_str());
    let name = chars_of(c.name.as_str());
    if name.len() > 0 {
        push_str(&mut r, " ");
        push_all(&mut r, &name);
    }
    r
}

fn card_line_exec(c: &ParsedCard) -> (r: Vec<char>)
    ensures
        r@ == card_line(card_view(*c)),
{
    let mut r = chars_of("· ");
    push_str(&mut r, c.code.as_str());
    push_str(&mut r, " ");
    push_str(&mut r, c.name.as_str());
    push_str(&mut r, "（");
    push_str(&mut r, c.status.as_str());
    push_str(&mut r, "）");
    r
}

proof fn lemma_last_pos(s: Seq<char>, c: char, j: int)
    ensures
        last_pos(s, c, j) matches Some(p) ==> 0 <= p < j && s[p] == c,
    decreases j,
{
    if 0 < j <= s.len() && s[j - 1] != c {
        lemma_last_pos(s, c, j - 1);
    }
}

fn last_pos_exec(s: &Vec<char>, c: char) -> (r: Option<usize>)
    ensures
        r matches Some(p) ==> last_pos(s@, c, s.len() as int) == Some(p as int),
        r is None ==> last_pos(s@, c, s.len() as int) is None,
{
    let mut j = s.len();
    while j > 0
        invariant
            j <= s.len(),
            last_pos(s@, c, j as int) == last_pos(s@, c, s.len() as int),
        decreases j,
    {
        if s[j - 1] == c {
            return Some(j - 1);
        }
        j = j - 1;
    }
    None
}

fn base_code_chars(s: &Vec<char>) -> (r: Vec<char>)
    ensures
        r@ == base_code(s@),
{
    match last_pos_exec(s, '-') {
        Some(p) => {
            proof {
                lemma_last_pos(s@, '-', s.len() as int);
            }
            if s.len() - (p + 1) == 4 {
                let mut k = p + 1;
                while k < s.len()
                    invariant
                        p + 1 <= k <= s.len(),
                        s.len() - (p + 1) == 4,
                        last_pos(s@, '-', s.len() as int) == Some(p as int),
                        forall|i: int| p + 1 <= i < k ==> is_digit(#[trigger] s@[i]),
                    decreases s.len() - k,
                {
                    if !('0' <= s[k] && s[k] <= '9') {
                        proof {
                            assert(!is_digit(s@[k as int]));
                            assert(s@.subrange(0, s@.len() as int) =~= s@);
                        }
                        return slice_chars(s, 0, s.len());
                    }
                    k = k + 1;
                }
                slice_chars(s, 0, p)
            } else {
                slice_chars(s, 0, s.len())
            }
        },
        None => slice_chars(s, 0, s.len()),
    }
}

/// A normalised code without its four-digit year, when it ends in one.
pub fn get_base_code(normalized: &str) -> (r: String)
    ensures
        r@ == base_code(normalized@),
{
    let s = chars_of(normalized);
    let b = base_code_chars(&s);
    string_of(&b)
}

fn find_replacement(cards: &Vec<ParsedCard>, idx: usize, base: &Vec<char>) -> (r: Option<usize>)
    ensures
        r matches Some(j) ==> j < cards.len() && replacement_from(cards_view(cards@), idx as int, base@, 0)
            == Some(j as int),
        r is None ==> replacement_from(cards_view(cards@), idx as int, base@, 0) is None,
{
    let ghost cv = cards_view(cards@);
    let now = chars_of("现行");
    let mut k: usize = 0;
    while k < cards.len()
        invariant
            k <= cards.len(),
            cv == cards_view(cards@),
            now@ == "现行"@,
            replacement_from(cv, idx as int, base@, k as int) == replacement_from(cv, idx as int, base@, 0),
        decreases cards.len() - k,
    {
        if k != idx {
            let n = normalize_chars(cards[k].code.as_str());
            let b = base_code_chars(&n);
            let st = chars_of(cards[k].status.as_str());
            if chars_equal(&b, base) && contains_exec(&st, &now) {
                return Some(k);
            }
        }
        k = k + 1;
    }
    None
}

/// The answer for an exact match with card `matched` of the page's cards.
pub fn build_exact_result(matched: usize, all_cards: &Vec<ParsedCard>) -> (r: ValidityResult)
    requires
        matched < all_cards.len(),
    ensures
        validity_view(r) == exact_answer(cards_view(all_cards@), matched as int),
{
    let ghost cv = cards_view(all_cards@);
    let m = &all_cards[matched];
    let status = chars_of(m.status.as_str());
    let revoked = is_revoked_exec(&status);
    let mut lines: Vec<ValidityLine> = Vec::new();
    let mut t1 = chars_of("完全匹配，标准为：");
    let name = full_name_exec(m);
    push_all(&mut t1, &name);
    push_line(&mut lines, &t1, "green");
    let mut t2 = chars_of("状态：");
    push_all(&mut t2, &status);
    if revoked {
        push_line(&mut lines, &t2, "red");
    } else {
        push_line(&mut lines, &t2, "green");
    }
    proof {
        assert(lines_view(lines@) =~= seq![
            ("完全匹配，标准为："@ + full_name(cv[matched as int]), "green"@),
            ("状态："@ + cv[matched as int].2, if revoked { "red"@ } else { "green"@ }),
        ]);
    }
    if revoked {
        let nc = normalize_chars(m.code.as_str());
        let base = base_code_chars(&nc);
        match find_replacement(all_cards, matched, &base) {
            Some(j) => {
                let mut t3 = chars_of("被以下现行标准替代：");
                let rn = full_name_exec(&all_cards[j]);
                push_all(&mut t3, &rn);
                push_line(&mut lines, &t3, "green");
            },
            None => {
                let t3 = chars_of("无替代标准");
                push_line(&mut lines, &t3, "red");
            },
        }
    }
    ValidityResult { found: true, lines }
}

fn single_line_result(found: bool, text: &Vec<char>, color: &str) -> (r: ValidityResult)
    ensures
        validity_view(r) == (found, seq![(text@, color@)]),
{
    let mut lines: Vec<ValidityLine> = Vec::new();
    push_line(&mut lines, text, color);
    proof {
        assert(lines_view(lines@) =~= seq![(text@, color@)]);
    }
    ValidityResult { found, lines }
}

fn no_match_result() -> (r: ValidityResult)
    ensures
        validity_view(r) == no_match(),
{
    let t = chars_of("无匹配结果");
    single_line_result(false, &t, "red")
}

/// The answer when the search page could not be fetched.
pub fn error_result(msg: &str) -> (r: ValidityResult)
    ensures
        validity_view(r) == failure_answer(msg@),
{
    let mut t = chars_of("有效性查询异常：");
    push_str(&mut t, msg);
    single_line_result(false, &t, "red")
}

fn push_card_line(lines: &mut Vec<ValidityLine>, c: &ParsedCard, both_words: bool)
    ensures
        lines_view(final(lines)@) == lines_view(old(lines)@).push(listing_entry(card_view(*c), both_words)),
{
    let text = card_line_exec(c);
    let st = chars_of(c.status.as_str());
    let red = if both_words {
        is_revoked_exec(&st)
    } else {
        let w = chars_of("废止");
        contains_exec(&st, &w)
    };
    if red {
        push_line(lines, &text, "red");
    } else {
        push_line(lines, &text, "green");
    }
}

fn push_pages_line(lines: &mut Vec<ValidityLine>, total: u32)
    ensures
        lines_view(final(lines)@) == lines_view(old(lines)@).push(pages_line(total)),
{
    let mut t = chars_of("共 ");
    let d = decimal_chars(total as u64);
    push_all(&mut t, &d);
    push_str(&mut t, " 页结果，当前仅显示第 1 页，更多内容请前往全国标准信息公共服务平台查看");
    push_line(lines, &t, "gray");
}

fn counted_header(prefix: &str, count: usize, suffix: &str) -> (r: Vec<char>)
    ensures
        r@ == prefix@ + decimal(count as nat) + suffix@,
{
    let mut t = chars_of(prefix);
    let d = decimal_chars(count as u64);
    push_all(&mut t, &d);
    push_str(&mut t, suffix);
    t
}

/// The answer to a lookup by code, from the cards of the search page and the
/// number of pages it announces.
pub fn code_validity(cards: &Vec<ParsedCard>, std_code: &str, total_pages: u32) -> (r: ValidityResult)
    ensures
        validity_view(r) == code_answer(cards_view(cards@), std_code@, total_pages),
{
    let ghost cv = cards_view(cards@);
    if cards.len() == 0 {
        return no_match_result();
    }
    let target = normalize_chars(std_code);
    let mut k: usize = 0;
    while k < cards.len()
        invariant
            k <= cards.len(),
            cv == cards_view(cards@),
            target@ == normalized(std_code@),
            exact_from(cv, target@, k as int) == exact_from(cv, target@, 0),
        decreases cards.len() - k,
    {
        let n = normalize_chars(cards[k].code.as_str());
        if chars_equal(&n, &target) {
            return build_exact_result(k, cards);
        }
        k = k + 1;
    }
    let mut body: Vec<ValidityLine> = Vec::new();
    let mut count: usize = 0;
    let mut k: usize = 0;
    proof {
        assert(prefixed(cv.take(0), target@) =~= Seq::<CardView>::empty());
        assert(lines_view(body@) =~= Seq::<LineView>::empty());
        assert(listing(Seq::<CardView>::empty(), false) =~= Seq::<LineView>::empty());
    }
    while k < cards.len()
        invariant
            k <= cards.len(),
            cv == cards_view(cards@),
            target@ == normalized(std_code@),
            count <= k,
            count == prefixed(cv.take(k as int), target@).len(),
            lines_view(body@) == listing(prefixed(cv.take(k as int), target@), false),
        decreases cards.len() - k,
    {
        let n = normalize_chars(cards[k].code.as_str());
        let ghost before = prefixed(cv.take(k as int), target@);
        proof {
            assert(cv.take(k + 1).drop_last() =~= cv.take(k as int));
            assert(cv.take(k + 1).last() == cv[k as int]);
        }
        let mut hit = false;
        if n.len() >= target.len() {
            let head = slice_chars(&n, 0, target.len());
            hit = chars_equal(&head, &target);
            proof {
                assert(n@.take(target@.len() as int) =~= n@.subrange(0, target@.len() as int));
            }
        }
        if hit {
            push_card_line(&mut body, &cards[k], false);
            count = count + 1;
            proof {
                assert(prefixed(cv.take(k + 1), target@) =~= before.push(cv[k as int]));
                assert(listing(before.push(cv[k as int]), false) =~= listing(before, false).push(
                    listing_entry(cv[k as int], false),
                ));
            }
        } else {
            proof {
                assert(prefixed(cv.take(k + 1), target@) =~= before);
            }
        }
        k = k + 1;
    }
    proof {
        assert(cv.take(cv.len() as int) =~= cv);
    }
    if count == 0 {
        return no_match_result();
    }
    let header = counted_header("未完全匹配，找到 ", count, " 个相关标准：");
    let mut lines: Vec<ValidityLine> = Vec::new();
    push_line(&mut lines, &header, "yellow");
    let ghost head = lines@;
    let ghost listed = body@;
    lines.append(&mut body);
    proof {
        assert(lines_view(lines@) =~= lines_view(head) + lines_view(listed));
    }
    if total_pages > 1 {
        push_pages_line(&mut lines, total_pages);
    }
    ValidityResult { found: true, lines }
}

/// The answer to a lookup by name, from the cards of the search page and the
/// number of pages it announces.
pub fn name_validity(cards: &Vec<ParsedCard>, total_pages: u32) -> (r: ValidityResult)
    ensures
        validity_view(r) == name_answer(cards_view(cards@), total_pages),
{
    let ghost cv = cards_view(cards@);
    if cards.len() == 0 {
        return no_match_result();
    }
    let header = counted_header("按名称找到 ", cards.len(), " 个相关标准：");
    let mut lines: Vec<ValidityLine> = Vec::new();
    push_line(&mut lines, &header, "yellow");
    let ghost first = lines_view(lines@);
    let shown: usize = if cards.len() > 10 {
        10
    } else {
        cards.len()
    };
    let mut k: usize = 0;
    proof {
        assert(listing(cv.take(0), true) =~= Seq::<LineView>::empty());
        assert(first + listing(cv.take(0), true) =~= first);
    }
    while k < shown
        invariant
            k <= shown <= cards.len(),
            cv == cards_view(cards@),
            lines_view(lines@) == first + listing(cv.take(k as int), true),
        decreases shown - k,
    {
        push_card_line(&mut lines, &cards[k], true);
        proof {
            assert(listing(cv.take(k + 1), true) =~= listing(cv.take(k as int), true).push(
                listing_entry(cv[k as int], true),
            ));
        }
        k = k + 1;
    }
    proof {
        assert(cv.take(cv.len() as int) =~= cv);
    }
    if total_pages > 1 {
        push_pages_line(&mut lines, total_pages);
    }
    ValidityResult { found: true, lines }
}

/// The validity of a standard code, read from the search page found for it.
pub fn query(std_code: &str, html: &str) -> (r: ValidityResult)
    ensures
        validity_view(r) == code_answer(parsed_cards(html@), std_code@, page_count(html@)),
{
    let cards = parse_cards(html);
    let total = total_pages(html);
    code_validity(&cards, std_code, total)
}

/// The standards found for a name, read from the search page found for it.
pub fn query_by_name(html: &str) -> (r: ValidityResult)
    ensures
        validity_view(r) == name_answer(parsed_cards(html@), page_count(html@)),
{
    let cards = parse_cards(html);
    let total = total_pages(html);
    name_validity(&cards, total)
}

// ---------------------------------------------------------------- laws

proof fn lemma_replacement_from(cards: Seq<CardView>, idx: int, base: Seq<char>, from: int)
    requires
        0 <= from,
    ensures
        replacement_from(cards, idx, base, from) matches Some(j) ==> from <= j < cards.len() && j
            != idx && base_code(normalized(cards[j].0)) == base && contains_seq(cards[j].2, "现行"@),
    decreases cards.len() - from,
{
    if from < cards.len() && !(from != idx && base_code(normalized(cards[from].0)) == base
        && contains_seq(cards[from].2, "现行"@)) {
        lemma_replacement_from(cards, idx, base, from + 1);
    }
}

/// The replacement named for a withdrawn standard is another card of the same
/// page, with the same code once the year is dropped, that is in force.
pub proof fn law_replacement_in_force(cards: Seq<CardView>, idx: int, base: Seq<char>)
    ensures
        replacement_from(cards, idx, base, 0) matches Some(j) ==> 0 <= j < cards.len() && j != idx
            && base_code(normalized(cards[j].0)) == base && contains_seq(cards[j].2, "现行"@),
{
    lemma_replacement_from(cards, idx, base, 0);
}

/// Dropping the year: a code followed by `-` and four ASCII digits has that
/// code as its base (so `gbt1234-2012` and `gbt1234-2020` share `gbt1234`).
pub proof fn law_base_code_drops_year(x: Seq<char>, y: Seq<char>)
    requires
        y.len() == 4,
        forall|k: int| 0 <= k < 4 ==> is_digit(#[trigger] y[k]),
    ensures
        base_code(x + seq!['-'] + y) == x,
{
    let s = x + seq!['-'] + y;
    let n = s.len() as int;
    assert(s[n - 1] == y[3]);
    assert(s[n - 2] == y[2]);
    assert(s[n - 3] == y[1]);
    assert(s[n - 4] == y[0]);
    assert(is_digit(y[0]) && is_digit(y[1]) && is_digit(y[2]) && is_digit(y[3]));
    assert(s[n - 5] == '-');
    assert(last_pos(s, '-', n - 4) == Some(n - 5));
    assert(last_pos(s, '-', n - 3) == Some(n - 5));
    assert(last_pos(s, '-', n - 2) == Some(n - 5));
    assert(last_pos(s, '-', n - 1) == Some(n - 5));
    assert(last_pos(s, '-', n) == Some(n - 5));
    assert forall|k: int| n - 4 <= k < n implies is_digit(#[trigger] s[k]) by {
        assert(s[k] == y[k - (n - 4)]);
    }
    assert(s.take(n - 5) =~= x);
}

proof fn lemma_prefixed(cards: Seq<CardView>, target: Seq<char>)
    ensures
        forall|i: int|
            0 <= i < prefixed(cards, target).len() ==> {
                let n = normalized(#[trigger] prefixed(cards, target)[i].0);
                target.len() <= n.len() && n.take(target.len() as int) == target
            },
    decreases cards.len(),
{
    if cards.len() > 0 {
        lemma_prefixed(cards.drop_last(), target);
        let rest = prefixed(cards.drop_last(), target);
        assert forall|i: int| 0 <= i < prefixed(cards, target).len() implies {
            let n = normalized(#[trigger] prefixed(cards, target)[i].0);
            target.len() <= n.len() && n.take(target.len() as int) == target
        } by {
            if i < rest.len() {
                assert(prefixed(cards, target)[i] == rest[i]);
            }
        }
    }
}

/// Every standard listed as related to a code without a full match has a
/// normal form that starts with the normal form of the code asked for.
pub proof fn law_related_share_prefix(cards: Seq<CardView>, code: Seq<char>)
    ensures
        forall|i: int|
            0 <= i < prefixed(cards, normalized(code)).len() ==> {
                let n = normalized(#[trigger] prefixed(cards, normalized(code))[i].0);
                normalized(code).len() <= n.len() && n.take(normalized(code).len() as int)
                    == normalized(code)
            },
{
    lemma_prefixed(cards, normalized(code));
}

/// The colour of the first line of a lookup by code: green for an exact
/// match, yellow for related standards, red when nothing matched.
pub proof fn law_code_answer_colour(cards: Seq<CardView>, code: Seq<char>, total: u32)
    ensures
        code_answer(cards, code, total).1.len() >= 1,
        code_answer(cards, code, total).1[0].1 == (if cards.len() > 0 && exact_from(
            cards,
            normalized(code),
            0,
        ) is Some {
            "green"@
        } else if code_answer(cards, code, total).0 {
            "yellow"@
        } else {
            "red"@
        }),
{
    let target = normalized(code);
    if cards.len() > 0 {
        match exact_from(cards, target, 0) {
            Some(i) => {},
            None => {
                let pre = prefixed(cards, target);
                if pre.len() > 0 {
                    let head = seq![("未完全匹配，找到 "@ + decimal(pre.len()) + " 个相关标准："@, "yellow"@)];
                    let body = head + listing(pre, false);
                    assert(body[0] == head[0]);
                    if total > 1 {
                        assert(body.push(pages_line(total))[0] == body[0]);
                    }
                }
            },
        }
    }
}

proof fn lemma_prefixed_complete(cards: Seq<CardView>, target: Seq<char>, i: int)
    requires
        0 <= i < cards.len(),
        target.len() <= normalized(cards[i].0).len(),
        normalized(cards[i].0).take(target.len() as int) == target,
    ensures
        exists|j: int| 0 <= j < prefixed(cards, target).len() && #[trigger] prefixed(cards, target)[j] == cards[i],
    decreases cards.len(),
{
    let rest = prefixed(cards.drop_last(), target);
    if i == cards.len() - 1 {
        assert(prefixed(cards, target)[rest.len() as int] == cards[i]);
    } else {
        assert(cards.drop_last()[i] == cards[i]);
        lemma_prefixed_complete(cards.drop_last(), target, i);
        let j = choose|j: int| 0 <= j < rest.len() && #[trigger] rest[j] == cards[i];
        assert(prefixed(cards, target)[j] == rest[j]);
    }
}

/// Every card whose normal form starts with the normal form of the code asked
/// for is among the related standards listed.
pub proof fn law_related_complete(cards: Seq<CardView>, code: Seq<char>, i: int)
    requires
        0 <= i < cards.len(),
        normalized(code).len() <= normalized(cards[i].0).len(),
        normalized(cards[i].0).take(normalized(code).len() as int) == normalized(code),
    ensures
        exists|j: int|
            0 <= j < prefixed(cards, normalized(code)).len() && #[trigger] prefixed(cards, normalized(code))[j]
                == cards[i],
{
    lemma_prefixed_complete(cards, normalized(code), i);
}

proof fn lemma_replacement_found(cards: Seq<CardView>, idx: int, base: Seq<char>, from: int, i: int)
    requires
        0 <= from <= i < cards.len(),
        i != idx,
        base_code(normalized(cards[i].0)) == base,
        contains_seq(cards[i].2, "现行"@),
    ensures
        replacement_from(cards, idx, base, from) is Some,
    decreases i - from,
{
    if from < i && !(from != idx && base_code(normalized(cards[from].0)) == base && contains_seq(
        cards[from].2,
        "现行"@,
    )) {
        lemma_replacement_found(cards, idx, base, from + 1, i);
    }
}

/// A withdrawn standard is answered "无替代标准" only when no other card of the
/// page shares its code without the year and is in force.
pub proof fn law_replacement_found_when_present(cards: Seq<CardView>, idx: int, base: Seq<char>, i: int)
    requires
        0 <= i < cards.len(),
        i != idx,
        base_code(normalized(cards[i].0)) == base,
        contains_seq(cards[i].2, "现行"@),
    ensures
        replacement_from(cards, idx, base, 0) is Some,
{
    lemma_replacement_found(cards, idx, base, 0, i);
}

/// The normal form of the card's code starts with `target`.
pub open spec fn code_starts_with(c: CardView, target: Seq<char>) -> bool {
    let n = normalized(c.0);
    target.len() <= n.len() && n.take(target.len() as int) == target
}

proof fn lemma_exact_from(cards: Seq<CardView>, target: Seq<char>, from: int)
    ensures
        exact_from(cards, target, from) matches Some(i) ==> 0 <= i < cards.len() && normalized(
            cards[i].0,
        ) == target,
    decreases cards.len() - from,
{
    if 0 <= from < cards.len() && normalized(cards[from].0) != target {
        lemma_exact_from(cards, target, from + 1);
    }
}

proof fn lemma_prefixed_nonempty(cards: Seq<CardView>, target: Seq<char>)
    ensures
        prefixed(cards, target).len() > 0 ==> exists|i: int|
            0 <= i < cards.len() && #[trigger] code_starts_with(cards[i], target),
    decreases cards.len(),
{
    if cards.len() > 0 {
        let rest = cards.drop_last();
        lemma_prefixed_nonempty(rest, target);
        if prefixed(rest, target).len() > 0 {
            let i = choose|i: int| 0 <= i < rest.len() && #[trigger] code_starts_with(rest[i], target);
            assert(cards[i] == rest[i]);
        } else if prefixed(cards, target).len() > 0 {
            assert(code_starts_with(cards[cards.len() - 1], target));
        }
    }
}

/// A lookup by code finds something exactly when the normal form of some
/// card's code starts with the normal form of the code asked for.
pub proof fn law_code_found(cards: Seq<CardView>, code: Seq<char>, total: u32)
    ensures
        code_answer(cards, code, total).0 <==> exists|i: int|
            0 <= i < cards.len() && #[trigger] code_starts_with(cards[i], normalized(code)),
{
    let t = normalized(code);
    lemma_exact_from(cards, t, 0);
    lemma_prefixed_nonempty(cards, t);
    if let Some(i) = exact_from(cards, t, 0) {
        assert(normalized(cards[i].0).take(t.len() as int) =~= t);
        assert(code_starts_with(cards[i], t));
    }
    if exists|i: int| 0 <= i < cards.len() && #[trigger] code_starts_with(cards[i], t) {
        let i = choose|i: int| 0 <= i < cards.len() && #[trigger] code_starts_with(cards[i], t);
        lemma_prefixed_complete(cards, t, i);
    }
}

/// The answer for a matched standard: first its code and name in green, then
/// its status, which is red exactly when the status says 废止 or 作废. Only such
/// a withdrawn standard gets a third line (the standard in force that replaces
/// it, or that there is none); any other status, such as 现行 or 即将实施, gives
/// exactly the two lines.
pub proof fn law_exact_answer_withdrawn(cards: Seq<CardView>, idx: int)
    requires
        0 <= idx < cards.len(),
    ensures
        exact_answer(cards, idx).0,
        exact_answer(cards, idx).1[0] == ("完全匹配，标准为："@ + full_name(cards[idx]), "green"@),
        exact_answer(cards, idx).1[1] == (
            "状态："@ + cards[idx].2,
            if contains_seq(cards[idx].2, "废止"@) || contains_seq(cards[idx].2, "作废"@) {
                "red"@
            } else {
                "green"@
            },
        ),
        exact_answer(cards, idx).1.len() == if contains_seq(cards[idx].2, "废止"@) || contains_seq(
            cards[idx].2,
            "作废"@,
        ) {
            3int
        } else {
            2int
        },
{
}

} // verus!
