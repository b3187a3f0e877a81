//! Lookups in the CMA capability library: the address of a list request, how a
//! reply is read, and what the user is told.
//!
//! Sending the request and decoding the JSON body are left to the caller,
//! which hands over the fields of the reply as plain values.
use vstd::prelude::*;
use crate::models::{QueryResult, QueryStatus};
use crate::naming::{drop_char, drop_char_exec};
use crate::services::standard_parser::{clean_code, law_clean_ignores_slash_and_space, normalize_chars,
    normalized};
use crate::services::url_text::{percent_encode, url_encode, without_trailing_slashes,
    without_trailing_slashes_exec};
use crate::text::{
    CharClass, chars_equal, chars_of, class_contains, decimal, decimal_chars, in_class, join,
    join_chars, push_all, push_str, string_of, text_or_empty, text_or_empty_exec, views,
};

verus! {

/// One row of a list reply, each field as the reply gave it when it was a string.
#[derive(Debug, Clone, PartialEq, Eq)]
pub struct CmaRow {
    pub standard_code: Option<String>,
    pub standard_method: Option<String>,
    pub remark: Option<String>,
}

/// The fields of a list reply that the lookup reads: the status code, the rows
/// and the announced number of results, each when present with the right type.
#[derive(Debug, Clone, PartialEq, Eq)]
pub struct CmaReply {
    pub code: Option<i64>,
    pub rows: Option<Vec<CmaRow>>,
    pub total: Option<u64>,
}

/// Code, method name and remark of a row, missing ones empty.
pub type RowView = (Seq<char>, Seq<char>, Seq<char>);

pub open spec fn row_view(r: CmaRow) -> RowView {
    (text_or_empty(r.standard_code), text_or_empty(r.standard_method), text_or_empty(r.remark))
}

pub open spec fn rows_view(rs: Seq<CmaRow>) -> Seq<RowView> {
    rs.map_values(|r: CmaRow| row_view(r))
}

/// Rows and total of a reply, or the reason it could not be had.
pub type Outcome = Result<(Vec<CmaRow>, u64), String>;

pub type OutcomeView = Result<(Seq<RowView>, u64), Seq<char>>;

pub open spec fn outcome_view(o: Outcome) -> OutcomeView {
    match o {
        Ok((rows, total)) => Ok((rows_view(rows@), total)),
        Err(e) => Err(e@),
    }
}

pub open spec fn result_view(r: QueryResult) -> (QueryStatus, Seq<char>) {
    (r.status, r.message@)
}

/// The address of a list request: first page, twenty rows, `param` set to the
/// value without spaces, percent-encoded.
pub open spec fn list_address(param: Seq<char>, value: Seq<char>, base_url: Seq<char>) -> Seq<char> {
    without_trailing_slashes(base_url) + "/cma-admin/system/standardData/list?pageNum=1&pageSize=20&"@
        + param + "="@ + percent_encode(vstd::utf8::encode_utf8(drop_char(value, ' ')))
}

/// What a reply yields: an error unless its code is 200; else its rows (none
/// when absent) and its total (the number of rows when absent).
pub open spec fn reply_outcome(code: Option<i64>, rows: Option<Seq<RowView>>, total: Option<u64>) -> OutcomeView {
    if code != Some(200i64) {
        Err("接口返回异常"@)
    } else {
        let rs = match rows {
            Some(r) => r,
            None => Seq::empty(),
        };
        Ok((rs, match total {
            Some(t) => t,
            None => rs.len() as u64,
        }))
    }
}

pub open spec fn row_line(r: RowView) -> Seq<char> {
    r.0 + " "@ + r.1
}

pub open spec fn row_texts(rows: Seq<RowView>) -> Seq<Seq<char>> {
    rows.map_values(|r: RowView| row_line(r))
}

pub open spec fn string_views(v: Seq<String>) -> Seq<Seq<char>> {
    v.map_values(|s: String| s@)
}

/// The notice that more results exist than the rows shown, or nothing.
pub open spec fn more_text(total: u64, shown: nat) -> Seq<char> {
    if total > shown {
        "\n共 "@ + decimal(total as nat) + " 条结果，当前仅显示第 1 页的 "@ + decimal(shown)
            + " 条，更多结果请前往 CMA 能力项目库网站查看"@
    } else {
        Seq::empty()
    }
}

/// A code of three ASCII letters or more at its start, with a `/` after the
/// first two (`GYT222` becomes `GY/T222`), since the library does not treat
/// the two forms alike.
pub open spec fn slashed(code: Seq<char>) -> Option<Seq<char>> {
    if code.len() >= 3 && in_class(CharClass::Letter, code[0]) && in_class(CharClass::Letter, code[1])
        && in_class(CharClass::Letter, code[2]) {
        Some(code.take(2) + seq!['/'] + code.skip(2))
    } else {
        None
    }
}

pub open spec fn listing_text(rows: Seq<RowView>, total: u64) -> Seq<char> {
    "库中标准为："@ + join(row_texts(rows), "\n"@) + more_text(total, rows.len())
}

/// The answer to a lookup by name.
pub open spec fn by_name_reply(outcome: OutcomeView) -> (QueryStatus, Seq<char>) {
    match outcome {
        Err(e) => (QueryStatus::Error, e),
        Ok((rows, total)) => if rows.len() == 0 {
            (QueryStatus::Nomatch, "无匹配"@)
        } else {
            (
                QueryStatus::Partial,
                "按名称找到 "@ + decimal(total as nat) + " 条相关标准。\n"@ + listing_text(rows, total),
            )
        },
    }
}

/// The first row whose code, normalised, is `target`.
pub open spec fn exact_row(rows: Seq<RowView>, target: Seq<char>, from: int) -> Option<int>
    decreases rows.len() - from,
{
    if from < 0 || from >= rows.len() {
        None
    } else if normalized(rows[from].0) == target {
        Some(from)
    } else {
        exact_row(rows, target, from + 1)
    }
}

/// The message for an exact match: code, method and the remark when there is one.
pub open spec fn exact_text(r: RowView) -> Seq<char> {
    "完全匹配："@ + r.0 + " "@ + r.1 + if r.2.len() > 0 {
        "\n备注："@ + r.2
    } else {
        Seq::empty()
    }
}

/// The answer to a lookup by code, from the rows found.
pub open spec fn by_code_reply(code: Seq<char>, rows: Seq<RowView>, total: u64) -> (QueryStatus, Seq<char>) {
    if rows.len() == 0 {
        (QueryStatus::Nomatch, "无匹配"@)
    } else {
        match exact_row(rows, normalized(code), 0) {
            Some(i) => (QueryStatus::Exact, exact_text(rows[i])),
            None => (QueryStatus::Partial, "未完全匹配。\n"@ + listing_text(rows, total)),
        }
    }
}

/// The rows a lookup by code goes on with: those of the first request, or, when
/// it found none, those of the retry with the slashed code if that succeeded.
pub open spec fn retried(first: (Seq<RowView>, u64), retry: Option<OutcomeView>) -> (Seq<RowView>, u64) {
    if first.0.len() == 0 {
        match retry {
            Some(Ok(r)) => r,
            _ => first,
        }
    } else {
        first
    }
}

pub open spec fn retry_view(retry: Option<Outcome>) -> Option<OutcomeView> {
    match retry {
        Some(o) => Some(outcome_view(o)),
        None => None,
    }
}

/// The answer to a lookup by code, from the first request and the retry.
pub open spec fn code_reply(code: Seq<char>, first: OutcomeView, retry: Option<OutcomeView>) -> (QueryStatus, Seq<char>) {
    match first {
        Err(e) => (QueryStatus::Error, e),
        Ok(f) => {
            let (rows, total) = retried(f, retry);
            by_code_reply(code, rows, total)
        },
    }
}

// ---------------------------------------------------------------- executable

/// The address of a list request for `value` under `param`.
pub fn list_url(param: &str, value: &str, base_url: &str) -> (r: String)
    ensures
        r@ == list_address(param@, value@, base_url@),
{
    let mut out = without_trailing_slashes_exec(base_url);
    push_str(&mut out, "/cma-admin/system/standardData/list?pageNum=1&pageSize=20&");
    push_str(&mut out, param);
    push_str(&mut out, "=");
    let v = chars_of(value);
    let clean = drop_char_exec(&v, ' ');
    let clean_str = string_of(&clean);
    let enc = url_encode(clean_str.as_str());
    push_str(&mut out, enc.as_str());
    string_of(&out)
}

/// What a reply yields (see `reply_outcome`).
pub fn read_reply(reply: CmaReply) -> (r: Outcome)
    ensures
        outcome_view(r) == reply_outcome(
            reply.code,
            match reply.rows {
                Some(rs) => Some(rows_view(rs@)),
                None => None,
            },
            reply.total,
        ),
{
    match reply.code {
        Some(c) => {
            if c != 200 {
                return Err(string_of(&chars_of("接口返回异常")));
            }
        },
        None => {
            return Err(string_of(&chars_of("接口返回异常")));
        },
    }
    let rows = match reply.rows {
        Some(rs) => rs,
        None => Vec::new(),
    };
    let total = match reply.total {
        Some(t) => t,
        None => rows.len() as u64,
    };
    proof {
        assert(rows_view(Seq::<CmaRow>::empty()) =~= Seq::<RowView>::empty());
    }
    Ok((rows, total))
}

fn row_line_exec(row: &CmaRow) -> (r: Vec<char>)
    ensures
        r@ == row_line(row_view(*row)),
{
    let mut r = text_or_empty_exec(&row.standard_code);
    push_str(&mut r, " ");
    let m = text_or_empty_exec(&row.standard_method);
    push_all(&mut r, &m);
    r
}

fn row_line_chars(rows: &Vec<CmaRow>) -> (r: Vec<Vec<char>>)
    ensures
        views(r@) == row_texts(rows_view(rows@)),
{
    let mut r: Vec<Vec<char>> = Vec::new();
    let mut k: usize = 0;
    while k < rows.len()
        invariant
            k <= rows.len(),
            views(r@) == row_texts(rows_view(rows@)).take(k as int),
        decreases rows.len() - k,
    {
        let line = row_line_exec(&rows[k]);
        let ghost before = r@;
        r.push(line);
        proof {
            assert(views(r@) =~= views(before).push(line@));
            assert(row_texts(rows_view(rows@)).take(k + 1) =~= row_texts(rows_view(rows@)).take(
                k as int,
            ).push(row_line(row_view(rows@[k as int]))));
        }
        k = k + 1;
    }
    proof {
        assert(row_texts(rows_view(rows@)).take(rows@.len() as int) =~= row_texts(rows_view(rows@)));
    }
    r
}

/// The line of each row: its code and its method name.
pub fn row_lines(rows: &Vec<CmaRow>) -> (r: Vec<String>)
    ensures
        string_views(r@) == row_texts(rows_view(rows@)),
{
    let lines = row_line_chars(rows);
    let mut r: Vec<String> = Vec::new();
    let mut k: usize = 0;
    while k < lines.len()
        invariant
            k <= lines.len(),
            string_views(r@) == views(lines@).take(k as int),
        decreases lines.len() - k,
    {
        let s = string_of(&lines[k]);
        let ghost before = r@;
        r.push(s);
        proof {
            assert(string_views(r@) =~= string_views(before).push(s@));
            assert(views(lines@).take(k + 1) =~= views(lines@).take(k as int).push(lines@[k as int]@));
        }
        k = k + 1;
    }
    proof {
        assert(views(lines@).take(lines@.len() as int) =~= views(lines@));
    }
    r
}

fn more_notice_chars(total: u64, shown: usize) -> (r: Vec<char>)
    ensures
        r@ == more_text(total, shown as nat),
{
    if total > shown as u64 {
        let mut t = chars_of("\n共 ");
        let a = decimal_chars(total);
        push_all(&mut t, &a);
        push_str(&mut t, " 条结果，当前仅显示第 1 页的 ");
        let b = decimal_chars(shown as u64);
        push_all(&mut t, &b);
        push_str(&mut t, " 条，更多结果请前往 CMA 能力项目库网站查看");
        t
    } else {
        Vec::new()
    }
}

/// The notice that the library holds more results than the rows shown, or an
/// empty text.
pub fn more_notice(total: u64, shown: usize) -> (r: String)
    ensures
        r@ == more_text(total, shown as nat),
{
    let t = more_notice_chars(total, shown);
    string_of(&t)
}

/// The code with a `/` after its first two letters, when it starts with three
/// ASCII letters.
pub fn slash_variant(code: &str) -> (r: Option<String>)
    ensures
        match r {
            Some(v) => slashed(code@) == Some(v@),
            None => slashed(code@) is None,
        },
{
    let chars = chars_of(code);
    if chars.len() >= 3 && class_contains(CharClass::Letter, chars[0]) && class_contains(
        CharClass::Letter,
        chars[1],
    ) && class_contains(CharClass::Letter, chars[2]) {
        let mut v: Vec<char> = Vec::new();
        v.push(chars[0]);
        v.push(chars[1]);
        v.push('/');
        let mut k: usize = 2;
        while k < chars.len()
            invariant
                2 <= k <= chars.len(),
                v@ == chars@.take(2) + seq!['/'] + chars@.subrange(2, k as int),
            decreases chars.len() - k,
        {
            v.push(chars[k]);
            k = k + 1;
            proof {
                assert(chars@.subrange(2, k as int) =~= chars@.subrange(2, k - 1).push(
                    chars@[k - 1],
                ));
            }
        }
        proof {
            assert(chars@.subrange(2, chars@.len() as int) =~= chars@.skip(2));
        }
        Some(string_of(&v))
    } else {
        None
    }
}

fn listing_chars(rows: &Vec<CmaRow>, total: u64) -> (r: Vec<char>)
    ensures
        r@ == listing_text(rows_view(rows@), total),
{
    let mut t = chars_of("库中标准为：");
    let lines = row_line_chars(rows);
    let nl = chars_of("\n");
    let joined = join_chars(&lines, &nl);
    push_all(&mut t, &joined);
    let more = more_notice_chars(total, rows.len());
    push_all(&mut t, &more);
    t
}

/// The answer to a lookup by name, from what the request yielded.
pub fn query_by_name(outcome: Outcome) -> (r: QueryResult)
    ensures
        result_view(r) == by_name_reply(outcome_view(outcome)),
{
    match outcome {
        Err(e) => QueryResult { status: QueryStatus::Error, message: e },
        Ok((rows, total)) => {
            if rows.len() == 0 {
                return QueryResult { status: QueryStatus::Nomatch, message: string_of(&chars_of("无匹配")) };
            }
            let mut t = chars_of("按名称找到 ");
            let n = decimal_chars(total);
            push_all(&mut t, &n);
            push_str(&mut t, " 条相关标准。\n");
            let l = listing_chars(&rows, total);
            push_all(&mut t, &l);
            QueryResult { status: QueryStatus::Partial, message: string_of(&t) }
        },
    }
}

/// The slashed code to ask for again, when the first request by code found
/// nothing.
pub fn retry_code(std_code: &str, first: &Outcome) -> (r: Option<String>)
    ensures
        match r {
            Some(v) => first is Ok && first->Ok_0.0.len() == 0 && slashed(drop_char(std_code@, ' '))
                == Some(v@),
            None => !(first is Ok && first->Ok_0.0.len() == 0) || slashed(drop_char(std_code@, ' ')) is None,
        },
{
    match first {
        Ok((rows, _)) => {
            if rows.len() == 0 {
                let v = chars_of(std_code);
                let clean = drop_char_exec(&v, ' ');
                let s = string_of(&clean);
                slash_variant(s.as_str())
            } else {
                None
            }
        },
        Err(_) => None,
    }
}

/// The answer to a lookup by code, from the rows found.
pub fn code_result(std_code: &str, rows: &Vec<CmaRow>, total: u64) -> (r: QueryResult)
    ensures
        result_view(r) == by_code_reply(std_code@, rows_view(rows@), total),
{
    let ghost rv = rows_view(rows@);
    if rows.len() == 0 {
        return QueryResult { status: QueryStatus::Nomatch, message: string_of(&chars_of("无匹配")) };
    }
    let target = normalize_chars(std_code);
    let mut k: usize = 0;
    while k < rows.len()
        invariant
            k <= rows.len(),
            rv == rows_view(rows@),
            target@ == normalized(std_code@),
            exact_row(rv, target@, k as int) == exact_row(rv, target@, 0),
        decreases rows.len() - k,
    {
        let code = text_or_empty_exec(&rows[k].standard_code);
        let code_str = string_of(&code);
        let n = normalize_chars(code_str.as_str());
        if chars_equal(&n, &target) {
            let mut t = chars_of("完全匹配：");
            push_all(&mut t, &code);
            push_str(&mut t, " ");
            let m = text_or_empty_exec(&rows[k].standard_method);
            push_all(&mut t, &m);
            let remark = text_or_empty_exec(&rows[k].remark);
            if remark.len() > 0 {
                push_str(&mut t, "\n备注：");
                push_all(&mut t, &remark);
            }
            return QueryResult { status: QueryStatus::Exact, message: string_of(&t) };
        }
        k = k + 1;
    }
    let mut t = chars_of("未完全匹配。\n");
    let l = listing_chars(rows, total);
    push_all(&mut t, &l);
    QueryResult { status: QueryStatus::Partial, message: string_of(&t) }
}

/// The answer to a lookup by code, from what the first request yielded and,
/// when `retry_code` asked for one, what the retry yielded.
pub fn query(std_code: &str, first: Outcome, retry: Option<Outcome>) -> (r: QueryResult)
    ensures
        result_view(r) == code_reply(std_code@, outcome_view(first), retry_view(retry)),
{
    match first {
        Err(e) => QueryResult { status: QueryStatus::Error, message: e },
        Ok((rows, total)) => {
            if rows.len() == 0 {
                match retry {
                    Some(Ok((rows2, total2))) => code_result(std_code, &rows2, total2),
                    _ => code_result(std_code, &rows, total),
                }
            } else {
                code_result(std_code, &rows, total)
            }
        },
    }
}

// ---------------------------------------------------------------- laws

/// The slashed code asked for on retry is the same code once slashes are
/// cleaned away: the retry looks for the standard that was asked for.
pub proof fn law_slash_variant_same_code(code: Seq<char>)
    ensures
        slashed(code) matches Some(v) ==> clean_code(v) == clean_code(code),
{
    if slashed(code) is Some {
        law_clean_ignores_slash_and_space(code.take(2), code.skip(2), '/');
        assert(code.take(2) + code.skip(2) =~= code);
    }
}

/// An exact match is answered only for a row whose code has the normal form
/// of the code asked for.
pub proof fn law_exact_only_for_same_code(code: Seq<char>, rows: Seq<RowView>, total: u64)
    ensures
        by_code_reply(code, rows, total).0 == QueryStatus::Exact ==> exists|i: int|
            0 <= i < rows.len() && normalized(#[trigger] rows[i].0) == normalized(code),
{
    if rows.len() > 0 {
        lemma_exact_row(rows, normalized(code), 0);
    }
}

proof fn lemma_exact_row(rows: Seq<RowView>, target: Seq<char>, from: int)
    requires
        0 <= from,
    ensures
        exact_row(rows, target, from) matches Some(i) ==> from <= i < rows.len() && normalized(
            rows[i].0,
        ) == target,
    decreases rows.len() - from,
{
    if from < rows.len() && normalized(rows[from].0) != target {
        lemma_exact_row(rows, target, from + 1);
    }
}

} // verus!
