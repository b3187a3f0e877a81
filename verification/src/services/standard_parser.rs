//! Extraction and normalisation of standard codes.
use vstd::prelude::*;
use crate::grammar::{
    CodeMatch, head_at, head_find, loose_match_at, head_find_exec, loose_match_at_exec,
    can_extend, lemma_head_find, lemma_loose_match_at, lemma_number_last_end, lemma_prefix_end,
    number_last_end, number_start, prefix_end,
};
use crate::text::{
    CharClass, in_class, is_digit, is_letter, is_space, lemma_run_end, lemma_run_end_char, lemma_run_start, run_end,
    run_start, trim, chars_of, string_of, trim_chars, slice_chars, push_all,
};

verus! {

/// What `str::to_lowercase` makes of a text (the Unicode lowercase mapping).
pub uninterp spec fn lowercase(s: Seq<char>) -> Seq<char>;

/// Calls `str::to_lowercase`; the result is named `lowercase` of the argument.
#[verifier::external_body]
pub(crate) fn to_lowercase(s: &str) -> (r: String)
    ensures
        r@ == lowercase(s@),
{
    s.to_lowercase()
}

/// How one character of a lowercased code is written in the normal form:
/// spaces and slashes are dropped, the full-width hyphen and the em dash become
/// `-`, the full-width colon becomes `:`.
pub open spec fn clean_char(c: char) -> Seq<char> {
    if c == ' ' || c == '/' {
        Seq::empty()
    } else if c == '\u{FF0D}' || c == '\u{2014}' {
        seq!['-']
    } else if c == '\u{FF1A}' {
        seq![':']
    } else {
        seq![c]
    }
}

pub open spec fn clean_code(s: Seq<char>) -> Seq<char>
    decreases s.len(),
{
    if s.len() == 0 {
        Seq::empty()
    } else {
        clean_code(s.drop_last()) + clean_char(s.last())
    }
}

/// The normal form of a code: lowercased, then cleaned character by character.
pub open spec fn normalized(s: Seq<char>) -> Seq<char> {
    clean_code(lowercase(s))
}

/// The text of a loose match: `PREFIX NUMBER` or `PREFIX NUMBER-YEAR`.
pub open spec fn loose_code_text(t: Seq<char>, m: CodeMatch) -> Seq<char> {
    t.subrange(m.start as int, m.prefix_end as int) + seq![' '] + t.subrange(
        m.number_start as int,
        m.number_end as int,
    ) + match m.year {
        Some(y) => seq!['-'] + t.subrange(y as int, y + 4),
        None => Seq::empty(),
    }
}

/// The code that `extract_code` finds in a text: the first code in the trimmed
/// text, written as `PREFIX NUMBER[-YEAR]`, or the trimmed text when there is none.
pub open spec fn extracted_code(s: Seq<char>) -> Seq<char> {
    let t = trim(s);
    match head_find(t, 0) {
        Some(p) => loose_code_text(t, loose_match_at(t, p).unwrap()),
        None => t,
    }
}

/// A text mentions a code when a code head stands somewhere in it.
pub open spec fn mentions_code(s: Seq<char>) -> bool {
    exists|p: int| head_at(s, p)
}

fn clean_chars(s: &Vec<char>) -> (r: Vec<char>)
    ensures
        r@ == clean_code(s@),
{
    let mut r: Vec<char> = Vec::new();
    let mut k: usize = 0;
    while k < s.len()
        invariant
            k <= s.len(),
            r@ == clean_code(s@.subrange(0, k as int)),
        decreases s.len() - k,
    {
        let c = s[k];
        proof {
            let pre = s@.subrange(0, k + 1);
            assert(pre.drop_last() == s@.subrange(0, k as int));
            assert(pre.last() == c);
        }
        if c == ' ' || c == '/' {
        } else if c == '\u{FF0D}' || c == '\u{2014}' {
            r.push('-');
        } else if c == '\u{FF1A}' {
            r.push(':');
        } else {
            r.push(c);
        }
        k = k + 1;
    }
    proof {
        assert(s@.subrange(0, s@.len() as int) == s@);
    }
    r
}

/// The normal form of a code, as characters.
pub fn normalize_chars(code: &str) -> (r: Vec<char>)
    ensures
        r@ == normalized(code@),
{
    let lower = to_lowercase(code);
    let chars = chars_of(lower.as_str());
    clean_chars(&chars)
}

/// The normal form of a code, used as the key when codes are compared:
/// lowercase, without spaces or slashes, with full-width and em dashes written
/// as `-` and the full-width colon as `:`.
pub fn normalize(code: &str) -> (r: String)
    ensures
        r@ == normalized(code@),
{
    let v = normalize_chars(code);
    string_of(&v)
}

/// Whether a text mentions a standard code: letters (with at most one `/`),
/// optional white space, then a digit.
pub fn contains_code(input: &str) -> (r: bool)
    ensures
        r == mentions_code(input@),
{
    let s = chars_of(input);
    let found = head_find_exec(&s, 0);
    proof {
        lemma_head_find(s@, 0);
    }
    found.is_some()
}

/// The first standard code in a text, trimmed and written as
/// `PREFIX NUMBER` or `PREFIX NUMBER-YEAR`; the trimmed text when it holds none.
pub fn extract_code(input: &str) -> (r: String)
    ensures
        r@ == extracted_code(input@),
{
    let s = chars_of(input);
    let t = trim_chars(&s, CharClass::Space);
    match head_find_exec(&t, 0) {
        Some(p) => {
            proof {
                lemma_head_find(t@, 0);
                lemma_loose_match_at(t@, p as int);
            }
            let m = loose_match_at_exec(&t, p).unwrap();
            let mut out = slice_chars(&t, m.start, m.prefix_end);
            out.push(' ');
            let number = slice_chars(&t, m.number_start, m.number_end);
            push_all(&mut out, &number);
            match m.year {
                Some(y) => {
                    out.push('-');
                    let year = slice_chars(&t, y, y + 4);
                    push_all(&mut out, &year);
                },
                None => {},
            }
            string_of(&out)
        },
        None => string_of(&t),
    }
}

// ---------------------------------------------------------------- laws

/// Cleaning works character by character, so it distributes over concatenation.
pub proof fn lemma_clean_code_concat(a: Seq<char>, b: Seq<char>)
    ensures
        clean_code(a + b) == clean_code(a) + clean_code(b),
    decreases b.len(),
{
    if b.len() == 0 {
        assert(a + b =~= a);
        assert(clean_code(b) =~= Seq::<char>::empty());
        assert(clean_code(a) + clean_code(b) =~= clean_code(a));
    } else {
        lemma_clean_code_concat(a, b.drop_last());
        assert((a + b).drop_last() =~= a + b.drop_last());
        assert((a + b).last() == b.last());
        assert(clean_code(a) + clean_code(b) =~= clean_code(a) + clean_code(b.drop_last()) + clean_char(
            b.last(),
        ));
    }
}

/// A normal form holds no space, no slash, no full-width hyphen, em dash or
/// full-width colon.
pub proof fn law_normal_form_clean(s: Seq<char>)
    ensures
        forall|i: int|
            0 <= i < normalized(s).len() ==> {
                let c = #[trigger] normalized(s)[i];
                c != ' ' && c != '/' && c != '\u{FF0D}' && c != '\u{2014}' && c != '\u{FF1A}'
            },
{
    lemma_clean_code_chars(lowercase(s));
}

proof fn lemma_clean_code_chars(s: Seq<char>)
    ensures
        forall|i: int|
            0 <= i < clean_code(s).len() ==> {
                let c = #[trigger] clean_code(s)[i];
                c != ' ' && c != '/' && c != '\u{FF0D}' && c != '\u{2014}' && c != '\u{FF1A}'
            },
    decreases s.len(),
{
    if s.len() > 0 {
        lemma_clean_code_chars(s.drop_last());
        let a = clean_code(s.drop_last());
        let b = clean_char(s.last());
        assert forall|i: int| 0 <= i < clean_code(s).len() implies {
            let c = #[trigger] clean_code(s)[i];
            c != ' ' && c != '/' && c != '\u{FF0D}' && c != '\u{2014}' && c != '\u{FF1A}'
        } by {
            assert(clean_code(s) == a + b);
            if i < a.len() {
                assert(clean_code(s)[i] == a[i]);
            } else {
                assert(clean_code(s)[i] == b[i - a.len()]);
            }
        }
    }
}

/// Slashes and spaces do not count: a code with one more slash or space
/// somewhere cleans to the same text (so `GYT222` and `GY/T 222` meet).
pub proof fn law_clean_ignores_slash_and_space(a: Seq<char>, b: Seq<char>, c: char)
    requires
        c == '/' || c == ' ',
    ensures
        clean_code(a + seq![c] + b) == clean_code(a + b),
{
    lemma_clean_code_concat(a + seq![c], b);
    lemma_clean_code_concat(a, seq![c]);
    lemma_clean_code_concat(a, b);
    assert(clean_code(seq![c]) =~= clean_code(Seq::<char>::empty()) + clean_char(c)) by {
        assert(seq![c].drop_last() =~= Seq::<char>::empty());
    }
    assert(clean_code(a) + clean_code(seq![c]) =~= clean_code(a));
}

proof fn lemma_run_shift(s: Seq<char>, a: int, b: int, i: int, cls: CharClass)
    requires
        0 <= a <= b <= s.len(),
        0 <= i <= b - a,
        run_end(s.subrange(a, b), i, cls) < b - a,
    ensures
        run_end(s, i + a, cls) == run_end(s.subrange(a, b), i, cls) + a,
{
    let t = s.subrange(a, b);
    lemma_run_end(t, i, cls);
    let e = run_end(t, i, cls);
    assert forall|k: int| i + a <= k < e + a implies in_class(cls, #[trigger] s[k]) by {
        assert(s[k] == t[k - a]);
    }
    assert(s[e + a] == t[e]);
    lemma_run_end_char(s, i + a, e + a, cls);
}

/// A code head inside a stretch of a text is a code head of the text.
proof fn lemma_head_in_stretch(s: Seq<char>, a: int, b: int, p: int)
    requires
        0 <= a <= b <= s.len(),
        head_at(s.subrange(a, b), p),
    ensures
        head_at(s, p + a),
{
    let t = s.subrange(a, b);
    let n = t.len() as int;
    lemma_prefix_end(t, p);
    let a1 = run_end(t, p, CharClass::Letter);
    lemma_run_end(t, p, CharClass::Letter);
    let pe = prefix_end(t, p);
    lemma_run_end(t, pe, CharClass::Space);
    let ns = number_start(t, p);
    assert(a1 <= pe <= ns < n);
    lemma_run_shift(s, a, b, p, CharClass::Letter);
    assert(s[a1 + a] == t[a1]);
    if t[a1] == '/' {
        lemma_run_end(t, a1 + 1, CharClass::Letter);
        lemma_run_shift(s, a, b, a1 + 1, CharClass::Letter);
        assert(prefix_end(s, p + a) == pe + a);
    } else {
        assert(prefix_end(s, p + a) == pe + a);
    }
    lemma_run_shift(s, a, b, pe, CharClass::Space);
    assert(number_start(s, p + a) == ns + a);
    assert(s[ns + a] == t[ns]);
    assert(s[p + a] == t[p]);
}

/// A text that mentions no code is left as it is, but for the white space
/// around it.
pub proof fn law_no_code_extracts_trimmed(s: Seq<char>)
    requires
        !mentions_code(s),
    ensures
        extracted_code(s) == trim(s),
{
    let t = trim(s);
    lemma_head_find(t, 0);
    if let Some(p) = head_find(t, 0) {
        let a = run_end(s, 0, CharClass::Space);
        let b = run_start(s, s.len() as int, CharClass::Space);
        lemma_run_end(s, 0, CharClass::Space);
        lemma_run_start(s, s.len() as int, CharClass::Space);
        if a < b {
            lemma_head_in_stretch(s, a, b, p);
        }
        assert(head_at(s, p + a));
    }
}

/// A text that neither starts nor ends with white space is its own trim.
proof fn lemma_trim_fixed(s: Seq<char>)
    requires
        s.len() > 0 ==> !is_space(s[0]) && !is_space(s.last()),
    ensures
        trim(s) == s,
{
    if s.len() > 0 {
        assert(run_end(s, 0, CharClass::Space) == 0);
        assert(run_start(s, s.len() as int, CharClass::Space) == s.len());
        assert(s.subrange(0, s.len() as int) =~= s);
    }
}

/// Trimming twice is trimming once.
proof fn lemma_trim_idempotent(s: Seq<char>)
    ensures
        trim(trim(s)) == trim(s),
{
    let a = run_end(s, 0, CharClass::Space);
    let b = run_start(s, s.len() as int, CharClass::Space);
    lemma_run_end(s, 0, CharClass::Space);
    lemma_run_start(s, s.len() as int, CharClass::Space);
    let t = trim(s);
    if a < b {
        assert(t[0] == s[a]);
        assert(t.last() == s[b - 1]);
    }
    lemma_trim_fixed(t);
}

/// The number of a code copied into another text, from `q` to `e` shifted by
/// `d`, followed there either by nothing or by a dash and a four-digit year,
/// reads in the copy as running to the end of the copy.
proof fn lemma_number_in_copy(t: Seq<char>, x: Seq<char>, q: int, e: int, d: int, has_year: bool, g: int)
    requires
        0 <= q < g <= e <= t.len(),
        0 <= q + d,
        forall|k: int| q <= k < e ==> x[k + d] == #[trigger] t[k],
        has_year ==> x.len() == e + d + 5 && x[e + d] == '-' && forall|k: int|
            e + d + 1 <= k < x.len() ==> is_digit(#[trigger] x[k]),
        !has_year ==> x.len() == e + d,
        g < t.len() ==> !is_digit(t[g]),
        number_last_end(t, g) == e,
    ensures
        number_last_end(x, g + d) == x.len(),
    decreases e - g,
{
    if can_extend(t, g) {
        let next = run_end(t, g + 1, CharClass::Digit);
        lemma_run_end(t, g + 1, CharClass::Digit);
        lemma_number_last_end(t, next);
        assert(number_last_end(t, g) == number_last_end(t, next));
        assert(g + 1 < next <= e);
        assert(x[g + d] == t[g]);
        assert(x[g + 1 + d] == t[g + 1]);
        assert(can_extend(x, g + d));
        assert forall|k: int| g + 1 + d <= k < next + d implies in_class(CharClass::Digit, #[trigger] x[k]) by {
            assert(x[k] == t[k - d]);
        }
        if next < e {
            assert(x[next + d] == t[next]);
        }
        lemma_run_end_char(x, g + 1 + d, next + d, CharClass::Digit);
        lemma_number_in_copy(t, x, q, e, d, has_year, next);
        assert(number_last_end(x, g + d) == number_last_end(x, next + d));
    } else {
        assert(g == e);
        if has_year {
            assert(can_extend(x, e + d));
            assert forall|k: int| e + d + 1 <= k < x.len() implies in_class(CharClass::Digit, #[trigger] x[k]) by {}
            lemma_run_end_char(x, e + d + 1, x.len() as int, CharClass::Digit);
            assert(!can_extend(x, x.len() as int));
            assert(number_last_end(x, x.len() as int) == x.len());
        } else {
            assert(!can_extend(x, e + d));
        }
    }
}

/// The end of a longest number ends with a digit.
proof fn lemma_number_ends_with_digit(t: Seq<char>, g: int)
    requires
        0 < g <= t.len(),
        is_digit(t[g - 1]),
    ensures
        g <= number_last_end(t, g) <= t.len(),
        is_digit(t[number_last_end(t, g) - 1]),
    decreases t.len() - g,
{
    if can_extend(t, g) {
        let next = run_end(t, g + 1, CharClass::Digit);
        lemma_run_end(t, g + 1, CharClass::Digit);
        assert(t[g + 1] == t[g + 1]);
        assert(next > g + 1);
        assert(in_class(CharClass::Digit, t[next - 1]));
        lemma_number_ends_with_digit(t, next);
    }
}

/// A code found in a text, written out as `PREFIX NUMBER[-YEAR]`, is found
/// again, whole, in what was written: extracting a code twice gives what
/// extracting it once gave.
pub proof fn law_extract_code_idempotent(s: Seq<char>)
    requires
        s.len() + 2 <= usize::MAX,
    ensures
        extracted_code(extracted_code(s)) == extracted_code(s),
{
    let t = trim(s);
    lemma_trim_idempotent(s);
    lemma_run_end(s, 0, CharClass::Space);
    lemma_run_start(s, s.len() as int, CharClass::Space);
    assert(t.len() <= s.len());
    lemma_head_find(t, 0);
    match head_find(t, 0) {
        None => {},
        Some(p) => {
            lemma_code_written_out(t, p);
        },
    }
}

/// What `extract_code` gives has no white space at either end.
pub proof fn law_extracted_code_trimmed(s: Seq<char>)
    requires
        s.len() + 2 <= usize::MAX,
    ensures
        trim(extracted_code(s)) == extracted_code(s),
{
    let t = trim(s);
    lemma_trim_idempotent(s);
    lemma_run_end(s, 0, CharClass::Space);
    lemma_run_start(s, s.len() as int, CharClass::Space);
    assert(t.len() <= s.len());
    lemma_head_find(t, 0);
    match head_find(t, 0) {
        None => {},
        Some(p) => {
            lemma_copy_layout(t, p);
            lemma_prefix_end(t, p);
            let m = loose_match_at(t, p).unwrap();
            let x = loose_code_text(t, m);
            assert(x[0] == t[p + 0]);
            lemma_trim_fixed(x);
        },
    }
}

/// The prefix of a code copied to the start of another text, followed there
/// by a space, is read as the same prefix.
proof fn lemma_prefix_in_copy(t: Seq<char>, x: Seq<char>, p: int, lp: int)
    requires
        0 <= p < t.len(),
        is_letter(t[p]),
        lp == prefix_end(t, p) - p,
        lp + 1 < x.len(),
        forall|k: int| 0 <= k < lp ==> x[k] == #[trigger] t[p + k],
        x[lp] == ' ',
    ensures
        prefix_end(x, 0) == lp,
{
    lemma_prefix_end(t, p);
    let pe = prefix_end(t, p);
    let a1 = run_end(t, p, CharClass::Letter);
    lemma_run_end(t, p, CharClass::Letter);
    if a1 < t.len() && t[a1] == '/' {
        lemma_run_end(t, a1 + 1, CharClass::Letter);
    }
    assert(a1 <= pe);
    assert forall|k: int| 0 <= k < a1 - p implies in_class(CharClass::Letter, #[trigger] x[k]) by {
        assert(x[k] == t[p + k]);
    }
    if a1 < pe {
        assert(x[a1 - p] == t[p + (a1 - p)]);
    }
    lemma_run_end_char(x, 0, a1 - p, CharClass::Letter);
    if a1 < t.len() && t[a1] == '/' {
        lemma_run_end(t, a1 + 1, CharClass::Letter);
        assert(x[a1 - p] == t[p + (a1 - p)]);
        assert forall|k: int| a1 - p + 1 <= k < lp implies in_class(CharClass::Letter, #[trigger] x[k]) by {
            assert(x[k] == t[p + k]);
        }
        lemma_run_end_char(x, a1 - p + 1, lp, CharClass::Letter);
    }
}

/// The pieces of the text written out for the code at `p`.
proof fn lemma_copy_layout(t: Seq<char>, p: int)
    requires
        t.len() + 2 <= usize::MAX,
        0 <= p,
        head_at(t, p),
    ensures
        ({
            let m = loose_match_at(t, p).unwrap();
            let x = loose_code_text(t, m);
            let lp = m.prefix_end - p;
            let q = number_start(t, p);
            let d = lp + 1 - q;
            let e = m.number_end as int;
            &&& m.prefix_end == prefix_end(t, p)
            &&& m.number_start == q
            &&& e == number_last_end(t, run_end(t, q, CharClass::Digit))
            &&& p < m.prefix_end <= q < run_end(t, q, CharClass::Digit) <= e <= t.len()
            &&& forall|k: int| 0 <= k < lp ==> x[k] == #[trigger] t[p + k]
            &&& x[lp] == ' '
            &&& forall|k: int| q <= k < e ==> x[k + d] == #[trigger] t[k]
            &&& x.len() == e + d + (if m.year is Some { 5int } else { 0int })
            &&& m.year is Some ==> x[e + d] == '-' && forall|k: int|
                e + d + 1 <= k < x.len() ==> is_digit(#[trigger] x[k])
            &&& is_digit(x.last())
            &&& x.len() <= t.len() + 2
        }),
{
    lemma_loose_match_at(t, p);
    lemma_prefix_end(t, p);
    let m = loose_match_at(t, p).unwrap();
    let pe = prefix_end(t, p);
    let q = number_start(t, p);
    let e0 = run_end(t, q, CharClass::Digit);
    lemma_run_end(t, q, CharClass::Digit);
    lemma_run_end(t, q + 1, CharClass::Digit);
    let e = number_last_end(t, e0);
    lemma_number_last_end(t, e0);
    lemma_number_ends_with_digit(t, e0);
    let pp = t.subrange(p, pe);
    let nn = t.subrange(q, e);
    let x = loose_code_text(t, m);
    let lp = pe - p;
    let d = lp + 1 - q;
    match m.year {
        Some(y) => {
            let yy = t.subrange(y as int, y + 4);
            assert(x =~= pp + seq![' '] + nn + (seq!['-'] + yy));
            assert forall|k: int| e + d + 1 <= k < x.len() implies is_digit(#[trigger] x[k]) by {
                assert(x[k] == yy[k - (e + d + 1)]);
                assert(yy[k - (e + d + 1)] == t[y + (k - (e + d + 1))]);
            }
            assert(x.last() == x[x.len() - 1]);
        },
        None => {
            assert(x =~= pp + seq![' '] + nn);
            assert(x.last() == t[e - 1]);
        },
    }
    assert forall|k: int| 0 <= k < lp implies x[k] == #[trigger] t[p + k] by {}
    assert forall|k: int| q <= k < e implies x[k + d] == #[trigger] t[k] by {}
}

/// The copy starts with a code head, its number right after the space.
proof fn lemma_copy_head(t: Seq<char>, x: Seq<char>, p: int, lp: int, q: int)
    requires
        0 <= p < t.len(),
        is_letter(t[p]),
        lp == prefix_end(t, p) - p,
        0 <= q < t.len(),
        is_digit(t[q]),
        lp + 1 < x.len(),
        forall|k: int| 0 <= k < lp ==> x[k] == #[trigger] t[p + k],
        x[lp] == ' ',
        x[lp + 1] == t[q],
    ensures
        prefix_end(x, 0) == lp,
        number_start(x, 0) == lp + 1,
        head_at(x, 0),
        head_find(x, 0) == Some(0int),
{
    lemma_prefix_end(t, p);
    assert(x[0] == t[p + 0]);
    lemma_prefix_in_copy(t, x, p, lp);
    lemma_run_end_char(x, lp, lp + 1, CharClass::Space);
    assert(head_at(x, 0));
}

/// In the copy, the number runs to the end.
proof fn lemma_copy_number(t: Seq<char>, x: Seq<char>, q: int, e: int, d: int, has_year: bool, lp: int)
    requires
        0 <= q < run_end(t, q, CharClass::Digit) <= e <= t.len(),
        e == number_last_end(t, run_end(t, q, CharClass::Digit)),
        lp + 1 == q + d,
        0 <= lp,
        forall|k: int| q <= k < e ==> x[k + d] == #[trigger] t[k],
        has_year ==> x.len() == e + d + 5 && x[e + d] == '-' && forall|k: int|
            e + d + 1 <= k < x.len() ==> is_digit(#[trigger] x[k]),
        !has_year ==> x.len() == e + d,
    ensures
        number_last_end(x, run_end(x, lp + 1, CharClass::Digit)) == x.len(),
{
    let e0 = run_end(t, q, CharClass::Digit);
    lemma_run_end(t, q, CharClass::Digit);
    assert forall|k: int| lp + 1 <= k < e0 + d implies in_class(CharClass::Digit, #[trigger] x[k]) by {
        assert(x[(k - d) + d] == t[k - d]);
    }
    if e0 < e {
        assert(x[e0 + d] == t[e0]);
    }
    lemma_run_end_char(x, lp + 1, e0 + d, CharClass::Digit);
    lemma_number_in_copy(t, x, q, e, d, has_year, e0);
}

/// A text that is a code head at its start, whose number runs to its end,
/// reads as that code without a year.
proof fn lemma_reparse(x: Seq<char>, lp: int)
    requires
        x.len() <= usize::MAX,
        0 < lp,
        lp + 1 < x.len(),
        prefix_end(x, 0) == lp,
        number_start(x, 0) == lp + 1,
        head_at(x, 0),
        number_last_end(x, run_end(x, lp + 1, CharClass::Digit)) == x.len(),
    ensures
        loose_code_text(x, loose_match_at(x, 0).unwrap()) == x.subrange(0, lp) + seq![' '] + x.subrange(
            lp + 1,
            x.len() as int,
        ),
{
    let n = x.len() as int;
    assert(run_end(x, n, CharClass::Space) == n);
    assert(!crate::grammar::four_digits_at(x, n));
    let m2 = loose_match_at(x, 0).unwrap();
    assert(m2.prefix_end == lp && m2.number_start == lp + 1 && m2.number_end == n && m2.year is None);
}

proof fn lemma_extracted_at_start(x: Seq<char>)
    requires
        trim(x) == x,
        head_find(x, 0) == Some(0int),
    ensures
        extracted_code(x) == loose_code_text(x, loose_match_at(x, 0).unwrap()),
{
}

/// The text written out for the code at `p` of a trimmed text reads back as
/// itself.
#[verifier::rlimit(40)]
proof fn lemma_code_written_out(t: Seq<char>, p: int)
    requires
        t.len() + 2 <= usize::MAX,
        0 <= p,
        head_at(t, p),
    ensures
        extracted_code(loose_code_text(t, loose_match_at(t, p).unwrap())) == loose_code_text(
            t,
            loose_match_at(t, p).unwrap(),
        ),
{
    lemma_copy_layout(t, p);
    lemma_prefix_end(t, p);
    let m = loose_match_at(t, p).unwrap();
    let x = loose_code_text(t, m);
    let lp = m.prefix_end - p;
    let q = number_start(t, p);
    let d = lp + 1 - q;
    let e = m.number_end as int;
    assert(x[0] == t[p + 0]);
    lemma_trim_fixed(x);
    assert(x[lp + 1] == t[q]);
    lemma_copy_head(t, x, p, lp, q);
    lemma_copy_number(t, x, q, e, d, m.year is Some, lp);
    lemma_reparse(x, lp);
    lemma_extracted_at_start(x);
    assert(x.subrange(0, lp) + seq![' '] + x.subrange(lp + 1, x.len() as int) =~= x);
}

/// The full-width hyphen and the em dash stand for `-`, and the full-width
/// colon for `:`: a code spelled with them cleans to the same text as the code
/// spelled with the ASCII mark.
pub proof fn law_clean_wide_marks(a: Seq<char>, b: Seq<char>)
    ensures
        clean_code(a + seq!['\u{FF0D}'] + b) == clean_code(a + seq!['-'] + b),
        clean_code(a + seq!['\u{2014}'] + b) == clean_code(a + seq!['-'] + b),
        clean_code(a + seq!['\u{FF1A}'] + b) == clean_code(a + seq![':'] + b),
        clean_code(a + seq!['-'] + b) == clean_code(a) + seq!['-'] + clean_code(b),
{
    let marks = seq!['\u{FF0D}', '\u{2014}', '\u{FF1A}', '-', ':'];
    assert forall|k: int| 0 <= k < marks.len() implies clean_code(a + seq![#[trigger] marks[k]] + b)
        == clean_code(a) + clean_char(marks[k]) + clean_code(b) by {
        let c = marks[k];
        lemma_clean_code_concat(a + seq![c], b);
        lemma_clean_code_concat(a, seq![c]);
        assert(clean_code(seq![c]) =~= clean_code(Seq::<char>::empty()) + clean_char(c)) by {
            assert(seq![c].drop_last() =~= Seq::<char>::empty());
        }
        assert(clean_code(Seq::<char>::empty()) + clean_char(c) =~= clean_char(c));
    }
    assert(marks[0] == '\u{FF0D}');
    assert(marks[1] == '\u{2014}');
    assert(marks[2] == '\u{FF1A}');
    assert(marks[3] == '-');
    assert(marks[4] == ':');
}

} // verus!
