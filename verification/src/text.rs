//! Character classes and small text operations shared by the parsers.
//!
//! Text is modelled as `Seq<char>`; the executable helpers work on
//! `Vec<char>` buffers and convert to and from `String` at the edges.
use vstd::prelude::*;

verus! {

/// The character classes that the scanners of this crate walk over.
#[derive(Clone, Copy, PartialEq, Eq, Debug)]
pub enum CharClass {
    /// ASCII letters `A-Z` and `a-z`.
    Letter,
    /// ASCII digits `0-9`.
    Digit,
    /// Unicode `White_Space`, as used by `str::trim` and by `\s`.
    Space,
    /// The separators trimmed around a name: `、`, `，`, `,`, space, ideographic space.
    NameSep,
    /// The separators trimmed around a name read from a result line: `、`, `，`, `,`, space, `:`.
    ResultSep,
    /// The middle dot `·` that prefixes result lines.
    MiddleDot,
    /// Anything but a closing parenthesis `）` or `)`.
    NotCloseParen,
    /// Anything but the closing title mark `》`.
    NotCloseTitle,
    /// Anything but the closing lenticular bracket `】`.
    NotCloseLenticular,
    /// Anything but `>`.
    NotGreater,
    /// Anything but `<`.
    NotLess,
    /// Anything but `"` and white space.
    NotQuoteOrSpace,
    /// The slash `/`.
    Slash,
    /// `、`, `，`, `,` and white space.
    SepOrSpace,
}

pub open spec fn is_letter(c: char) -> bool {
    ('A' <= c && c <= 'Z') || ('a' <= c && c <= 'z')
}

pub open spec fn is_digit(c: char) -> bool {
    '0' <= c && c <= '9'
}

/// Unicode `White_Space` (the set `char::is_whitespace` and the regex class `\s` use).
pub open spec fn is_space(c: char) -> bool {
    ||| ('\u{9}' <= c && c <= '\u{d}')
    ||| c == ' '
    ||| c == '\u{85}'
    ||| c == '\u{a0}'
    ||| c == '\u{1680}'
    ||| ('\u{2000}' <= c && c <= '\u{200a}')
    ||| c == '\u{2028}'
    ||| c == '\u{2029}'
    ||| c == '\u{202f}'
    ||| c == '\u{205f}'
    ||| c == '\u{3000}'
}

pub open spec fn is_name_sep(c: char) -> bool {
    c == '、' || c == '，' || c == ',' || c == ' ' || c == '\u{3000}'
}

pub open spec fn in_class(cls: CharClass, c: char) -> bool {
    match cls {
        CharClass::Letter => is_letter(c),
        CharClass::Digit => is_digit(c),
        CharClass::Space => is_space(c),
        CharClass::NameSep => is_name_sep(c),
        CharClass::ResultSep => c == '、' || c == '，' || c == ',' || c == ' ' || c == ':',
        CharClass::MiddleDot => c == '·',
        CharClass::NotCloseParen => c != '）' && c != ')',
        CharClass::NotCloseTitle => c != '》',
        CharClass::NotCloseLenticular => c != '】',
        CharClass::NotGreater => c != '>',
        CharClass::NotLess => c != '<',
        CharClass::NotQuoteOrSpace => c != '"' && !is_space(c),
        CharClass::Slash => c == '/',
        CharClass::SepOrSpace => c == '、' || c == '，' || c == ',' || is_space(c),
    }
}

fn space_exec(c: char) -> (b: bool)
    ensures
        b == is_space(c),
{
    ('\u{9}' <= c && c <= '\u{d}') || c == ' ' || c == '\u{85}' || c == '\u{a0}' || c == '\u{1680}'
        || ('\u{2000}' <= c && c <= '\u{200a}') || c == '\u{2028}' || c == '\u{2029}' || c
        == '\u{202f}' || c == '\u{205f}' || c == '\u{3000}'
}

pub fn class_contains(cls: CharClass, c: char) -> (b: bool)
    ensures
        b == in_class(cls, c),
{
    match cls {
        CharClass::Letter => ('A' <= c && c <= 'Z') || ('a' <= c && c <= 'z'),
        CharClass::Digit => '0' <= c && c <= '9',
        CharClass::Space => space_exec(c),
        CharClass::NameSep => c == '、' || c == '，' || c == ',' || c == ' ' || c == '\u{3000}',
        CharClass::ResultSep => c == '、' || c == '，' || c == ',' || c == ' ' || c == ':',
        CharClass::MiddleDot => c == '·',
        CharClass::NotCloseParen => c != '）' && c != ')',
        CharClass::NotCloseTitle => c != '》',
        CharClass::NotCloseLenticular => c != '】',
        CharClass::NotGreater => c != '>',
        CharClass::NotLess => c != '<',
        CharClass::NotQuoteOrSpace => c != '"' && !space_exec(c),
        CharClass::Slash => c == '/',
        CharClass::SepOrSpace => c == '、' || c == '，' || c == ',' || space_exec(c),
    }
}

/// End of the maximal run of `cls` characters that starts at `i`.
pub open spec fn run_end(s: Seq<char>, i: int, cls: CharClass) -> int
    decreases s.len() - i,
{
    if 0 <= i < s.len() && in_class(cls, s[i]) {
        run_end(s, i + 1, cls)
    } else {
        i
    }
}

/// Start of the maximal run of `cls` characters that ends at `j`.
pub open spec fn run_start(s: Seq<char>, j: int, cls: CharClass) -> int
    decreases j,
{
    if 0 < j <= s.len() && in_class(cls, s[j - 1]) {
        run_start(s, j - 1, cls)
    } else {
        j
    }
}

pub proof fn lemma_run_end(s: Seq<char>, i: int, cls: CharClass)
    requires
        0 <= i <= s.len(),
    ensures
        i <= run_end(s, i, cls) <= s.len(),
        forall|k: int| i <= k < run_end(s, i, cls) ==> in_class(cls, #[trigger] s[k]),
        run_end(s, i, cls) < s.len() ==> !in_class(cls, s[run_end(s, i, cls)]),
    decreases s.len() - i,
{
    if i < s.len() && in_class(cls, s[i]) {
        lemma_run_end(s, i + 1, cls);
    }
}

pub proof fn lemma_run_start(s: Seq<char>, j: int, cls: CharClass)
    requires
        0 <= j <= s.len(),
    ensures
        0 <= run_start(s, j, cls) <= j,
        forall|k: int| run_start(s, j, cls) <= k < j ==> in_class(cls, #[trigger] s[k]),
        run_start(s, j, cls) > 0 ==> !in_class(cls, s[run_start(s, j, cls) - 1]),
    decreases j,
{
    if j > 0 && in_class(cls, s[j - 1]) {
        lemma_run_start(s, j - 1, cls);
    }
}

/// A run end is determined by the characters it passes over: a position
/// whose class run is known can be characterised directly.
pub proof fn lemma_run_end_char(s: Seq<char>, i: int, e: int, cls: CharClass)
    requires
        0 <= i <= e <= s.len(),
        forall|k: int| i <= k < e ==> in_class(cls, #[trigger] s[k]),
        e == s.len() || !in_class(cls, s[e]),
    ensures
        run_end(s, i, cls) == e,
    decreases e - i,
{
    if i < e {
        lemma_run_end_char(s, i + 1, e, cls);
    }
}

pub fn scan_run(s: &Vec<char>, i: usize, cls: CharClass) -> (r: usize)
    requires
        i <= s.len(),
    ensures
        r == run_end(s@, i as int, cls),
        i <= r <= s.len(),
{
    let mut k = i;
    while k < s.len() && class_contains(cls, s[k])
        invariant
            i <= k <= s.len(),
            run_end(s@, k as int, cls) == run_end(s@, i as int, cls),
        decreases s.len() - k,
    {
        k = k + 1;
    }
    proof {
        lemma_run_end(s@, i as int, cls);
    }
    k
}

pub fn scan_run_back(s: &Vec<char>, j: usize, cls: CharClass) -> (r: usize)
    requires
        j <= s.len(),
    ensures
        r == run_start(s@, j as int, cls),
        r <= j,
{
    let mut k = j;
    while k > 0 && class_contains(cls, s[k - 1])
        invariant
            k <= j <= s.len(),
            run_start(s@, k as int, cls) == run_start(s@, j as int, cls),
        decreases k,
    {
        k = k - 1;
    }
    proof {
        lemma_run_start(s@, j as int, cls);
    }
    k
}

/// `s` with the leading and trailing characters of class `cls` removed
/// (`str::trim` for `Space`, `str::trim_matches` for the separator classes).
pub open spec fn trim_class(s: Seq<char>, cls: CharClass) -> Seq<char> {
    let a = run_end(s, 0, cls);
    let b = run_start(s, s.len() as int, cls);
    if a < b {
        s.subrange(a, b)
    } else {
        Seq::empty()
    }
}

/// `str::trim`: leading and trailing Unicode white space removed.
pub open spec fn trim(s: Seq<char>) -> Seq<char> {
    trim_class(s, CharClass::Space)
}

pub fn trim_chars(s: &Vec<char>, cls: CharClass) -> (r: Vec<char>)
    ensures
        r@ == trim_class(s@, cls),
{
    let a = scan_run(s, 0, cls);
    let b = scan_run_back(s, s.len(), cls);
    if a < b {
        slice_chars(s, a, b)
    } else {
        Vec::new()
    }
}

/// Copies `s[from..to]`.
pub fn slice_chars(s: &Vec<char>, from: usize, to: usize) -> (r: Vec<char>)
    requires
        from <= to <= s.len(),
    ensures
        r@ == s@.subrange(from as int, to as int),
{
    let mut r: Vec<char> = Vec::with_capacity(to - from);
    let mut k = from;
    while k < to
        invariant
            from <= k <= to <= s.len(),
            r@ == s@.subrange(from as int, k as int),
        decreases to - k,
    {
        r.push(s[k]);
        k = k + 1;
    }
    r
}

/// Appends `t` to `r`.
pub fn push_all(r: &mut Vec<char>, t: &Vec<char>)
    ensures
        final(r)@ == old(r)@ + t@,
{
    let mut k: usize = 0;
    while k < t.len()
        invariant
            k <= t.len(),
            r@ == old(r)@ + t@.subrange(0, k as int),
        decreases t.len() - k,
    {
        r.push(t[k]);
        k = k + 1;
        proof {
            assert(t@.subrange(0, k as int) == t@.subrange(0, k - 1) + seq![t@[k - 1]]);
        }
    }
    proof {
        assert(t@.subrange(0, t@.len() as int) == t@);
    }
}

/// The characters of a string slice.
pub fn chars_of(s: &str) -> (r: Vec<char>)
    ensures
        r@ == s@,
{
    let mut r: Vec<char> = Vec::new();
    for c in it: s.chars()
        invariant
            it.seq() == s@,
            r@ == s@.take(it.index() as int),
    {
        r.push(c);
    }
    proof {
        assert(r@ == s@.take(s@.len() as int));
        assert(s@.take(s@.len() as int) == s@);
    }
    r
}

/// Calls `String::push`, which appends the character to the string.
#[verifier::external_body]
pub(crate) fn string_push(s: &mut String, c: char)
    ensures
        final(s)@ == old(s)@.push(c),
{
    s.push(c);
}

/// A `String` holding the characters of `v`.
pub fn string_of(v: &Vec<char>) -> (r: String)
    ensures
        r@ == v@,
{
    let mut r = String::new();
    let mut k: usize = 0;
    while k < v.len()
        invariant
            k <= v.len(),
            r@ == v@.subrange(0, k as int),
        decreases v.len() - k,
    {
        string_push(&mut r, v[k]);
        k = k + 1;
    }
    proof {
        assert(v@.subrange(0, v@.len() as int) == v@);
    }
    r
}

pub fn chars_equal(a: &Vec<char>, b: &Vec<char>) -> (r: bool)
    ensures
        r == (a@ == b@),
{
    if a.len() != b.len() {
        return false;
    }
    let mut k: usize = 0;
    while k < a.len()
        invariant
            a.len() == b.len(),
            k <= a.len(),
            forall|i: int| 0 <= i < k ==> a@[i] == b@[i],
        decreases a.len() - k,
    {
        if a[k] != b[k] {
            return false;
        }
        k = k + 1;
    }
    proof {
        assert(a@ =~= b@);
    }
    true
}

/// The character of a decimal digit `d < 10`.
pub open spec fn digit_char(d: int) -> char {
    (d + 48) as char
}

/// The decimal writing of a number, as `Display` prints it.
pub open spec fn decimal(n: nat) -> Seq<char>
    decreases n,
{
    if n < 10 {
        seq![digit_char(n as int)]
    } else {
        decimal(n / 10) + seq![digit_char((n % 10) as int)]
    }
}

pub fn decimal_chars(n: u64) -> (r: Vec<char>)
    ensures
        r@ == decimal(n as nat),
    decreases n,
{
    let d = (n % 10) as u8;
    let c = (d + 48) as char;
    if n < 10 {
        let mut r = Vec::new();
        r.push(c);
        r
    } else {
        let mut r = decimal_chars(n / 10);
        r.push(c);
        r
    }
}

/// The views of a sequence of character buffers.
pub open spec fn views(v: Seq<Vec<char>>) -> Seq<Seq<char>> {
    v.map_values(|x: Vec<char>| x@)
}

/// The parts joined with `sep` between each two (`[..].join(sep)`).
pub open spec fn join(parts: Seq<Seq<char>>, sep: Seq<char>) -> Seq<char>
    decreases parts.len(),
{
    if parts.len() == 0 {
        Seq::empty()
    } else if parts.len() == 1 {
        parts[0]
    } else {
        join(parts.drop_last(), sep) + sep + parts.last()
    }
}

pub fn join_chars(parts: &Vec<Vec<char>>, sep: &Vec<char>) -> (r: Vec<char>)
    ensures
        r@ == join(views(parts@), sep@),
{
    let mut r: Vec<char> = Vec::new();
    let mut k: usize = 0;
    while k < parts.len()
        invariant
            k <= parts.len(),
            r@ == join(views(parts@).take(k as int), sep@),
        decreases parts.len() - k,
    {
        proof {
            assert(views(parts@).take(k + 1).drop_last() == views(parts@).take(k as int));
            assert(views(parts@).take(k + 1).last() == parts@[k as int]@);
        }
        if k > 0 {
            push_all(&mut r, sep);
        }
        push_all(&mut r, &parts[k]);
        k = k + 1;
        proof {
            if k == 1 {
                assert(views(parts@).take(1)[0] == parts@[0]@);
            }
        }
    }
    proof {
        assert(views(parts@).take(parts@.len() as int) == views(parts@));
    }
    r
}

/// `needle` occurs in `hay` at position `i`.
pub open spec fn occurs_at(hay: Seq<char>, needle: Seq<char>, i: int) -> bool {
    0 <= i && i + needle.len() <= hay.len() && hay.subrange(i, i + needle.len()) == needle
}

/// The first position at or after `from` where `needle` occurs in `hay`.
pub open spec fn find_from(hay: Seq<char>, needle: Seq<char>, from: int) -> Option<int>
    decreases hay.len() + 1 - from,
{
    if from < 0 || from + needle.len() > hay.len() {
        None
    } else if occurs_at(hay, needle, from) {
        Some(from)
    } else {
        find_from(hay, needle, from + 1)
    }
}

/// `hay` contains `needle` (`str::contains`).
pub open spec fn contains_seq(hay: Seq<char>, needle: Seq<char>) -> bool {
    exists|i: int| occurs_at(hay, needle, i)
}

pub proof fn lemma_find_from(hay: Seq<char>, needle: Seq<char>, from: int)
    requires
        0 <= from,
    ensures
        find_from(hay, needle, from) matches Some(i) ==> from <= i && occurs_at(hay, needle, i),
        find_from(hay, needle, from) is None ==> forall|i: int|
            from <= i ==> !occurs_at(hay, needle, i),
        find_from(hay, needle, from) matches Some(i) ==> forall|j: int|
            from <= j < i ==> !occurs_at(hay, needle, j),
    decreases hay.len() + 1 - from,
{
    if from + needle.len() <= hay.len() && !occurs_at(hay, needle, from) {
        lemma_find_from(hay, needle, from + 1);
    }
}

fn occurs_at_exec(hay: &Vec<char>, needle: &Vec<char>, i: usize) -> (r: bool)
    requires
        i + needle.len() <= hay.len(),
    ensures
        r == occurs_at(hay@, needle@, i as int),
{
    let mut k: usize = 0;
    while k < needle.len()
        invariant
            k <= needle.len(),
            i + needle.len() <= hay.len(),
            forall|j: int| 0 <= j < k ==> hay@[i + j] == needle@[j],
        decreases needle.len() - k,
    {
        if hay[i + k] != needle[k] {
            proof {
                assert(hay@.subrange(i as int, i + needle.len())[k as int] != needle@[k as int]);
            }
            return false;
        }
        k = k + 1;
    }
    proof {
        assert(hay@.subrange(i as int, i + needle.len()) =~= needle@);
    }
    true
}

pub fn find_from_exec(hay: &Vec<char>, needle: &Vec<char>, from: usize) -> (r: Option<usize>)
    ensures
        r matches Some(i) ==> find_from(hay@, needle@, from as int) == Some(i as int),
        r is None ==> find_from(hay@, needle@, from as int) is None,
{
    if needle.len() > hay.len() {
        return None;
    }
    let last = hay.len() - needle.len();
    let mut i = from;
    while i <= last
        invariant
            from <= i,
            last + needle.len() == hay.len(),
            find_from(hay@, needle@, i as int) == find_from(hay@, needle@, from as int),
        decreases last + 1 - i,
    {
        if occurs_at_exec(hay, needle, i) {
            return Some(i);
        }
        if i == last {
            proof {
                assert(find_from(hay@, needle@, i + 1) is None);
            }
            return None;
        }
        i = i + 1;
    }
    None
}

pub fn contains_exec(hay: &Vec<char>, needle: &Vec<char>) -> (r: bool)
    ensures
        r == contains_seq(hay@, needle@),
{
    let found = find_from_exec(hay, needle, 0);
    proof {
        lemma_find_from(hay@, needle@, 0);
    }
    found.is_some()
}

/// `s` with every non-overlapping occurrence of `pat` (searched left to right
/// from `from`) replaced by `rep` (`str::replace`).
pub open spec fn replace_from(s: Seq<char>, pat: Seq<char>, rep: Seq<char>, from: int) -> Seq<char>
    decreases s.len() - from,
{
    if from < 0 || from > s.len() || pat.len() == 0 {
        Seq::empty()
    } else {
        match find_from(s, pat, from) {
            Some(i) => if from <= i && i + pat.len() <= s.len() {
                s.subrange(from, i) + rep + replace_from(s, pat, rep, i + pat.len())
            } else {
                Seq::empty()
            },
            None => s.subrange(from, s.len() as int),
        }
    }
}

pub fn replace_exec(s: &Vec<char>, pat: &Vec<char>, rep: &Vec<char>) -> (r: Vec<char>)
    requires
        pat.len() > 0,
    ensures
        r@ == replace_from(s@, pat@, rep@, 0),
{
    let mut r: Vec<char> = Vec::new();
    let mut pos: usize = 0;
    loop
        invariant
            pos <= s.len(),
            pat.len() > 0,
            r@ + replace_from(s@, pat@, rep@, pos as int) == replace_from(s@, pat@, rep@, 0),
        decreases s.len() - pos,
    {
        let found = find_from_exec(s, pat, pos);
        proof {
            lemma_find_from(s@, pat@, pos as int);
        }
        match found {
            Some(i) => {
                let piece = slice_chars(s, pos, i);
                let ghost before = r@;
                push_all(&mut r, &piece);
                push_all(&mut r, rep);
                proof {
                    assert(replace_from(s@, pat@, rep@, pos as int) == s@.subrange(pos as int, i as int)
                        + rep@ + replace_from(s@, pat@, rep@, i + pat@.len()));
                    assert(r@ + replace_from(s@, pat@, rep@, i + pat@.len()) =~= before
                        + replace_from(s@, pat@, rep@, pos as int));
                }
                pos = i + pat.len();
            },
            None => {
                let piece = slice_chars(s, pos, s.len());
                push_all(&mut r, &piece);
                return r;
            },
        }
    }
}

/// The value of an unsigned decimal text, as `u32::from_str` reads it: an
/// optional `+` and at least one ASCII digit; `None` when the value does not fit.
pub open spec fn parse_u32(s: Seq<char>) -> Option<u32> {
    let d = unsigned_part(s);
    if d.len() > 0 && all_digits(d) && digits_value(d) <= u32::MAX {
        Some(digits_value(d) as u32)
    } else {
        None
    }
}

/// The text after an optional leading `+`.
pub open spec fn unsigned_part(s: Seq<char>) -> Seq<char> {
    if s.len() > 0 && s[0] == '+' {
        s.drop_first()
    } else {
        s
    }
}

pub open spec fn all_digits(d: Seq<char>) -> bool {
    forall|i: int| 0 <= i < d.len() ==> is_digit(#[trigger] d[i])
}

/// The value of a text of ASCII digits.
pub open spec fn digits_value(d: Seq<char>) -> nat
    decreases d.len(),
{
    if d.len() == 0 {
        0
    } else {
        digits_value(d.drop_last()) * 10 + (d.last() as nat - 48) as nat
    }
}

pub fn parse_u32_exec(s: &Vec<char>) -> (r: Option<u32>)
    ensures
        r == parse_u32(s@),
{
    let start: usize = if s.len() > 0 && s[0] == '+' {
        1
    } else {
        0
    };
    let ghost d = unsigned_part(s@);
    proof {
        assert(d == s@.subrange(start as int, s@.len() as int));
    }
    if start >= s.len() {
        return None;
    }
    let mut value: u64 = 0;
    let mut k: usize = start;
    while k < s.len()
        invariant
            start <= k <= s.len(),
            d == unsigned_part(s@),
            d == s@.subrange(start as int, s@.len() as int),
            forall|i: int| start <= i < k ==> is_digit(#[trigger] s@[i]),
            value == digits_value(s@.subrange(start as int, k as int)),
            value <= u32::MAX,
        decreases s.len() - k,
    {
        let c = s[k];
        if !('0' <= c && c <= '9') {
            proof {
                assert(d[k - start] == c);
                assert(!is_digit(d[k - start]));
                assert(!all_digits(d));
                assert(d == unsigned_part(s@));
                assert(parse_u32(s@) is None);
            }
            return None;
        }
        proof {
            let pre = s@.subrange(start as int, k + 1);
            assert(pre.drop_last() == s@.subrange(start as int, k as int));
            assert(pre.last() == c);
        }
        let digit = (c as u32 - 48) as u64;
        let next = value * 10 + digit;
        if next > 4294967295u64 {
            proof {
                // Further digits never lower the value.
                assert(digits_value(s@.subrange(start as int, k + 1)) == next);
                lemma_digits_value_suffix(s@, start as int, k + 1);
                if all_digits(d) {
                    assert forall|i: int| start <= i < s@.len() implies is_digit(#[trigger] s@[i]) by {
                        assert(s@[i] == d[i - start]);
                    }
                    assert(digits_value(d) > u32::MAX);
                }
                assert(d == unsigned_part(s@));
                assert(parse_u32(s@) is None);
            }
            return None;
        }
        value = next;
        k = k + 1;
    }
    proof {
        assert(s@.subrange(start as int, s@.len() as int) == d);
        assert forall|i: int| 0 <= i < d.len() implies is_digit(#[trigger] d[i]) by {
            assert(d[i] == s@[start + i]);
        }
    }
    Some(value as u32)
}

/// Digits appended to a text of digits never lower its value.
pub proof fn lemma_digits_value_suffix(s: Seq<char>, start: int, k: int)
    requires
        0 <= start <= k <= s.len(),
    ensures
        (forall|i: int| start <= i < s.len() ==> is_digit(#[trigger] s[i])) ==> digits_value(
            s.subrange(start, s.len() as int),
        ) >= digits_value(s.subrange(start, k)),
    decreases s.len() - k,
{
    if k < s.len() {
        lemma_digits_value_suffix(s, start, k + 1);
        if forall|i: int| start <= i < s.len() ==> is_digit(#[trigger] s[i]) {
            let pre = s.subrange(start, k + 1);
            assert(pre.drop_last() == s.subrange(start, k));
        }
    } else {
        assert(s.subrange(start, k) == s.subrange(start, s.len() as int));
    }
}

/// Appends the characters of `s` to `r`.
pub fn push_str(r: &mut Vec<char>, s: &str)
    ensures
        final(r)@ == old(r)@ + s@,
{
    let c = chars_of(s);
    push_all(r, &c);
}

/// The pieces of `s` from `start` on, cut at every occurrence of `sep`
/// (`str::split` with a text pattern).
pub open spec fn split_text_from(s: Seq<char>, sep: Seq<char>, start: int) -> Seq<Seq<char>>
    decreases s.len() + 1 - start,
{
    if start < 0 || start > s.len() || sep.len() == 0 {
        Seq::empty()
    } else {
        match find_from(s, sep, start) {
            Some(i) => if start <= i && i + sep.len() <= s.len() {
                seq![s.subrange(start, i)] + split_text_from(s, sep, i + sep.len())
            } else {
                Seq::empty()
            },
            None => seq![s.subrange(start, s.len() as int)],
        }
    }
}

/// Splitting always gives at least one piece.
pub proof fn lemma_split_text_nonempty(s: Seq<char>, sep: Seq<char>, start: int)
    requires
        0 <= start <= s.len(),
        sep.len() > 0,
    ensures
        split_text_from(s, sep, start).len() >= 1,
{
    lemma_find_from(s, sep, start);
}

pub fn split_text_exec(s: &Vec<char>, sep: &Vec<char>) -> (r: Vec<Vec<char>>)
    requires
        sep.len() > 0,
    ensures
        views(r@) == split_text_from(s@, sep@, 0),
{
    let mut r: Vec<Vec<char>> = Vec::new();
    let mut start: usize = 0;
    loop
        invariant
            start <= s.len(),
            sep.len() > 0,
            views(r@) + split_text_from(s@, sep@, start as int) == split_text_from(s@, sep@, 0),
        decreases s.len() - start,
    {
        let found = find_from_exec(s, sep, start);
        proof {
            lemma_find_from(s@, sep@, start as int);
        }
        match found {
            Some(i) => {
                let piece = slice_chars(s, start, i);
                let ghost before = r@;
                r.push(piece);
                proof {
                    assert(views(r@) =~= views(before).push(s@.subrange(start as int, i as int)));
                    assert(split_text_from(s@, sep@, start as int) == seq![
                        s@.subrange(start as int, i as int),
                    ] + split_text_from(s@, sep@, i + sep@.len()));
                    assert(views(r@) + split_text_from(s@, sep@, i + sep@.len()) =~= views(before)
                        + split_text_from(s@, sep@, start as int));
                }
                start = i + sep.len();
            },
            None => {
                let piece = slice_chars(s, start, s.len());
                let ghost before = r@;
                r.push(piece);
                proof {
                    assert(views(r@) =~= views(before).push(
                        s@.subrange(start as int, s@.len() as int),
                    ));
                    assert(views(r@) =~= views(before) + split_text_from(s@, sep@, start as int));
                }
                return r;
            },
        }
    }
}

/// The text of an optional string, empty when there is none.
pub open spec fn text_or_empty(o: Option<String>) -> Seq<char> {
    match o {
        Some(s) => s@,
        None => Seq::empty(),
    }
}

pub fn text_or_empty_exec(o: &Option<String>) -> (r: Vec<char>)
    ensures
        r@ == text_or_empty(*o),
{
    match o {
        Some(s) => chars_of(s.as_str()),
        None => Vec::new(),
    }
}

} // verus!
