//! Building request addresses: base addresses without trailing slashes and
//! percent-encoded query values.
use vstd::prelude::*;
use crate::text::{CharClass, chars_of, run_start, scan_run_back, slice_chars};

verus! {

/// The bytes that percent-encoding leaves as they are: ASCII letters and
/// digits, `-`, `.`, `_` and `~`.
pub open spec fn is_unreserved(b: u8) -> bool {
    ||| (48 <= b && b <= 57)
    ||| (65 <= b && b <= 90)
    ||| (97 <= b && b <= 122)
    ||| b == 45
    ||| b == 46
    ||| b == 95
    ||| b == 126
}

/// The upper-case hexadecimal digit of `d < 16`.
pub open spec fn hex_digit(d: u8) -> char {
    if d < 10 {
        (48 + d) as char
    } else {
        (55 + d) as char
    }
}

/// Percent-encoding of a byte string: unreserved bytes as themselves, every
/// other byte as `%` and two upper-case hexadecimal digits.
pub open spec fn percent_encode(bytes: Seq<u8>) -> Seq<char>
    decreases bytes.len(),
{
    if bytes.len() == 0 {
        Seq::empty()
    } else {
        let b = bytes.last();
        percent_encode(bytes.drop_last()) + if is_unreserved(b) {
            seq![b as char]
        } else {
            seq!['%', hex_digit(b / 16), hex_digit(b % 16)]
        }
    }
}

/// Calls `urlencoding::encode`, which percent-encodes the UTF-8 bytes of the
/// text, leaving ASCII letters, digits, `-`, `.`, `_` and `~` as they are and
/// writing every other byte as `%` with two upper-case hexadecimal digits.
#[verifier::external_body]
pub(crate) fn url_encode(s: &str) -> (r: String)
    ensures
        r@ == percent_encode(vstd::utf8::encode_utf8(s@)),
{
    urlencoding::encode(s).into_owned()
}

/// The address without its trailing slashes (`str::trim_end_matches('/')`).
pub open spec fn without_trailing_slashes(s: Seq<char>) -> Seq<char> {
    s.subrange(0, run_start(s, s.len() as int, CharClass::Slash))
}

pub fn without_trailing_slashes_exec(s: &str) -> (r: Vec<char>)
    ensures
        r@ == without_trailing_slashes(s@),
{
    let v = chars_of(s);
    let end = scan_run_back(&v, v.len(), CharClass::Slash);
    slice_chars(&v, 0, end)
}

} // verus!
