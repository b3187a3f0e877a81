//! Matching with the `regex` crate, for the few patterns that rely on the
//! Unicode character classes it knows (`\d` is any decimal digit of Unicode,
//! general category Nd).
use vstd::prelude::*;

verus! {

/// What `regex` captures in the first group of the leftmost match of `pattern`
/// in `text`; `None` when the pattern does not match or the group takes no part.
pub uninterp spec fn first_group(pattern: Seq<char>, text: Seq<char>) -> Option<Seq<char>>;

/// Compiles `pattern` with `regex::Regex::new` and answers the first group of
/// `Regex::captures` on `text`. The result is named `first_group`. A pattern
/// that does not compile gives `None`; the callers of this crate pass patterns
/// that compile.
#[verifier::external_body]
pub(crate) fn capture_first_group(pattern: &str, text: &str) -> (r: Option<String>)
    ensures
        match r {
            Some(g) => first_group(pattern@, text@) == Some(g@),
            None => first_group(pattern@, text@) is None,
        },
{
    match regex::Regex::new(pattern) {
        Ok(re) => re.captures(text).and_then(|cap| cap.get(1)).map(|m| m.as_str().to_string()),
        Err(_) => None,
    }
}

} // verus!
