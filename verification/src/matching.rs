//! Regular-expression matching, done by the `regex` crate.

use vstd::prelude::*;

verus! {

/// Whether `regex::Regex::new` accepts `pattern`.
pub uninterp spec fn regex_compiles(pattern: Seq<char>) -> bool;

/// What `regex::Regex::is_match` reports for the expression compiled from
/// `pattern` and the haystack `text`.
pub uninterp spec fn regex_is_match(pattern: Seq<char>, text: Seq<char>) -> bool;

/// The text of the error `regex::Regex::new` gives for `pattern`.
pub uninterp spec fn regex_error_text(pattern: Seq<char>) -> Seq<char>;

/// Compiles `pattern` with `regex::Regex::new` and, when it compiles, asks
/// `regex::Regex::is_match` whether it matches somewhere in `text`; when it
/// does not compile, returns the error's text. The outcome depends on the
/// pattern and the text alone; what the regex engine decides is left to the
/// names above.
#[verifier::external_body]
pub(crate) fn regex_match(pattern: &str, text: &str) -> (r: Result<bool, String>)
    ensures
        r is Ok <==> regex_compiles(pattern@),
        match r {
            Ok(b) => b == regex_is_match(pattern@, text@),
            Err(e) => e@ == regex_error_text(pattern@),
        },
{
    match regex::Regex::new(pattern) {
        Ok(re) => Ok(re.is_match(text)),
        Err(e) => Err(e.to_string()),
    }
}

} // verus!
