//! Quoting of strings as JSON text, which `serde_json` does.
use vstd::prelude::*;

verus! {

/// Names the text that `serde_json::to_string` writes for the string `s`: a JSON
/// string literal holding `s`, with `"`, `\` and control characters escaped.
pub uninterp spec fn json_quoted(s: Seq<char>) -> Seq<char>;

/// Calls `serde_json::to_string` on a string. Its source writes the string into memory,
/// which cannot fail, so the error arm (an empty text) is never taken; the contract
/// says that the text is `json_quoted` of the string and no more.
#[verifier::external_body]
pub(crate) fn json_quote(s: &str) -> (r: String)
    ensures
        r@ == json_quoted(s@),
{
    serde_json::to_string(s).unwrap_or_default()
}

} // verus!
