//! Matching texts against regular expressions, through the `regex` crate.

use vstd::prelude::*;

verus! {

/// What `regex::Regex::new(pattern)` followed by `is_match(text)` gives: `None` when the
/// pattern does not compile, else whether the expression matches somewhere in the text.
pub uninterp spec fn regex_is_match(pattern: Seq<char>, text: Seq<char>) -> Option<bool>;

/// Compiles `pattern` with `regex::Regex::new` and tests `text` with `Regex::is_match`.
/// The contract only names the outcome; nothing is claimed about which patterns compile or
/// what they match.
#[verifier::external_body]
pub(crate) fn regex_match(pattern: &str, text: &str) -> (r: Option<bool>)
    ensures
        r == regex_is_match(pattern@, text@),
{
    match regex::Regex::new(pattern) {
        Ok(re) => Some(re.is_match(text)),
        Err(_) => None,
    }
}

/// What `regex::Regex::new(pattern)` followed by `captures(text)` gives: `None` when the
/// pattern does not compile or does not match, else the text of each capture group by its
/// index (group 0 the whole match), `None` for a group that took no part in the match.
pub uninterp spec fn regex_captures_of(pattern: Seq<char>, text: Seq<char>) -> Option<Seq<Option<Seq<char>>>>;

/// Compiles `pattern` with `regex::Regex::new` and takes the first match in `text` with
/// `Regex::captures`, each group as an owned text. The contract only names the outcome.
#[verifier::external_body]
pub(crate) fn regex_captures(pattern: &str, text: &str) -> (r: Option<Vec<Option<String>>>)
    ensures
        r.deep_view() == regex_captures_of(pattern@, text@),
{
    let re = regex::Regex::new(pattern).ok()?;
    let caps = re.captures(text)?;
    Some(caps.iter().map(|m| m.map(|m| m.as_str().to_owned())).collect())
}

/// What `regex::Regex::new(pattern)` followed by `captures_iter(text)` gives: the groups of
/// each successive match, as for [`regex_captures_of`]; no match when the pattern does not
/// compile.
pub uninterp spec fn regex_all_captures_of(pattern: Seq<char>, text: Seq<char>) -> Seq<Seq<Option<Seq<char>>>>;

/// Compiles `pattern` with `regex::Regex::new` and walks the matches in `text` with
/// `Regex::captures_iter`, each group as an owned text. The contract only names the outcome.
#[verifier::external_body]
pub(crate) fn regex_all_captures(pattern: &str, text: &str) -> (r: Vec<Vec<Option<String>>>)
    ensures
        r.deep_view() == regex_all_captures_of(pattern@, text@),
{
    match regex::Regex::new(pattern) {
        Ok(re) => re.captures_iter(text).map(|c| c.iter().map(|m| m.map(|m| m.as_str().to_owned())).collect()).collect(),
        Err(_) => Vec::new(),
    }
}

/// What `regex::Regex::new(pattern)` followed by `find(text)` gives: `None` when the pattern
/// does not compile or does not match, else the text before the first match and the text
/// after it.
pub uninterp spec fn regex_split_of(pattern: Seq<char>, text: Seq<char>) -> Option<(Seq<char>, Seq<char>)>;

/// Compiles `pattern` with `regex::Regex::new`, finds the first match in `text` with
/// `Regex::find` and cuts `text` at its start and end. The contract only names the outcome.
#[verifier::external_body]
pub(crate) fn regex_split(pattern: &str, text: &str) -> (r: Option<(String, String)>)
    ensures
        r.deep_view() == regex_split_of(pattern@, text@),
{
    let re = regex::Regex::new(pattern).ok()?;
    let m = re.find(text)?;
    Some((text[..m.start()].to_owned(), text[m.end()..].to_owned()))
}

/// The pattern `^(?:<regex>)$`, which matches a text only as a whole.
pub open spec fn anchored(regex: Seq<char>) -> Seq<char> {
    "^(?:"@ + regex + ")$"@
}

/// `^(?:<regex>)$`.
pub fn anchor(regex: &str) -> (r: String)
    ensures
        r@ == anchored(regex@),
{
    crate::text::cat3("^(?:", regex, ")$")
}

} // verus!
