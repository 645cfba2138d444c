//! Regular expressions, as the `regex` crate compiles and runs them.

use vstd::prelude::*;

verus! {

/// Whether `regex::Regex::new` accepts `pattern`.
pub uninterp spec fn regex_valid(pattern: Seq<char>) -> bool;

/// Whether the compiled `pattern` matches somewhere in `text`
/// (`regex::Regex::is_match`).
pub uninterp spec fn regex_is_match(pattern: Seq<char>, text: Seq<char>) -> bool;

/// Groups 1 to 3 of each successive match of the compiled `pattern` in
/// `text` (`regex::Regex::captures_iter`), `None` for a group that did not
/// take part in a match.
pub uninterp spec fn regex_captures(pattern: Seq<char>, text: Seq<char>) -> Seq<(Option<Seq<char>>, Option<Seq<char>>, Option<Seq<char>>)>;

/// The view of captured groups.
pub open spec fn groups_view(v: Seq<(Option<String>, Option<String>, Option<String>)>) -> Seq<(Option<Seq<char>>, Option<Seq<char>>, Option<Seq<char>>)> {
    v.map_values(|g: (Option<String>, Option<String>, Option<String>)| (
        match g.0 { Some(s) => Some(s@), None => None },
        match g.1 { Some(s) => Some(s@), None => None },
        match g.2 { Some(s) => Some(s@), None => None },
    ))
}

/// Compiles `pattern` with `regex::Regex::new` and reports
/// `Regex::is_match` on `text`. Trusted: `Some` exactly when the pattern
/// compiles, holding the crate's answer for these two strings.
#[verifier::external_body]
pub(crate) fn is_match(pattern: &str, text: &str) -> (r: Option<bool>)
    ensures
        r is Some <==> regex_valid(pattern@),
        r matches Some(b) ==> b == regex_is_match(pattern@, text@),
{
    match regex::Regex::new(pattern) {
        Ok(re) => Some(re.is_match(text)),
        Err(_) => None,
    }
}

/// Compiles `pattern` with `regex::Regex::new` and collects groups 1 to 3 of
/// every match that `Regex::captures_iter` yields on `text`. Trusted:
/// `Some` exactly when the pattern compiles, holding the crate's captures
/// for these two strings, in order.
#[verifier::external_body]
pub(crate) fn captures(pattern: &str, text: &str) -> (r: Option<Vec<(Option<String>, Option<String>, Option<String>)>>)
    ensures
        r is Some <==> regex_valid(pattern@),
        r matches Some(v) ==> groups_view(v@) == regex_captures(pattern@, text@),
{
    match regex::Regex::new(pattern) {
        Ok(re) => Some(re.captures_iter(text).map(|c| (
            c.get(1).map(|m| m.as_str().to_owned()),
            c.get(2).map(|m| m.as_str().to_owned()),
            c.get(3).map(|m| m.as_str().to_owned()),
        )).collect()),
        Err(_) => None,
    }
}

} // verus!
