//! Shell-style glob patterns (`*`, `**`, `?`, `[...]`), as the `glob` crate
//! reads and matches them.

use vstd::prelude::*;

verus! {

/// Whether `glob::Pattern::new` accepts `pattern`.
pub uninterp spec fn glob_valid(pattern: Seq<char>) -> bool;

/// Whether the pattern compiled from `pattern` matches `text`
/// (`glob::Pattern::matches`).
pub uninterp spec fn glob_matches(pattern: Seq<char>, text: Seq<char>) -> bool;

/// Where and why a glob pattern was refused.
#[derive(Debug, Clone, PartialEq, Eq)]
pub struct GlobError {
    /// Approximate character index of the problem.
    pub pos: usize,
    /// What is wrong.
    pub msg: String,
}

/// Compiles `pattern` with `glob::Pattern::new` and, when it compiles,
/// matches `text` with `glob::Pattern::matches`. Trusted: `Ok` exactly
/// when the pattern compiles, and then the match result, both as the crate
/// computes them for these two strings; the error carries the crate's
/// position and message, of which nothing is stated.
#[verifier::external_body]
pub(crate) fn glob_match(pattern: &str, text: &str) -> (r: Result<bool, GlobError>)
    ensures
        r is Ok <==> glob_valid(pattern@),
        r matches Ok(b) ==> b == glob_matches(pattern@, text@),
{
    match glob::Pattern::new(pattern) {
        Ok(p) => Ok(p.matches(text)),
        Err(e) => Err(GlobError { pos: e.pos, msg: e.msg.to_string() }),
    }
}

} // verus!
