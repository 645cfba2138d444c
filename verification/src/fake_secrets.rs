//! What counts as a fake secret: placeholder values in configmaps and
//! non-secret keys in secrets files.

use vstd::prelude::*;

use crate::changes::only_xs;
use crate::context::has_string;
use crate::model::FileKind;
use crate::parser::{strings_view, ParsedPair};
use crate::regexp::{captures, groups_view, is_match, regex_captures, regex_is_match, regex_valid};
use crate::text::{chars_of, eq_chars, string_of, trim, trim_s};

verus! {

/// The Unicode lowercase of a text (`str::to_lowercase`).
pub uninterp spec fn unicode_lower(s: Seq<char>) -> Seq<char>;

/// `str::to_lowercase`. Trusted: the result is the std function's value
/// for this text.
#[verifier::external_body]
fn to_lowercase(s: &str) -> (r: String)
    ensures
        r@ == unicode_lower(s@),
{
    s.to_lowercase()
}

/// The words taken as placeholders, in lowercase.
pub open spec fn placeholder_word(l: Seq<char>) -> bool {
    l == "changeme"@ || l == "change_me"@ || l == "change-me"@ || l == "placeholder"@ || l
        == "dummy"@ || l == "test"@ || l == "example"@ || l == "fake"@ || l == "secret"@
}

/// A placeholder value: blank, three or more `x`/`X`, or a placeholder
/// word in any case, once trimmed.
pub open spec fn placeholder_s(v: Seq<char>) -> bool {
    let t = trim_s(v);
    t.len() == 0 || (t.len() >= 3 && only_xs(t)) || placeholder_word(unicode_lower(t))
}

/// Whether a value looks like a placeholder (`xxx`, `changeme`,
/// `placeholder`, ...), ignoring case and surrounding whitespace.
pub fn is_placeholder(value: &str) -> (r: bool)
    ensures
        r == placeholder_s(value@),
{
    let t = trim(&chars_of(value));
    if t.len() == 0 {
        return true;
    }
    let ts = string_of(&t);
    let lower = chars_of(to_lowercase(ts.as_str()).as_str());
    if t.len() >= 3 {
        let mut all_x = true;
        let mut i: usize = 0;
        while i < t.len()
            invariant
                i <= t.len(),
                all_x == forall|j: int| 0 <= j < i ==> #[trigger] t@[j] == 'x' || t@[j] == 'X',
            decreases t.len() - i,
        {
            if t[i] != 'x' && t[i] != 'X' {
                all_x = false;
            }
            i = i + 1;
        }
        if all_x {
            return true;
        }
    }
    eq_chars(&lower, &chars_of("changeme")) || eq_chars(&lower, &chars_of("change_me")) || eq_chars(
        &lower,
        &chars_of("change-me"),
    ) || eq_chars(&lower, &chars_of("placeholder")) || eq_chars(&lower, &chars_of("dummy"))
        || eq_chars(&lower, &chars_of("test")) || eq_chars(&lower, &chars_of("example")) || eq_chars(
        &lower,
        &chars_of("fake"),
    ) || eq_chars(&lower, &chars_of("secret"))
}

/// The naming pattern of secret keys (`DB_PASSWORD`, `API_KEY`, ...).
pub open spec fn secret_key_pattern_s() -> Seq<char> {
    "(?m)^[A-Za-z0-9_][A-Z0-9_]+_(?:KEY|PASSWORD|SECRET|TOKEN|ID|USERNAME)$"@
}

/// The pattern of `KEY=value` / `KEY: value` lines: group 1 is the key,
/// group 2 a YAML value, group 3 a dotenv value.
pub open spec fn key_value_pattern_s() -> Seq<char> {
    "(?m)^\\s*(?:export\\s+)?([A-Za-z0-9_][A-Za-z0-9_]+)[^\\S\\n]*(?::\\s*(.+)|=[^\\S\\n]*(.*))$"@
}

/// The naming pattern of secret keys.
pub fn secret_key_pattern() -> (r: &'static str)
    ensures
        r@ == secret_key_pattern_s(),
{
    "(?m)^[A-Za-z0-9_][A-Z0-9_]+_(?:KEY|PASSWORD|SECRET|TOKEN|ID|USERNAME)$"
}

/// The pattern of key/value lines in dotenv or YAML text.
pub fn key_value_pattern() -> (r: &'static str)
    ensures
        r@ == key_value_pattern_s(),
{
    "(?m)^\\s*(?:export\\s+)?([A-Za-z0-9_][A-Za-z0-9_]+)[^\\S\\n]*(?::\\s*(.+)|=[^\\S\\n]*(.*))$"
}

/// Whether a key follows the secret naming pattern.
pub fn is_secret_key_name(key: &str) -> (r: bool)
    ensures
        regex_valid(secret_key_pattern_s()) ==> r == regex_is_match(secret_key_pattern_s(), key@),
{
    match is_match(secret_key_pattern(), key) {
        Some(b) => b,
        None => false,
    }
}

/// The pair a key/value match gives: the key, and the dotenv value, else the
/// YAML value, trimmed.
pub open spec fn capture_pair(g: (Option<Seq<char>>, Option<Seq<char>>, Option<Seq<char>>)) -> (Seq<char>, Seq<char>) {
    (
        match g.0 { Some(k) => k, None => seq![] },
        match g.2 {
            Some(v) => trim_s(v),
            None => match g.1 { Some(v) => trim_s(v), None => seq![] },
        },
    )
}

/// The key/value pairs of every key/value line in `content`, found with the
/// key/value pattern (the way configmaps are scanned).
pub fn key_value_pairs(content: &str) -> (r: Vec<ParsedPair>)
    ensures
        regex_valid(key_value_pattern_s()) ==> crate::parser::pairs_view(r@) == regex_captures(
            key_value_pattern_s(),
            content@,
        ).map_values(|g: (Option<Seq<char>>, Option<Seq<char>>, Option<Seq<char>>)| capture_pair(g)),
        !regex_valid(key_value_pattern_s()) ==> r@.len() == 0,
{
    let caps = match captures(key_value_pattern(), content) {
        Some(c) => c,
        None => {
            return Vec::new();
        },
    };
    let ghost gv = groups_view(caps@);
    let mut out: Vec<ParsedPair> = Vec::new();
    let mut i: usize = 0;
    while i < caps.len()
        invariant
            i <= caps.len(),
            gv == groups_view(caps@),
            crate::parser::pairs_view(out@) == gv.take(i as int).map_values(
                |g: (Option<Seq<char>>, Option<Seq<char>>, Option<Seq<char>>)| capture_pair(g),
            ),
        decreases caps.len() - i,
    {
        let c = &caps[i];
        let key = match &c.0 {
            Some(k) => k.clone(),
            None => String::new(),
        };
        let value = match &c.2 {
            Some(v) => string_of(&trim(&chars_of(v.as_str()))),
            None => match &c.1 {
                Some(v) => string_of(&trim(&chars_of(v.as_str()))),
                None => String::new(),
            },
        };
        let p = ParsedPair { key, value };
        let ghost before = out@;
        out.push(p);
        assert(crate::parser::pairs_view(out@) =~= crate::parser::pairs_view(before).push(p@));
        assert(gv.take(i + 1) =~= gv.take(i as int).push(gv[i as int]));
        assert(p@ == capture_pair(gv[i as int]));
        i = i + 1;
    }
    assert(gv.take(caps.len() as int) =~= gv);
    out
}

/// Whether a key is treated as a secret: by its name, or listed among the
/// service's special secret keys.
pub open spec fn secret_key_s(key: Seq<char>, special: Seq<Seq<char>>) -> bool {
    regex_is_match(secret_key_pattern_s(), key) || special.contains(key)
}

/// Whether a key of a file of `kind` is reported: in a configmap, a
/// non-secret key with a placeholder value (secret keys are the leaks
/// check's); in a secrets file, any non-secret key.
pub open spec fn detected_s(kind: FileKind, key: Seq<char>, value: Seq<char>, special: Seq<Seq<char>>) -> bool {
    match kind {
        FileKind::ConfigMap => !secret_key_s(key, special) && placeholder_s(value),
        FileKind::Secret => !secret_key_s(key, special),
        _ => false,
    }
}

/// Whether a key/value of a file of `kind` is a fake secret.
pub fn is_detected(kind: FileKind, key: &str, value: &str, special: &Vec<String>) -> (r: bool)
    ensures
        regex_valid(secret_key_pattern_s()) ==> r == detected_s(kind, key@, value@, strings_view(special@)),
{
    let secret = is_secret_key_name(key) || has_string(special, key);
    match kind {
        FileKind::ConfigMap => !secret && is_placeholder(value),
        FileKind::Secret => !secret,
        _ => false,
    }
}

} // verus!
