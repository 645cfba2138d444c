//! File parsing and formatting-preserving editing.
//!
//! Reading builds the search index; writing is line-oriented so comments,
//! ordering and formatting stay byte-identical outside the edited line. This
//! module picks the dotenv or YAML editor by file kind and holds what both
//! share: comment normalization and inline-comment extraction.

pub mod dotenv;
pub mod dotenv_laws;
pub mod yaml_laws;
pub mod yaml;
pub mod reorder;
pub mod numeric;

use vstd::prelude::*;

use crate::model::FileKind;
use crate::text::{
    chars_of, contains, contains_s, ends_with, ends_with_s, eq_chars, has_crlf_exec, lines_of,
    lines_view, newline_of, slice, split_lines, starts_with, starts_with_s, string_of, trim,
    trim_s, trim_start, trim_start_s,
};

verus! {

/// A parsed key/value pair read from a file.
#[derive(Debug, Clone, PartialEq, Eq)]
pub struct ParsedPair {
    pub key: String,
    pub value: String,
}

impl View for ParsedPair {
    type V = (Seq<char>, Seq<char>);

    open spec fn view(&self) -> (Seq<char>, Seq<char>) {
        (self.key@, self.value@)
    }
}

/// The view of a list of pairs.
pub open spec fn pairs_view(v: Seq<ParsedPair>) -> Seq<(Seq<char>, Seq<char>)> {
    v.map_values(|p: ParsedPair| p@)
}

/// A key and the comment attached to it in a file.
///
/// `comment` holds the attached lines joined with single spaces; `lines`
/// holds each normalized line on its own.
#[derive(Debug, Clone, PartialEq, Eq)]
pub struct ParsedComment {
    pub key: String,
    pub comment: String,
    pub lines: Vec<String>,
}

/// The view of a list of strings.
pub open spec fn strings_view(v: Seq<String>) -> Seq<Seq<char>> {
    v.map_values(|s: String| s@)
}

impl View for ParsedComment {
    type V = (Seq<char>, Seq<char>, Seq<Seq<char>>);

    open spec fn view(&self) -> (Seq<char>, Seq<char>, Seq<Seq<char>>) {
        (self.key@, self.comment@, strings_view(self.lines@))
    }
}

/// The view of a list of attached comments.
pub open spec fn comments_view(v: Seq<ParsedComment>) -> Seq<
    (Seq<char>, Seq<char>, Seq<Seq<char>>),
> {
    v.map_values(|c: ParsedComment| c@)
}

// ---------------------------------------------------------------------------
// File kinds
// ---------------------------------------------------------------------------

/// Whether a dotenv-looking name is an editor swap or backup artifact.
pub open spec fn is_temp_name(name: Seq<char>) -> bool {
    ||| ends_with_s(name, "~"@)
    ||| ends_with_s(name, ".swp"@)
    ||| ends_with_s(name, ".swo"@)
    ||| ends_with_s(name, ".bak"@)
    ||| ends_with_s(name, ".tmp"@)
}

/// Whether a name has one of the YAML endings.
pub open spec fn is_yaml_name(name: Seq<char>) -> bool {
    ||| ends_with_s(name, ".yml"@)
    ||| ends_with_s(name, ".yaml"@)
    ||| ends_with_s(name, ".yml.example"@)
    ||| ends_with_s(name, ".yaml.example"@)
}

/// The kind of a file, from its name, or `None` for files that are not
/// managed.
pub open spec fn kind_of_name(name: Seq<char>) -> Option<FileKind> {
    if name == ".env"@ || starts_with_s(name, ".env."@) {
        if is_temp_name(name) {
            None
        } else if contains_s(name, ".example"@) {
            Some(FileKind::DotenvExample)
        } else {
            Some(FileKind::Dotenv)
        }
    } else if is_yaml_name(name) {
        if starts_with_s(name, "configmap"@) {
            Some(FileKind::ConfigMap)
        } else if starts_with_s(name, "secret"@) {
            Some(FileKind::Secret)
        } else {
            None
        }
    } else {
        None
    }
}

/// Detect the [`FileKind`] of a file from its name (the last component of
/// its path). Returns `None` for files that are not managed.
pub fn detect_kind(name: &str) -> (r: Option<FileKind>)
    ensures
        r == kind_of_name(name@),
{
    let n = chars_of(name);
    let env = chars_of(".env");
    if eq_chars(&n, &env) || starts_with(&n, chars_of(".env.").as_slice()) {
        if ends_with(&n, chars_of("~").as_slice()) || ends_with(&n, chars_of(".swp").as_slice())
            || ends_with(&n, chars_of(".swo").as_slice()) || ends_with(
            &n,
            chars_of(".bak").as_slice(),
        ) || ends_with(&n, chars_of(".tmp").as_slice()) {
            return None;
        }
        if contains(&n, chars_of(".example").as_slice()) {
            return Some(FileKind::DotenvExample);
        }
        return Some(FileKind::Dotenv);
    }
    let is_yaml = ends_with(&n, chars_of(".yml").as_slice()) || ends_with(
        &n,
        chars_of(".yaml").as_slice(),
    ) || ends_with(&n, chars_of(".yml.example").as_slice()) || ends_with(
        &n,
        chars_of(".yaml.example").as_slice(),
    );
    if is_yaml {
        if starts_with(&n, chars_of("configmap").as_slice()) {
            return Some(FileKind::ConfigMap);
        }
        if starts_with(&n, chars_of("secret").as_slice()) {
            return Some(FileKind::Secret);
        }
    }
    None
}

// ---------------------------------------------------------------------------
// Comments
// ---------------------------------------------------------------------------

/// Drop every leading `'#'`.
pub open spec fn drop_hashes(s: Seq<char>) -> Seq<char>
    decreases s.len(),
{
    if s.len() > 0 && s[0] == '#' {
        drop_hashes(s.drop_first())
    } else {
        s
    }
}

/// A full-line comment as comparable text: indentation, all leading `'#'`
/// markers and surrounding whitespace removed.
pub open spec fn comment_text_s(line: Seq<char>) -> Seq<char> {
    trim_s(drop_hashes(trim_start_s(line)))
}

/// Whether a `'#'` at index `i` may open an inline comment: it is first or
/// follows a space or tab.
pub open spec fn hash_opens(s: Seq<char>, i: int) -> bool {
    i == 0 || s[i - 1] == ' ' || s[i - 1] == '\t'
}

/// The scan for an unquoted inline `# comment` from index `i`, with the
/// quote state so far. Returns the index of the opening `'#'`, or `None`.
pub open spec fn inline_hash_from(s: Seq<char>, i: int, sq: bool, dq: bool) -> Option<int>
    decreases s.len() - i,
{
    if i < 0 || i >= s.len() {
        None
    } else if s[i] == '\'' && !dq {
        inline_hash_from(s, i + 1, !sq, dq)
    } else if s[i] == '"' && !sq {
        inline_hash_from(s, i + 1, sq, !dq)
    } else if s[i] == '#' && !sq && !dq && hash_opens(s, i) {
        Some(i)
    } else {
        inline_hash_from(s, i + 1, sq, dq)
    }
}

/// Index of the `'#'` opening an unquoted inline comment in `s`.
pub open spec fn inline_hash(s: Seq<char>) -> Option<int> {
    inline_hash_from(s, 0, false, false)
}

/// The text of the trailing `# comment` of a line, if it is non-empty.
pub open spec fn inline_comment_s(line: Seq<char>) -> Option<Seq<char>> {
    match inline_hash(line) {
        Some(i) => {
            let t = trim_s(line.skip(i + 1));
            if t.len() == 0 {
                None
            } else {
                Some(t)
            }
        },
        None => None,
    }
}

/// Every comment of a file, in order: full-line comments normalized, then
/// the inline comments of other lines.
pub open spec fn all_comments_s(ls: Seq<Seq<char>>) -> Seq<Seq<char>>
    decreases ls.len(),
{
    if ls.len() == 0 {
        seq![]
    } else {
        let acc = all_comments_s(ls.drop_last());
        let line = ls.last();
        let t = trim_start_s(line);
        if t.len() == 0 {
            acc
        } else if t[0] == '#' {
            acc.push(comment_text_s(line))
        } else {
            match inline_comment_s(line) {
                Some(x) => acc.push(x),
                None => acc,
            }
        }
    }
}

pub proof fn lemma_inline_hash_range(s: Seq<char>, i: int, sq: bool, dq: bool)
    requires
        0 <= i,
    ensures
        inline_hash_from(s, i, sq, dq) matches Some(k) ==> i <= k < s.len() && s[k] == '#',
    decreases s.len() - i,
{
    if 0 <= i < s.len() {
        lemma_inline_hash_range(s, i + 1, !sq, dq);
        lemma_inline_hash_range(s, i + 1, sq, !dq);
        lemma_inline_hash_range(s, i + 1, sq, dq);
    }
}

/// Index of the `'#'` opening the unquoted inline comment of `v`.
pub fn find_inline_hash(v: &Vec<char>) -> (r: Option<usize>)
    ensures
        r matches Some(k) ==> inline_hash(v@) == Some(k as int) && k < v.len(),
        r is None ==> inline_hash(v@) is None,
{
    let mut sq = false;
    let mut dq = false;
    let mut i: usize = 0;
    while i < v.len()
        invariant
            i <= v.len(),
            inline_hash(v@) == inline_hash_from(v@, i as int, sq, dq),
        decreases v.len() - i,
    {
        let c = v[i];
        if c == '\'' && !dq {
            sq = !sq;
        } else if c == '"' && !sq {
            dq = !dq;
        } else if c == '#' && !sq && !dq && (i == 0 || v[i - 1] == ' ' || v[i - 1] == '\t') {
            return Some(i);
        }
        i = i + 1;
    }
    None
}

/// Normalize a full-line comment into comparable text.
pub fn comment_text(line: &Vec<char>) -> (out: Vec<char>)
    ensures
        out@ == comment_text_s(line@),
{
    let t = trim_start(line);
    let mut i: usize = 0;
    assert(t@.skip(0) =~= t@);
    while i < t.len() && t[i] == '#'
        invariant
            i <= t.len(),
            drop_hashes(t@) == drop_hashes(t@.skip(i as int)),
        decreases t.len() - i,
    {
        assert(t@.skip(i as int).drop_first() =~= t@.skip(i + 1));
        i = i + 1;
    }
    let rest = slice(&t, i, t.len());
    assert(rest@ =~= t@.skip(i as int));
    trim(&rest)
}

/// The trailing `# comment` text of a line, if any. The `'#'` must follow
/// whitespace (or start the line) and stand outside quotes.
pub fn inline_comment_text(line: &Vec<char>) -> (r: Option<Vec<char>>)
    ensures
        r matches Some(t) ==> inline_comment_s(line@) == Some(t@),
        r is None ==> inline_comment_s(line@) is None,
{
    proof {
        lemma_inline_hash_range(line@, 0, false, false);
    }
    match find_inline_hash(line) {
        Some(i) => {
            let rest = slice(line, i + 1, line.len());
            assert(rest@ =~= line@.skip(i + 1));
            let t = trim(&rest);
            if t.len() == 0 {
                None
            } else {
                Some(t)
            }
        },
        None => None,
    }
}

/// The strings of a list of character vectors.
pub fn to_strings(v: &Vec<Vec<char>>) -> (out: Vec<String>)
    ensures
        strings_view(out@) == lines_view(v@),
{
    let mut out: Vec<String> = Vec::new();
    let mut i: usize = 0;
    while i < v.len()
        invariant
            i <= v.len(),
            strings_view(out@) == lines_view(v@.take(i as int)),
        decreases v.len() - i,
    {
        let ghost before = out@;
        out.push(string_of(&v[i]));
        assert(strings_view(out@) =~= strings_view(before).push(v@[i as int]@));
        assert(lines_view(v@.take(i + 1)) =~= lines_view(v@.take(i as int)).push(v@[i as int]@));
        i = i + 1;
    }
    assert(v@.take(v@.len() as int) =~= v@);
    out
}

/// Parse every comment in `content` into comparable, normalized text, in
/// file order: full-line comments and the inline comments of value lines.
pub fn parse_comments(content: &str) -> (out: Vec<String>)
    ensures
        strings_view(out@) == all_comments_s(lines_of(content@)),
{
    let ls = split_lines(&chars_of(content));
    let mut acc: Vec<Vec<char>> = Vec::new();
    let mut i: usize = 0;
    while i < ls.len()
        invariant
            i <= ls.len(),
            lines_view(acc@) == all_comments_s(lines_view(ls@.take(i as int))),
        decreases ls.len() - i,
    {
        let line = &ls[i];
        let ghost before = acc@;
        assert(lines_view(ls@.take(i + 1)).drop_last() =~= lines_view(ls@.take(i as int)));
        let t = trim_start(line);
        if t.len() == 0 {
        } else if t[0] == '#' {
            acc.push(comment_text(line));
            assert(lines_view(acc@) =~= lines_view(before).push(comment_text_s(line@)));
        } else {
            match inline_comment_text(line) {
                Some(x) => {
                    acc.push(x);
                    assert(lines_view(acc@) =~= lines_view(before).push(x@));
                },
                None => {},
            }
        }
        i = i + 1;
    }
    assert(ls@.take(ls@.len() as int) =~= ls@);
    to_strings(&acc)
}

/// The line ending a file uses: `"\r\n"` if it contains one, else `"\n"`.
pub fn detect_newline(content: &str) -> (r: &'static str)
    ensures
        r@ == newline_of(content@),
{
    proof {
        reveal_strlit("\r\n");
        reveal_strlit("\n");
    }
    if has_crlf_exec(&chars_of(content)) {
        assert("\r\n"@ =~= seq!['\r', '\n']);
        "\r\n"
    } else {
        assert("\n"@ =~= seq!['\n']);
        "\n"
    }
}


// ---------------------------------------------------------------------------
// Dispatch by file kind
// ---------------------------------------------------------------------------

/// Whether a kind is read and written as YAML.
pub open spec fn yaml_kind(kind: FileKind) -> bool {
    kind == FileKind::ConfigMap || kind == FileKind::Secret
}

/// The pairs read from `content` of the given kind.
pub open spec fn parse_kind_s(content: Seq<char>, kind: FileKind) -> Seq<(Seq<char>, Seq<char>)> {
    if yaml_kind(kind) {
        yaml::parse_s(content)
    } else {
        dotenv::pairs_s(lines_of(content))
    }
}

/// The attached comments read from `content` of the given kind.
pub open spec fn attached_comments_s(content: Seq<char>, kind: FileKind) -> Seq<
    (Seq<char>, Seq<char>, Seq<Seq<char>>),
> {
    if yaml_kind(kind) {
        yaml::parse_comments_s(content)
    } else {
        dotenv::comment_state_s(lines_of(content)).1
    }
}

/// The content after setting `key` to `value` in a file of the given kind.
pub open spec fn set_kind_s(content: Seq<char>, kind: FileKind, key: Seq<char>, value: Seq<char>) -> Seq<char> {
    if yaml_kind(kind) {
        yaml::set_value_s(content, key, value)
    } else {
        dotenv::set_value_s(content, key, value)
    }
}

/// The content after removing `key` from a file of the given kind.
pub open spec fn remove_kind_s(content: Seq<char>, kind: FileKind, key: Seq<char>) -> Seq<char> {
    if yaml_kind(kind) {
        yaml::remove_key_s(content, key)
    } else {
        dotenv::remove_key_s(content, key)
    }
}

/// Parse the key/value pairs from file `content` of the given `kind`.
pub fn parse(content: &str, kind: FileKind) -> (out: Vec<ParsedPair>)
    ensures
        pairs_view(out@) == parse_kind_s(content@, kind),
{
    if kind.is_yaml() {
        yaml::parse(content)
    } else {
        dotenv::parse(content)
    }
}

/// Parse the comment attached to each key in `content` of the given kind.
/// Keys without a comment have no entry; commented-out assignments never
/// attach and break the comment block above a key.
pub fn parse_attached_comments(content: &str, kind: FileKind) -> (out: Vec<ParsedComment>)
    ensures
        comments_view(out@) == attached_comments_s(content@, kind),
{
    if kind.is_yaml() {
        yaml::parse_comments(content)
    } else {
        dotenv::parse_comments(content)
    }
}

/// New content with `key` set to `value`, creating the key if absent. Every
/// other line is kept as it was; nothing touches the disk.
pub fn set_value(content: &str, kind: FileKind, key: &str, value: &str) -> (out: String)
    ensures
        out@ == set_kind_s(content@, kind, key@, value@),
{
    if kind.is_yaml() {
        yaml::set_value(content, key, value)
    } else {
        dotenv::set_value(content, key, value)
    }
}

/// New content with `key` removed; content without the key comes back
/// unchanged.
pub fn remove_key(content: &str, kind: FileKind, key: &str) -> (out: String)
    ensures
        out@ == remove_kind_s(content@, kind, key@),
{
    if kind.is_yaml() {
        yaml::remove_key(content, key)
    } else {
        dotenv::remove_key(content, key)
    }
}

/// What a file of the given kind, just written with `key` set to `value`,
/// reads back as: the first pair that `parse` finds for the key holds the
/// value.
///
/// Holds for keys and values that a written line reads back as: in a dotenv
/// file a valid key and a value without line feed, double quote or
/// backslash; in YAML a key and value as `key_reads` and `value_reads` say,
/// and, outside a Kubernetes manifest, a non-empty value (the flat reader
/// keeps no empty top-level entry).
pub proof fn law_set_value_reads_back(content: Seq<char>, kind: FileKind, key: Seq<char>, value: Seq<char>)
    requires
        yaml_kind(kind) ==> yaml_laws::key_reads(key) && yaml_laws::value_reads(value) && (value.len() > 0
            || yaml::is_k8s_s(lines_of(content))),
        !yaml_kind(kind) ==> dotenv::valid_key_s(key) && dotenv_laws::plain_value(value),
    ensures
        dotenv_laws::lookup_s(parse_kind_s(set_kind_s(content, kind, key, value), kind), key) == Some(value),
{
    if yaml_kind(kind) {
        if yaml::is_k8s_s(lines_of(content)) {
            yaml_laws::law_yaml_k8s_set_parse_reads_back(content, key, value);
        } else {
            yaml_laws::law_yaml_flat_set_parse_reads_back(content, key, value);
        }
    } else {
        dotenv_laws::law_set_parse_reads_back(content, key, value);
    }
}

/// A value with no double quote, backslash or control character.
pub open spec fn printable_value(v: Seq<char>) -> bool {
    forall|i: int| 0 <= i < v.len() ==> #[trigger] v[i] != '"' && v[i] != '\\' && ' ' <= v[i] && v[i] != '\u{7f}'
}

/// No inline comment opens in a text where no `'#'` opens one.
proof fn lemma_no_inline_hash(v: Seq<char>, i: int, sq: bool, dq: bool)
    requires
        0 <= i,
        forall|j: int| 0 <= j < v.len() && v[j] == '#' ==> !hash_opens(v, j),
    ensures
        inline_hash_from(v, i, sq, dq) is None,
    decreases v.len() - i,
{
    if i < v.len() {
        if v[i] == '\'' && !dq {
            lemma_no_inline_hash(v, i + 1, !sq, dq);
        } else if v[i] == '"' && !sq {
            lemma_no_inline_hash(v, i + 1, sq, !dq);
        } else {
            lemma_no_inline_hash(v, i + 1, sq, dq);
        }
    }
}

/// In a key and its `": "`, the scan for the key colon stops at the colon
/// written after the key.
proof fn lemma_key_colon(k: Seq<char>, i: int)
    requires
        dotenv::valid_key_s(k),
        0 <= i <= k.len(),
    ensures
        yaml::colon_from(k + ": "@, i, false, false) == Some(k.len() as int),
    decreases k.len() - i,
{
    reveal_strlit(": ");
    let s = k + ": "@;
    if i < k.len() {
        assert(s[i] == k[i]);
        assert(s[i] != '\'' && s[i] != '"' && s[i] != ':');
        lemma_key_colon(k, i + 1);
    } else {
        assert(s[i] == ':' && s[i + 1] == ' ');
    }
}

/// Reading back a value just set, as `parse` reads the file, gives it for
/// every valid key and every non-empty value without double quote,
/// backslash or control character, in a file of any kind.
pub proof fn law_set_value_reads_back_plain(content: Seq<char>, kind: FileKind, key: Seq<char>, value: Seq<char>)
    requires
        dotenv::valid_key_s(key),
        value.len() > 0,
        printable_value(value),
    ensures
        dotenv_laws::lookup_s(parse_kind_s(set_kind_s(content, kind, key, value), kind), key) == Some(value),
{
    assert(crate::text::no_nl(key) && crate::text::no_nl(value)) by {
        assert forall|j: int| 0 <= j < key.len() implies key[j] != '\n' by {
            assert(dotenv::is_alnum(key[j]) || key[j] == '_' || key[j] == '.');
        }
    }
    assert(dotenv_laws::plain_value(value));
    if yaml_kind(kind) {
        reveal_strlit("- ");
        reveal_strlit(" #");
        assert(!crate::text::is_ws(key[0]));
        assert(!crate::text::is_ws(key.last())) by {
            assert(dotenv::is_alnum(key[key.len() - 1]) || key[key.len() - 1] == '_' || key[key.len() - 1] == '.');
        }
        assert(!starts_with_s(key, "- "@)) by {
            if starts_with_s(key, "- "@) {
                assert(key.take(2)[0] == '-');
            }
        }
        lemma_key_colon(key, 0);
        assert(yaml_laws::key_reads(key));
        if !yaml::scalar_needs_quote(value) {
            assert forall|j: int| 0 <= j < value.len() && value[j] == '#' implies !hash_opens(value, j) by {
                if j == 0 {
                    assert(yaml::special_start(value[0]));
                } else if value[j - 1] == ' ' {
                    assert(value.subrange(j - 1, j + 1) =~= " #"@);
                    assert(crate::text::occurs_at(value, " #"@, j - 1));
                } else {
                    assert(value[j - 1] != '\t');
                }
            }
            lemma_no_inline_hash(value, 0, false, false);
        }
        assert(yaml_laws::value_reads(value));
    }
    law_set_value_reads_back(content, kind, key, value);
}

/// Setting a key that `parse` already finds in a file of any kind rewrites
/// one line and keeps the others, and their number, as they were.
///
/// Holds whenever key and value hold no line feed.
pub proof fn law_set_value_present_key_keeps_lines(content: Seq<char>, kind: FileKind, key: Seq<char>, value: Seq<char>)
    requires
        crate::text::no_nl(key),
        crate::text::no_nl(value),
        dotenv_laws::lookup_s(parse_kind_s(content, kind), key) is Some,
    ensures
        lines_of(set_kind_s(content, kind, key, value)).len() == lines_of(content).len(),
        exists|i: int|
            0 <= i < lines_of(content).len() && lines_of(set_kind_s(content, kind, key, value)) == lines_of(
                content,
            ).update(i, lines_of(set_kind_s(content, kind, key, value))[i]),
{
    let ls = lines_of(content);
    let out = lines_of(set_kind_s(content, kind, key, value));
    if yaml_kind(kind) {
        yaml_laws::law_yaml_set_present_key_keeps_line_count(content, key, value);
    } else {
        dotenv_laws::law_set_present_key_keeps_line_count(content, key, value);
    }
    let i = choose|i: int| 0 <= i < ls.len() && out == ls.update(i, out[i]);
    assert(0 <= i < ls.len() && out == ls.update(i, out[i]));
}

} // verus!
