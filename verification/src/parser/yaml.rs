//! `configmap*.yml` / `secrets*.yml` parsing and indentation-aware editing.
//!
//! Two shapes are recognized: Kubernetes manifests, whose env keys live under
//! a top-level `data:` or `stringData:` block, and flat top-level mappings.
//! Values are raw strings. Edits rewrite or insert one line; everything else
//! is kept as it was.

use vstd::prelude::*;

use super::dotenv::{attach_s, escape, escape_s, unquote_s};
use super::numeric::{float_syntax, looks_numeric};
use super::{
    comment_text, comment_text_s, comments_view, find_inline_hash, inline_comment_text,
    inline_hash, lemma_inline_hash_range, pairs_view, strings_view, to_strings, ParsedComment,
    ParsedPair,
};
use crate::text::{
    append, chars_of, contains, contains_s, ends_with, ends_with_s, eq_chars, is_ws, is_ws_char,
    join, join_s, keeps_final_newline, keeps_final_newline_exec, lines_of, lines_view, lower,
    lower_s, newline_exec, newline_of, slice, split_lines, starts_with, starts_with_s, string_of,
    trim, trim_end, trim_end_s, trim_s, trim_start, trim_start_s, ws_prefix,
};

verus! {

// ---------------------------------------------------------------------------
// Specifications: reading
// ---------------------------------------------------------------------------

/// Indentation of a line, in characters.
pub open spec fn ind(l: Seq<char>) -> int {
    l.len() - trim_start_s(l).len()
}

/// Whether a line is empty or whitespace only.
pub open spec fn is_blank(l: Seq<char>) -> bool {
    trim_start_s(l).len() == 0
}

/// A line without its indentation and trailing whitespace.
pub open spec fn body_of(l: Seq<char>) -> Seq<char> {
    trim_end_s(trim_start_s(l))
}

/// Scan for the colon that separates a mapping key from its value, from
/// index `i` with the quote state so far: unquoted and followed by the end
/// of the text, a space or a tab.
pub open spec fn colon_from(s: Seq<char>, i: int, sq: bool, dq: bool) -> Option<int>
    decreases s.len() - i,
{
    if i < 0 || i >= s.len() {
        None
    } else if s[i] == '\'' && !dq {
        colon_from(s, i + 1, !sq, dq)
    } else if s[i] == '"' && !sq {
        colon_from(s, i + 1, sq, !dq)
    } else if s[i] == ':' && !sq && !dq && (i + 1 == s.len() || s[i + 1] == ' ' || s[i + 1]
        == '\t') {
        Some(i)
    } else {
        colon_from(s, i + 1, sq, dq)
    }
}

/// A scalar with an unquoted trailing `# comment` removed.
pub open spec fn strip_inline_s(v: Seq<char>) -> Seq<char> {
    match inline_hash(v) {
        Some(i) => trim_end_s(v.take(i)),
        None => v,
    }
}

/// A `key: value` mapping line as `(indent, key, value)`; comments, list
/// items, blanks and lines without a key colon give `None`.
pub open spec fn mapping_s(l: Seq<char>) -> Option<(int, Seq<char>, Seq<char>)> {
    let c = body_of(l);
    if c.len() == 0 || c[0] == '#' || starts_with_s(c, "- "@) {
        None
    } else {
        match colon_from(c, 0, false, false) {
            None => None,
            Some(k) => {
                let key = trim_s(c.take(k));
                if key.len() == 0 {
                    None
                } else {
                    Some((ind(l), key, unquote_s(strip_inline_s(trim_s(c.skip(k + 1))))))
                }
            },
        }
    }
}

/// Whether a line maps `key` (at any indentation).
pub open spec fn is_map_key(l: Seq<char>, key: Seq<char>) -> bool {
    mapping_s(l) matches Some((_, k, _)) && k == key
}

/// Whether a line is the top-level header `name:` of a block.
pub open spec fn is_header(l: Seq<char>, name: Seq<char>) -> bool {
    mapping_s(l) matches Some((i, k, v)) && i == 0 && k == name && v.len() == 0
}

/// The first index in `[i, end)` whose line satisfies `p`, or `end`.
pub open spec fn first_from(
    ls: Seq<Seq<char>>,
    p: spec_fn(Seq<char>) -> bool,
    i: int,
    end: int,
) -> int
    decreases end - i,
{
    if i < 0 || i >= end || i >= ls.len() {
        end
    } else if p(ls[i]) {
        i
    } else {
        first_from(ls, p, i + 1, end)
    }
}

/// The last index in `[a, b)` whose line satisfies `p`, or `dflt`.
pub open spec fn last_in(
    ls: Seq<Seq<char>>,
    p: spec_fn(Seq<char>) -> bool,
    a: int,
    b: int,
    dflt: int,
) -> int
    decreases b - a,
{
    if b <= a {
        dflt
    } else if p(ls[b - 1]) {
        b - 1
    } else {
        last_in(ls, p, a, b - 1, dflt)
    }
}

/// Index of the top-level block header `name:`, or the number of lines.
pub open spec fn find_block(ls: Seq<Seq<char>>, name: Seq<char>) -> int {
    first_from(ls, |l: Seq<char>| is_header(l, name), 0, ls.len() as int)
}

/// Whether a line ends the block whose header line is `h`: it is not blank
/// and indented no more than the header.
pub open spec fn ends_block(l: Seq<char>, h: Seq<char>) -> bool {
    !is_blank(l) && ind(l) <= ind(h)
}

/// One past the last line of the block starting at `start`.
pub open spec fn block_end(ls: Seq<Seq<char>>, start: int) -> int {
    first_from(ls, |l: Seq<char>| ends_block(l, ls[start]), start + 1, ls.len() as int)
}

/// The two block names, in order of preference.
pub open spec fn string_data() -> Seq<char> {
    "stringData"@
}

pub open spec fn data() -> Seq<char> {
    "data"@
}

/// Whether the document has the Kubernetes shape.
pub open spec fn is_k8s_s(ls: Seq<Seq<char>>) -> bool {
    find_block(ls, string_data()) < ls.len() || find_block(ls, data()) < ls.len()
}

/// `(key, value)` of every mapping line of `ls`, in order.
pub open spec fn mapping_pairs(ls: Seq<Seq<char>>) -> Seq<(Seq<char>, Seq<char>)>
    decreases ls.len(),
{
    if ls.len() == 0 {
        seq![]
    } else {
        mapping_pairs(ls.drop_last()) + match mapping_s(ls.last()) {
            Some((_, k, v)) => seq![(k, v)],
            None => seq![],
        }
    }
}

/// The scalar children of the block starting at `start`.
pub open spec fn block_children_s(ls: Seq<Seq<char>>, start: int) -> Seq<(Seq<char>, Seq<char>)> {
    mapping_pairs(ls.subrange(start + 1, block_end(ls, start)))
}

/// The children of block `name`, or nothing when it is absent.
pub open spec fn block_pairs_s(ls: Seq<Seq<char>>, name: Seq<char>) -> Seq<(Seq<char>, Seq<char>)> {
    let s = find_block(ls, name);
    if s < ls.len() {
        block_children_s(ls, s)
    } else {
        seq![]
    }
}

/// Every non-empty top-level `key: value` entry, in order.
pub open spec fn flat_pairs_s(ls: Seq<Seq<char>>) -> Seq<(Seq<char>, Seq<char>)>
    decreases ls.len(),
{
    if ls.len() == 0 {
        seq![]
    } else {
        flat_pairs_s(ls.drop_last()) + match mapping_s(ls.last()) {
            Some((i, k, v)) => if i == 0 && v.len() > 0 {
                seq![(k, v)]
            } else {
                seq![]
            },
            None => seq![],
        }
    }
}

/// The env keys of YAML content: the children of `stringData:` then of
/// `data:` for a manifest, else the non-empty top-level entries.
pub open spec fn parse_s(content: Seq<char>) -> Seq<(Seq<char>, Seq<char>)> {
    let ls = lines_of(content);
    if is_k8s_s(ls) {
        block_pairs_s(ls, string_data()) + block_pairs_s(ls, data())
    } else {
        flat_pairs_s(ls)
    }
}

/// Comment state type: pending prose lines and attached comments.
pub type CommentState = (Seq<Seq<char>>, Seq<(Seq<char>, Seq<char>, Seq<Seq<char>>)>);

/// Attachment of comments to top-level keys of a flat mapping.
pub open spec fn flat_comment_state(ls: Seq<Seq<char>>) -> CommentState
    decreases ls.len(),
{
    if ls.len() == 0 {
        (seq![], seq![])
    } else {
        let (p, o) = flat_comment_state(ls.drop_last());
        let line = ls.last();
        let t = trim_start_s(line);
        if t.len() == 0 {
            (seq![], o)
        } else if t[0] == '#' {
            if ind(line) == 0 {
                let text = comment_text_s(line);
                if mapping_s(text) is Some {
                    (seq![], o)
                } else {
                    (p.push(text), o)
                }
            } else {
                (seq![], o)
            }
        } else {
            match mapping_s(line) {
                Some((i, k, v)) => if i == 0 && v.len() > 0 {
                    (seq![], attach_s(o, k, p, line))
                } else {
                    (seq![], o)
                },
                None => (seq![], o),
            }
        }
    }
}

/// Attachment of comments to the children of a block (its lines only).
pub open spec fn block_comment_state(ls: Seq<Seq<char>>) -> CommentState
    decreases ls.len(),
{
    if ls.len() == 0 {
        (seq![], seq![])
    } else {
        let (p, o) = block_comment_state(ls.drop_last());
        let line = ls.last();
        let t = trim_start_s(line);
        if t.len() == 0 {
            (seq![], o)
        } else if t[0] == '#' {
            let text = comment_text_s(line);
            if mapping_s(text) is Some {
                (seq![], o)
            } else {
                (p.push(text), o)
            }
        } else {
            match mapping_s(line) {
                Some((_, k, _)) => (seq![], attach_s(o, k, p, line)),
                None => (seq![], o),
            }
        }
    }
}

/// The comments attached to the children of block `name`.
pub open spec fn block_comments_s(ls: Seq<Seq<char>>, name: Seq<char>) -> Seq<
    (Seq<char>, Seq<char>, Seq<Seq<char>>),
> {
    let s = find_block(ls, name);
    if s < ls.len() {
        block_comment_state(ls.subrange(s + 1, block_end(ls, s))).1
    } else {
        seq![]
    }
}

/// The comments attached to keys in YAML content.
pub open spec fn parse_comments_s(content: Seq<char>) -> Seq<
    (Seq<char>, Seq<char>, Seq<Seq<char>>),
> {
    let ls = lines_of(content);
    if is_k8s_s(ls) {
        block_comments_s(ls, string_data()) + block_comments_s(ls, data())
    } else {
        flat_comment_state(ls).1
    }
}

// ---------------------------------------------------------------------------
// Specifications: writing
// ---------------------------------------------------------------------------

/// Characters that change a YAML value's meaning at its start.
pub open spec fn special_start(c: char) -> bool {
    c == '#' || c == '&' || c == '*' || c == '!' || c == '|' || c == '>' || c == '%' || c == '@'
        || c == '`' || c == '"' || c == '\'' || c == '[' || c == '{' || c == '?' || c == ','
        || c == '-'
}

/// Words YAML reads as booleans or null (in any ASCII case).
pub open spec fn is_reserved_s(v: Seq<char>) -> bool {
    let l = lower_s(v);
    l == "true"@ || l == "false"@ || l == "yes"@ || l == "no"@ || l == "on"@ || l == "off"@ || l
        == "null"@ || l == "~"@
}

/// Whether a value must be double-quoted to stay a plain string.
pub open spec fn scalar_needs_quote(v: Seq<char>) -> bool {
    ||| (v.len() > 0 && is_ws(v[0]))
    ||| (v.len() > 0 && is_ws(v.last()))
    ||| (v.len() > 0 && special_start(v[0]))
    ||| contains_s(v, ": "@)
    ||| contains_s(v, " #"@)
    ||| ends_with_s(v, ":"@)
    ||| is_reserved_s(v)
    ||| float_syntax(v)
}

/// A value formatted as a YAML scalar, quoted only when necessary.
pub open spec fn scalar_s(v: Seq<char>) -> Seq<char> {
    if v.len() == 0 {
        seq!['"', '"']
    } else if scalar_needs_quote(v) {
        seq!['"'] + escape_s(v) + seq!['"']
    } else {
        v
    }
}

/// Bytes a character takes in UTF-8.
pub open spec fn utf8_len(c: char) -> nat {
    if (c as u32) < 0x80 {
        1
    } else if (c as u32) < 0x800 {
        2
    } else if (c as u32) < 0x10000 {
        3
    } else {
        4
    }
}

/// One space per UTF-8 byte of `s`.
pub open spec fn spaces_for(s: Seq<char>) -> Seq<char>
    decreases s.len(),
{
    if s.len() == 0 {
        seq![]
    } else {
        spaces_for(s.drop_last()) + Seq::new(utf8_len(s.last()), |i: int| ' ')
    }
}

/// A line's indentation rewritten as spaces, one per byte.
pub open spec fn indent_str(l: Seq<char>) -> Seq<char> {
    spaces_for(l.take(ind(l)))
}

/// A mapping line `key: value` at the given indentation.
pub open spec fn map_line(indent: Seq<char>, key: Seq<char>, value: Seq<char>) -> Seq<char> {
    indent + key + ": "@ + scalar_s(value)
}

/// The line of block `start` holding `key`, or the block's end.
pub open spec fn key_in_block(ls: Seq<Seq<char>>, start: int, key: Seq<char>) -> int {
    first_from(ls, |l: Seq<char>| is_map_key(l, key), start + 1, block_end(ls, start))
}

/// Where an existing `key` lives in a manifest: in `stringData:` first,
/// then in `data:`.
pub open spec fn k8s_key_line(ls: Seq<Seq<char>>, key: Seq<char>) -> Option<int> {
    let s1 = find_block(ls, string_data());
    let s2 = find_block(ls, data());
    if s1 < ls.len() && key_in_block(ls, s1, key) < block_end(ls, s1) {
        Some(key_in_block(ls, s1, key))
    } else if s2 < ls.len() && key_in_block(ls, s2, key) < block_end(ls, s2) {
        Some(key_in_block(ls, s2, key))
    } else {
        None
    }
}

/// The last non-blank line of block `start`, or `start` itself.
pub open spec fn last_child(ls: Seq<Seq<char>>, start: int) -> int {
    last_in(ls, |l: Seq<char>| !is_blank(l), start + 1, block_end(ls, start), start)
}

/// The indentation for a new child of block `start`: that of its first
/// child, else the header's plus two spaces.
pub open spec fn child_indent(ls: Seq<Seq<char>>, start: int) -> Seq<char> {
    let e = block_end(ls, start);
    let f = first_from(ls, |l: Seq<char>| !is_blank(l), start + 1, e);
    if f < e {
        indent_str(ls[f])
    } else {
        indent_str(ls[start]) + "  "@
    }
}

/// The lines of a manifest after setting `key`: an existing entry is
/// rewritten at its indentation; otherwise a new entry goes after the last
/// child of the preferred present block.
pub open spec fn set_k8s_s(ls: Seq<Seq<char>>, key: Seq<char>, value: Seq<char>) -> Seq<
    Seq<char>,
> {
    match k8s_key_line(ls, key) {
        Some(j) => ls.update(j, map_line(indent_str(ls[j]), key, value)),
        None => {
            let s1 = find_block(ls, string_data());
            let s = if s1 < ls.len() {
                s1
            } else {
                find_block(ls, data())
            };
            ls.insert(last_child(ls, s) + 1, map_line(child_indent(ls, s), key, value))
        },
    }
}

/// Whether a line is a top-level entry for `key`.
pub open spec fn is_top_key(l: Seq<char>, key: Seq<char>) -> bool {
    mapping_s(l) matches Some((i, k, _)) && i == 0 && k == key
}

/// The lines of a flat mapping after setting `key`.
pub open spec fn set_flat_s(ls: Seq<Seq<char>>, key: Seq<char>, value: Seq<char>) -> Seq<
    Seq<char>,
> {
    let j = first_from(ls, |l: Seq<char>| is_top_key(l, key), 0, ls.len() as int);
    if j < ls.len() {
        ls.update(j, map_line(seq![], key, value))
    } else {
        ls.push(map_line(seq![], key, value))
    }
}

/// Rejoin YAML lines: a final line ending when the edited content had one
/// or the joined text is empty.
pub open spec fn rebuild_yaml(ls: Seq<Seq<char>>, content: Seq<char>) -> Seq<char> {
    let nl = newline_of(content);
    let j = join_s(ls, nl);
    if keeps_final_newline(content) || j.len() == 0 {
        j + nl
    } else {
        j
    }
}

/// The content after setting `key` to `value`.
pub open spec fn set_value_s(content: Seq<char>, key: Seq<char>, value: Seq<char>) -> Seq<char> {
    let ls = lines_of(content);
    rebuild_yaml(
        if is_k8s_s(ls) {
            set_k8s_s(ls, key, value)
        } else {
            set_flat_s(ls, key, value)
        },
        content,
    )
}

/// The lines after removing the first mapping line of `key`.
pub open spec fn remove_lines_s(ls: Seq<Seq<char>>, key: Seq<char>) -> Seq<Seq<char>> {
    let j = first_from(ls, |l: Seq<char>| is_map_key(l, key), 0, ls.len() as int);
    if j < ls.len() {
        ls.remove(j)
    } else {
        ls
    }
}

/// The content after removing `key`; content in which no line maps the key
/// is returned as it is.
pub open spec fn remove_key_s(content: Seq<char>, key: Seq<char>) -> Seq<char> {
    let ls = lines_of(content);
    if first_from(ls, |l: Seq<char>| is_map_key(l, key), 0, ls.len() as int) < ls.len() {
        rebuild_yaml(remove_lines_s(ls, key), content)
    } else {
        content
    }
}

// ---------------------------------------------------------------------------
// Lemmas
// ---------------------------------------------------------------------------

pub proof fn lemma_first_from_range(ls: Seq<Seq<char>>, p: spec_fn(Seq<char>) -> bool, i: int, end: int)
    requires
        0 <= i <= end <= ls.len(),
    ensures
        i <= first_from(ls, p, i, end) <= end,
        first_from(ls, p, i, end) < end ==> p(ls[first_from(ls, p, i, end)]),
    decreases end - i,
{
    if i < end && !p(ls[i]) {
        lemma_first_from_range(ls, p, i + 1, end);
    }
}

pub proof fn lemma_last_in_range(ls: Seq<Seq<char>>, p: spec_fn(Seq<char>) -> bool, a: int, b: int, dflt: int)
    requires
        0 <= a <= b <= ls.len(),
    ensures
        last_in(ls, p, a, b, dflt) == dflt || a <= last_in(ls, p, a, b, dflt) < b,
    decreases b - a,
{
    if a < b && !p(ls[b - 1]) {
        lemma_last_in_range(ls, p, a, b - 1, dflt);
    }
}

pub proof fn lemma_colon_range(s: Seq<char>, i: int, sq: bool, dq: bool)
    requires
        0 <= i,
    ensures
        colon_from(s, i, sq, dq) matches Some(k) ==> i <= k < s.len(),
    decreases s.len() - i,
{
    if 0 <= i < s.len() {
        lemma_colon_range(s, i + 1, !sq, dq);
        lemma_colon_range(s, i + 1, sq, !dq);
        lemma_colon_range(s, i + 1, sq, dq);
    }
}

// ---------------------------------------------------------------------------
// Executable functions: reading
// ---------------------------------------------------------------------------

/// Indentation of a line, in characters.
fn indent_of(line: &Vec<char>) -> (r: usize)
    ensures
        r == ind(line@),
        r <= line.len(),
        trim_start_s(line@) == line@.skip(r as int),
{
    ws_prefix(line)
}

/// Whether a line is blank.
fn blank(line: &Vec<char>) -> (r: bool)
    ensures
        r == is_blank(line@),
{
    let i = ws_prefix(line);
    i == line.len()
}

/// Index of the mapping colon in `content`, skipping colons inside quotes.
fn find_key_colon(content: &Vec<char>) -> (r: Option<usize>)
    ensures
        r matches Some(k) ==> colon_from(content@, 0, false, false) == Some(k as int) && k
            < content.len(),
        r is None ==> colon_from(content@, 0, false, false) is None,
{
    let mut sq = false;
    let mut dq = false;
    let mut i: usize = 0;
    while i < content.len()
        invariant
            i <= content.len(),
            colon_from(content@, 0, false, false) == colon_from(content@, i as int, sq, dq),
        decreases content.len() - i,
    {
        let c = content[i];
        if c == '\'' && !dq {
            sq = !sq;
        } else if c == '"' && !sq {
            dq = !dq;
        } else if c == ':' && !sq && !dq && (i + 1 == content.len() || content[i + 1] == ' '
            || content[i + 1] == '\t') {
            return Some(i);
        }
        i = i + 1;
    }
    None
}

/// Remove an unquoted trailing `# comment` from a scalar value.
fn strip_inline_comment(value: &Vec<char>) -> (out: Vec<char>)
    ensures
        out@ == strip_inline_s(value@),
{
    match find_inline_hash(value) {
        Some(i) => {
            let head = slice(value, 0, i);
            assert(head@ =~= value@.take(i as int));
            trim_end(&head)
        },
        None => slice(value, 0, value.len()),
    }
}

/// Strip a single layer of matching quotes from a scalar.
fn unquote(v: &Vec<char>) -> (out: Vec<char>)
    ensures
        out@ == unquote_s(v@),
{
    let n = v.len();
    if n >= 2 {
        let f = v[0];
        let l = v[n - 1];
        if (f == '"' && l == '"') || (f == '\'' && l == '\'') {
            return slice(v, 1, n - 1);
        }
    }
    slice(v, 0, n)
}

/// Parse a mapping line into `(indent, key, value)`.
fn mapping_of(line: &Vec<char>) -> (r: Option<(usize, Vec<char>, Vec<char>)>)
    ensures
        match r {
            Some((i, k, v)) => mapping_s(line@) == Some((i as int, k@, v@)),
            None => mapping_s(line@) is None,
        },
{
    let indent = indent_of(line);
    let rest = slice(line, indent, line.len());
    assert(rest@ =~= line@.skip(indent as int));
    let content = trim_end(&rest);
    if content.len() == 0 || content[0] == '#' || starts_with(&content, chars_of("- ").as_slice()) {
        return None;
    }
    match find_key_colon(&content) {
        None => None,
        Some(colon) => {
            let key = trim(&slice(&content, 0, colon));
            if key.len() == 0 {
                return None;
            }
            let after = slice(&content, colon + 1, content.len());
            assert(after@ =~= content@.skip(colon + 1));
            let value = unquote(&strip_inline_comment(&trim(&after)));
            Some((indent, key, value))
        },
    }
}

/// Whether a line maps `key`.
fn maps_key(line: &Vec<char>, key: &Vec<char>) -> (r: bool)
    ensures
        r == is_map_key(line@, key@),
{
    match mapping_of(line) {
        Some((_, k, _)) => eq_chars(&k, key),
        None => false,
    }
}

/// Index of the top-level block header `name:`, or the number of lines.
fn find_k8s_block(lines: &Vec<Vec<char>>, block: &Vec<char>) -> (r: usize)
    ensures
        r == find_block(lines_view(lines@), block@),
        r <= lines.len(),
{
    let ghost lv = lines_view(lines@);
    let ghost p = |l: Seq<char>| is_header(l, block@);
    let mut i: usize = 0;
    while i < lines.len()
        invariant
            i <= lines.len(),
            lv == lines_view(lines@),
            p == (|l: Seq<char>| is_header(l, block@)),
            find_block(lv, block@) == first_from(lv, p, i as int, lv.len() as int),
        decreases lines.len() - i,
    {
        assert(lv[i as int] == lines@[i as int]@);
        match mapping_of(&lines[i]) {
            Some((ind0, k, v)) => {
                if ind0 == 0 && v.len() == 0 && eq_chars(&k, block) {
                    return i;
                }
            },
            None => {},
        }
        i = i + 1;
    }
    i
}

/// Whether the document has at least one k8s block.
fn is_k8s(lines: &Vec<Vec<char>>) -> (r: bool)
    ensures
        r == is_k8s_s(lines_view(lines@)),
{
    find_k8s_block(lines, &chars_of("stringData")) < lines.len() || find_k8s_block(
        lines,
        &chars_of("data"),
    ) < lines.len()
}

/// One past the last line of the block starting at `start`.
fn block_end_of(lines: &Vec<Vec<char>>, start: usize) -> (r: usize)
    requires
        start < lines.len(),
    ensures
        r == block_end(lines_view(lines@), start as int),
        start < r <= lines.len(),
{
    let ghost lv = lines_view(lines@);
    let ghost p = |l: Seq<char>| ends_block(l, lv[start as int]);
    let h = indent_of(&lines[start]);
    let mut i: usize = start + 1;
    while i < lines.len()
        invariant
            start < i <= lines.len(),
            lv == lines_view(lines@),
            h == ind(lv[start as int]),
            p == (|l: Seq<char>| ends_block(l, lv[start as int])),
            block_end(lv, start as int) == first_from(lv, p, i as int, lv.len() as int),
        decreases lines.len() - i,
    {
        assert(lv[i as int] == lines@[i as int]@);
        if !blank(&lines[i]) && indent_of(&lines[i]) <= h {
            return i;
        }
        i = i + 1;
    }
    i
}

/// `(key, value)` of every mapping line in `lines[a..b]`.
fn collect_pairs(lines: &Vec<Vec<char>>, a: usize, b: usize) -> (out: Vec<ParsedPair>)
    requires
        a <= b <= lines.len(),
    ensures
        pairs_view(out@) == mapping_pairs(lines_view(lines@).subrange(a as int, b as int)),
{
    let ghost lv = lines_view(lines@);
    let mut out: Vec<ParsedPair> = Vec::new();
    let mut i = a;
    while i < b
        invariant
            a <= i <= b <= lines.len(),
            lv == lines_view(lines@),
            pairs_view(out@) == mapping_pairs(lv.subrange(a as int, i as int)),
        decreases b - i,
    {
        let ghost before = out@;
        assert(lv.subrange(a as int, i + 1).drop_last() =~= lv.subrange(a as int, i as int));
        assert(lv.subrange(a as int, i + 1).last() == lines@[i as int]@);
        match mapping_of(&lines[i]) {
            Some((_, k, v)) => {
                out.push(ParsedPair { key: string_of(&k), value: string_of(&v) });
                assert(pairs_view(out@) =~= pairs_view(before) + seq![(k@, v@)]);
            },
            None => {
                assert(pairs_view(out@) =~= pairs_view(before) + Seq::<
                    (Seq<char>, Seq<char>),
                >::empty());
            },
        }
        i = i + 1;
    }
    out
}

/// Scalar children of the block starting at `block_line`.
fn collect_block_children(lines: &Vec<Vec<char>>, block_line: usize) -> (out: Vec<ParsedPair>)
    requires
        block_line < lines.len(),
    ensures
        pairs_view(out@) == block_children_s(lines_view(lines@), block_line as int),
{
    let e = block_end_of(lines, block_line);
    collect_pairs(lines, block_line + 1, e)
}

/// The children of block `name`, or nothing.
fn block_pairs(lines: &Vec<Vec<char>>, name: &Vec<char>) -> (out: Vec<ParsedPair>)
    ensures
        pairs_view(out@) == block_pairs_s(lines_view(lines@), name@),
{
    let s = find_k8s_block(lines, name);
    if s < lines.len() {
        collect_block_children(lines, s)
    } else {
        Vec::new()
    }
}

/// Every non-empty top-level entry.
fn flat_pairs(lines: &Vec<Vec<char>>) -> (out: Vec<ParsedPair>)
    ensures
        pairs_view(out@) == flat_pairs_s(lines_view(lines@)),
{
    let ghost lv = lines_view(lines@);
    let mut out: Vec<ParsedPair> = Vec::new();
    let mut i: usize = 0;
    while i < lines.len()
        invariant
            i <= lines.len(),
            lv == lines_view(lines@),
            pairs_view(out@) == flat_pairs_s(lv.take(i as int)),
        decreases lines.len() - i,
    {
        let ghost before = out@;
        assert(lv.take(i + 1).drop_last() =~= lv.take(i as int));
        assert(lv.take(i + 1).last() == lines@[i as int]@);
        match mapping_of(&lines[i]) {
            Some((ind0, k, v)) => {
                if ind0 == 0 && v.len() > 0 {
                    out.push(ParsedPair { key: string_of(&k), value: string_of(&v) });
                    assert(pairs_view(out@) =~= pairs_view(before) + seq![(k@, v@)]);
                } else {
                    assert(pairs_view(out@) =~= pairs_view(before) + Seq::<
                        (Seq<char>, Seq<char>),
                    >::empty());
                }
            },
            None => {
                assert(pairs_view(out@) =~= pairs_view(before) + Seq::<
                    (Seq<char>, Seq<char>),
                >::empty());
            },
        }
        i = i + 1;
    }
    assert(lv.take(lv.len() as int) =~= lv);
    out
}

/// Parse env keys from YAML `content`: the children of `stringData:` then of
/// `data:` for a manifest, else the non-empty top-level entries.
pub fn parse(content: &str) -> (out: Vec<ParsedPair>)
    ensures
        pairs_view(out@) == parse_s(content@),
{
    let lines = split_lines(&chars_of(content));
    if is_k8s(&lines) {
        let mut out = block_pairs(&lines, &chars_of("stringData"));
        let more = block_pairs(&lines, &chars_of("data"));
        let ghost a = out@;
        let mut i: usize = 0;
        while i < more.len()
            invariant
                i <= more.len(),
                pairs_view(out@) == pairs_view(a) + pairs_view(more@.take(i as int)),
            decreases more.len() - i,
        {
            let p = ParsedPair { key: more[i].key.clone(), value: more[i].value.clone() };
            let ghost before = out@;
            out.push(p);
            assert(more@.take(i + 1) =~= more@.take(i as int).push(more@[i as int]));
            assert(pairs_view(more@.take(i + 1)) =~= pairs_view(more@.take(i as int)).push(more@[i as int]@));
            assert(pairs_view(out@) =~= pairs_view(before).push(p@));
            assert(pairs_view(out@) =~= pairs_view(a) + pairs_view(more@.take(i + 1)));
            i = i + 1;
        }
        assert(more@.take(more@.len() as int) =~= more@);
        out
    } else {
        flat_pairs(&lines)
    }
}

// ---------------------------------------------------------------------------
// Executable functions: comments
// ---------------------------------------------------------------------------

/// Copy the pending lines.
fn copy_lines(v: &Vec<Vec<char>>) -> (out: Vec<Vec<char>>)
    ensures
        lines_view(out@) == lines_view(v@),
{
    let mut out: Vec<Vec<char>> = Vec::new();
    let mut k: usize = 0;
    while k < v.len()
        invariant
            k <= v.len(),
            lines_view(out@) == lines_view(v@.take(k as int)),
        decreases v.len() - k,
    {
        let ghost before = out@;
        let c = slice(&v[k], 0, v[k].len());
        assert(c@ =~= v@[k as int]@);
        out.push(c);
        assert(lines_view(out@) =~= lines_view(before).push(v@[k as int]@));
        assert(lines_view(v@.take(k + 1)) =~= lines_view(v@.take(k as int)).push(v@[k as int]@));
        k = k + 1;
    }
    assert(v@.take(v@.len() as int) =~= v@);
    out
}

/// Append a key's combined comment (pending block + inline) to `out` if the
/// key has any comment text, and clear the pending block.
fn push_comment(
    out: &mut Vec<ParsedComment>,
    key: &Vec<char>,
    pending: &mut Vec<Vec<char>>,
    line: &Vec<char>,
)
    ensures
        comments_view(final(out)@) == attach_s(
            comments_view(old(out)@),
            key@,
            lines_view(old(pending)@),
            line@,
        ),
        final(pending)@.len() == 0,
{
    proof {
        reveal_strlit(" ");
    }
    let ghost joined = join_s(lines_view(pending@), " "@);
    let sp = chars_of(" ");
    let mut comment = join(pending, sp.as_slice());
    let mut lines = copy_lines(pending);
    match inline_comment_text(line) {
        Some(inline) => {
            if comment.len() > 0 {
                comment.push(' ');
            }
            append(&mut comment, inline.as_slice());
            let ghost before = lines@;
            lines.push(inline);
            assert(lines_view(lines@) =~= lines_view(before).push(inline@));
            assert(comment@ =~= (if joined.len() == 0 {
                inline@
            } else {
                joined + " "@ + inline@
            }));
        },
        None => {},
    }
    if comment.len() > 0 {
        let ghost before = out@;
        let strs = to_strings(&lines);
        out.push(
            ParsedComment { key: string_of(key), comment: string_of(&comment), lines: strs },
        );
        assert(comments_view(out@) =~= comments_view(before).push(
            (key@, comment@, lines_view(lines@)),
        ));
    }
    pending.clear();
}

/// Whether a comment's text is a commented-out mapping (`KEY: value`).
fn is_commented_out_mapping(text: &Vec<char>) -> (r: bool)
    ensures
        r == mapping_s(text@) is Some,
{
    mapping_of(text).is_some()
}

/// The comment attached to each top-level key of a flat mapping.
fn collect_flat_comments(lines: &Vec<Vec<char>>) -> (out: Vec<ParsedComment>)
    ensures
        comments_view(out@) == flat_comment_state(lines_view(lines@)).1,
{
    let ghost lv = lines_view(lines@);
    let mut pending: Vec<Vec<char>> = Vec::new();
    let mut out: Vec<ParsedComment> = Vec::new();
    let mut i: usize = 0;
    while i < lines.len()
        invariant
            i <= lines.len(),
            lv == lines_view(lines@),
            flat_comment_state(lv.take(i as int)) == (lines_view(pending@), comments_view(out@)),
        decreases lines.len() - i,
    {
        let line = &lines[i];
        assert(lv.take(i + 1).drop_last() =~= lv.take(i as int));
        assert(lv.take(i + 1).last() == line@);
        let t = trim_start(line);
        if t.len() == 0 {
            pending.clear();
            assert(lines_view(pending@) =~= Seq::<Seq<char>>::empty());
        } else if t[0] == '#' {
            if indent_of(line) == 0 {
                let text = comment_text(line);
                if is_commented_out_mapping(&text) {
                    pending.clear();
                    assert(lines_view(pending@) =~= Seq::<Seq<char>>::empty());
                } else {
                    let ghost before = pending@;
                    pending.push(text);
                    assert(lines_view(pending@) =~= lines_view(before).push(text@));
                }
            } else {
                pending.clear();
                assert(lines_view(pending@) =~= Seq::<Seq<char>>::empty());
            }
        } else {
            match mapping_of(line) {
                Some((ind0, key, value)) => {
                    if ind0 == 0 && value.len() > 0 {
                        push_comment(&mut out, &key, &mut pending, line);
                        assert(lines_view(pending@) =~= Seq::<Seq<char>>::empty());
                    } else {
                        pending.clear();
                        assert(lines_view(pending@) =~= Seq::<Seq<char>>::empty());
                    }
                },
                None => {
                    pending.clear();
                    assert(lines_view(pending@) =~= Seq::<Seq<char>>::empty());
                },
            }
        }
        i = i + 1;
    }
    assert(lv.take(lv.len() as int) =~= lv);
    out
}

/// The comment attached to each scalar child of the block at `block_line`.
fn collect_block_comments(lines: &Vec<Vec<char>>, block_line: usize) -> (out: Vec<ParsedComment>)
    requires
        block_line < lines.len(),
    ensures
        comments_view(out@) == block_comment_state(
            lines_view(lines@).subrange(block_line + 1, block_end(lines_view(lines@), block_line as int)),
        ).1,
{
    let ghost lv = lines_view(lines@);
    let e = block_end_of(lines, block_line);
    let a = block_line + 1;
    let mut pending: Vec<Vec<char>> = Vec::new();
    let mut out: Vec<ParsedComment> = Vec::new();
    let mut i: usize = a;
    assert(lv.subrange(a as int, a as int) =~= Seq::<Seq<char>>::empty());
    while i < e
        invariant
            a <= i <= e <= lines.len(),
            lv == lines_view(lines@),
            block_comment_state(lv.subrange(a as int, i as int)) == (
                lines_view(pending@),
                comments_view(out@),
            ),
        decreases e - i,
    {
        let line = &lines[i];
        assert(lv.subrange(a as int, i + 1).drop_last() =~= lv.subrange(a as int, i as int));
        assert(lv.subrange(a as int, i + 1).last() == line@);
        let t = trim_start(line);
        if t.len() == 0 {
            pending.clear();
            assert(lines_view(pending@) =~= Seq::<Seq<char>>::empty());
        } else if t[0] == '#' {
            let text = comment_text(line);
            if is_commented_out_mapping(&text) {
                pending.clear();
                assert(lines_view(pending@) =~= Seq::<Seq<char>>::empty());
            } else {
                let ghost before = pending@;
                pending.push(text);
                assert(lines_view(pending@) =~= lines_view(before).push(text@));
            }
        } else {
            match mapping_of(line) {
                Some((_, key, _)) => {
                    push_comment(&mut out, &key, &mut pending, line);
                    assert(lines_view(pending@) =~= Seq::<Seq<char>>::empty());
                },
                None => {
                    pending.clear();
                    assert(lines_view(pending@) =~= Seq::<Seq<char>>::empty());
                },
            }
        }
        i = i + 1;
    }
    out
}

/// The comments attached to the children of block `name`.
fn block_comments(lines: &Vec<Vec<char>>, name: &Vec<char>) -> (out: Vec<ParsedComment>)
    ensures
        comments_view(out@) == block_comments_s(lines_view(lines@), name@),
{
    let s = find_k8s_block(lines, name);
    if s < lines.len() {
        collect_block_comments(lines, s)
    } else {
        Vec::new()
    }
}

/// Parse the comment attached to each key in YAML `content`.
///
/// A key's comment is the consecutive `#` lines directly above it (top-level
/// for the flat shape, inside the block for a manifest) plus the inline
/// `# comment` on its own line, joined with single spaces. A commented-out
/// entry (`# KEY: value`) never attaches and breaks the block above it.
/// Keys without any comment are omitted.
pub fn parse_comments(content: &str) -> (out: Vec<ParsedComment>)
    ensures
        comments_view(out@) == parse_comments_s(content@),
{
    let lines = split_lines(&chars_of(content));
    if is_k8s(&lines) {
        let mut out = block_comments(&lines, &chars_of("stringData"));
        let mut more = block_comments(&lines, &chars_of("data"));
        let ghost a = comments_view(out@);
        let ghost b = comments_view(more@);
        out.append(&mut more);
        assert(comments_view(out@) =~= a + b);
        out
    } else {
        collect_flat_comments(&lines)
    }
}


// ---------------------------------------------------------------------------
// Executable functions: writing
// ---------------------------------------------------------------------------

/// Whether `c` changes a YAML value's meaning at its start.
fn special_start_c(c: char) -> (r: bool)
    ensures
        r == special_start(c),
{
    c == '#' || c == '&' || c == '*' || c == '!' || c == '|' || c == '>' || c == '%' || c == '@'
        || c == '`' || c == '"' || c == '\'' || c == '[' || c == '{' || c == '?' || c == ','
        || c == '-'
}

/// Whether a value is a word YAML reads as a boolean or null.
fn is_reserved_word(v: &Vec<char>) -> (r: bool)
    ensures
        r == is_reserved_s(v@),
{
    let l = lower(v);
    eq_chars(&l, &chars_of("true")) || eq_chars(&l, &chars_of("false")) || eq_chars(
        &l,
        &chars_of("yes"),
    ) || eq_chars(&l, &chars_of("no")) || eq_chars(&l, &chars_of("on")) || eq_chars(
        &l,
        &chars_of("off"),
    ) || eq_chars(&l, &chars_of("null")) || eq_chars(&l, &chars_of("~"))
}

/// Format a value as a YAML scalar, double-quoting it only when YAML would
/// otherwise read it as something other than a plain string.
fn scalar_chars(v: &Vec<char>) -> (out: Vec<char>)
    ensures
        out@ == scalar_s(v@),
{
    let mut out: Vec<char> = Vec::new();
    if v.len() == 0 {
        out.push('"');
        out.push('"');
        assert(out@ =~= seq!['"', '"']);
        return out;
    }
    let needs = is_ws_char(v[0]) || is_ws_char(v[v.len() - 1]) || special_start_c(v[0])
        || contains(v, chars_of(": ").as_slice()) || contains(v, chars_of(" #").as_slice())
        || ends_with(v, chars_of(":").as_slice()) || is_reserved_word(v) || looks_numeric(v);
    if needs {
        out.push('"');
        let e = escape(v);
        append(&mut out, e.as_slice());
        out.push('"');
        assert(out@ =~= seq!['"'] + escape_s(v@) + seq!['"']);
        out
    } else {
        slice(v, 0, v.len())
    }
}

/// Format a value as a YAML scalar: double-quoted (with `\\` and `"`
/// escaped) when YAML would read it as something other than a plain
/// string, bare otherwise.
pub fn yaml_scalar(value: &str) -> (out: String)
    ensures
        out@ == scalar_s(value@),
{
    string_of(&scalar_chars(&chars_of(value)))
}

/// Bytes `c` takes in UTF-8.
fn utf8_len_of(c: char) -> (n: usize)
    ensures
        n == utf8_len(c),
{
    let u = c as u32;
    if u < 0x80 {
        1
    } else if u < 0x800 {
        2
    } else if u < 0x10000 {
        3
    } else {
        4
    }
}

/// The indentation of `line` rewritten as spaces, one per UTF-8 byte.
fn indent_spaces(line: &Vec<char>) -> (out: Vec<char>)
    ensures
        out@ == indent_str(line@),
{
    let n = indent_of(line);
    let mut out: Vec<char> = Vec::new();
    let mut k: usize = 0;
    while k < n
        invariant
            k <= n <= line.len(),
            n == ind(line@),
            out@ == spaces_for(line@.take(k as int)),
        decreases n - k,
    {
        let m = utf8_len_of(line[k]);
        let ghost base = out@;
        let mut j: usize = 0;
        while j < m
            invariant
                j <= m,
                out@ == base + Seq::new(j as nat, |i: int| ' '),
            decreases m - j,
        {
            out.push(' ');
            assert(out@ =~= base + Seq::new((j + 1) as nat, |i: int| ' '));
            j = j + 1;
        }
        assert(line@.take(k + 1).drop_last() =~= line@.take(k as int));
        k = k + 1;
    }
    out
}

/// The line `indent` + `key: value`, the value formatted as a scalar.
fn map_line_of(indent: Vec<char>, key: &Vec<char>, value: &Vec<char>) -> (out: Vec<char>)
    ensures
        out@ == map_line(indent@, key@, value@),
{
    let mut out = indent;
    append(&mut out, key.as_slice());
    append(&mut out, chars_of(": ").as_slice());
    let v = scalar_chars(value);
    append(&mut out, v.as_slice());
    out
}

/// The first line in `lines[a..b]` that maps `key`, or `b`.
fn first_key_in(lines: &Vec<Vec<char>>, key: &Vec<char>, a: usize, b: usize) -> (r: usize)
    requires
        a <= b <= lines.len(),
    ensures
        r == first_from(lines_view(lines@), |l: Seq<char>| is_map_key(l, key@), a as int, b as int),
        a <= r <= b,
{
    let ghost lv = lines_view(lines@);
    let ghost p = |l: Seq<char>| is_map_key(l, key@);
    let mut i = a;
    while i < b
        invariant
            a <= i <= b <= lines.len(),
            lv == lines_view(lines@),
            p == (|l: Seq<char>| is_map_key(l, key@)),
            first_from(lv, p, a as int, b as int) == first_from(lv, p, i as int, b as int),
        decreases b - i,
    {
        assert(lv[i as int] == lines@[i as int]@);
        if maps_key(&lines[i], key) {
            return i;
        }
        i = i + 1;
    }
    i
}

/// The first non-blank line in `lines[a..b]`, or `b`.
fn first_nonblank(lines: &Vec<Vec<char>>, a: usize, b: usize) -> (r: usize)
    requires
        a <= b <= lines.len(),
    ensures
        r == first_from(lines_view(lines@), |l: Seq<char>| !is_blank(l), a as int, b as int),
        a <= r <= b,
{
    let ghost lv = lines_view(lines@);
    let ghost p = |l: Seq<char>| !is_blank(l);
    let mut i = a;
    while i < b
        invariant
            a <= i <= b <= lines.len(),
            lv == lines_view(lines@),
            p == (|l: Seq<char>| !is_blank(l)),
            first_from(lv, p, a as int, b as int) == first_from(lv, p, i as int, b as int),
        decreases b - i,
    {
        assert(lv[i as int] == lines@[i as int]@);
        if !blank(&lines[i]) {
            return i;
        }
        i = i + 1;
    }
    i
}

/// The last non-blank line in `lines[a..b]`, or `dflt`.
fn last_nonblank(lines: &Vec<Vec<char>>, a: usize, b: usize, dflt: usize) -> (r: usize)
    requires
        a <= b <= lines.len(),
    ensures
        r == last_in(lines_view(lines@), |l: Seq<char>| !is_blank(l), a as int, b as int, dflt as int),
        r == dflt || a <= r < b,
{
    let ghost lv = lines_view(lines@);
    let ghost p = |l: Seq<char>| !is_blank(l);
    let mut i = b;
    while i > a
        invariant
            a <= i <= b <= lines.len(),
            lv == lines_view(lines@),
            p == (|l: Seq<char>| !is_blank(l)),
            last_in(lv, p, a as int, b as int, dflt as int) == last_in(lv, p, a as int, i as int, dflt as int),
        decreases i - a,
    {
        assert(lv[i - 1] == lines@[i - 1]@);
        if !blank(&lines[i - 1]) {
            return i - 1;
        }
        i = i - 1;
    }
    dflt
}

/// The first top-level line for `key`, or the number of lines.
fn top_key_line(lines: &Vec<Vec<char>>, key: &Vec<char>) -> (r: usize)
    ensures
        r == first_from(lines_view(lines@), |l: Seq<char>| is_top_key(l, key@), 0, lines.len() as int),
        r <= lines.len(),
{
    let ghost lv = lines_view(lines@);
    let ghost p = |l: Seq<char>| is_top_key(l, key@);
    let mut i: usize = 0;
    while i < lines.len()
        invariant
            i <= lines.len(),
            lv == lines_view(lines@),
            p == (|l: Seq<char>| is_top_key(l, key@)),
            first_from(lv, p, 0, lv.len() as int) == first_from(lv, p, i as int, lv.len() as int),
        decreases lines.len() - i,
    {
        assert(lv[i as int] == lines@[i as int]@);
        match mapping_of(&lines[i]) {
            Some((ind0, k, _)) => {
                if ind0 == 0 && eq_chars(&k, key) {
                    return i;
                }
            },
            None => {},
        }
        i = i + 1;
    }
    i
}

/// Edit or append a top-level `key` in a flat mapping.
fn set_flat(lines: &mut Vec<Vec<char>>, key: &Vec<char>, value: &Vec<char>)
    ensures
        lines_view(final(lines)@) == set_flat_s(lines_view(old(lines)@), key@, value@),
{
    let j = top_key_line(lines, key);
    let line = map_line_of(Vec::new(), key, value);
    let ghost before = lines_view(lines@);
    if j < lines.len() {
        lines.set(j, line);
        assert(lines_view(lines@) =~= before.update(j as int, line@));
    } else {
        lines.push(line);
        assert(lines_view(lines@) =~= before.push(line@));
    }
}

/// Edit `key` where it already lives in a manifest block, else insert it
/// after the last child of the preferred block (`stringData`, then `data`).
fn set_in_k8s(lines: &mut Vec<Vec<char>>, key: &Vec<char>, value: &Vec<char>)
    requires
        is_k8s_s(lines_view(old(lines)@)),
    ensures
        lines_view(final(lines)@) == set_k8s_s(lines_view(old(lines)@), key@, value@),
{
    let ghost lv = lines_view(lines@);
    let s1 = find_k8s_block(lines, &chars_of("stringData"));
    let s2 = find_k8s_block(lines, &chars_of("data"));
    if s1 < lines.len() {
        let e1 = block_end_of(lines, s1);
        let j = first_key_in(lines, key, s1 + 1, e1);
        if j < e1 {
            let line = map_line_of(indent_spaces(&lines[j]), key, value);
            lines.set(j, line);
            assert(lines_view(lines@) =~= lv.update(j as int, line@));
            return;
        }
    }
    if s2 < lines.len() {
        let e2 = block_end_of(lines, s2);
        let j = first_key_in(lines, key, s2 + 1, e2);
        if j < e2 {
            let line = map_line_of(indent_spaces(&lines[j]), key, value);
            lines.set(j, line);
            assert(lines_view(lines@) =~= lv.update(j as int, line@));
            return;
        }
    }
    let s = if s1 < lines.len() {
        s1
    } else {
        s2
    };
    let e = block_end_of(lines, s);
    let last = last_nonblank(lines, s + 1, e, s);
    let f = first_nonblank(lines, s + 1, e);
    let indent = if f < e {
        indent_spaces(&lines[f])
    } else {
        let mut h = indent_spaces(&lines[s]);
        h.push(' ');
        h.push(' ');
        h
    };
    proof {
        let h = indent_str(lv[s as int]);
        assert(h.push(' ').push(' ') =~= h + "  "@) by {
            reveal_strlit("  ");
        }
    }
    let line = map_line_of(indent, key, value);
    lines.insert(last + 1, line);
    assert(lines_view(lines@) =~= lv.insert(last + 1, line@));
}

/// Rejoin lines: a final line ending when the edited content had one or
/// the joined text is empty.
fn rebuild_yaml_exec(lines: &Vec<Vec<char>>, content: &Vec<char>) -> (out: Vec<char>)
    ensures
        out@ == rebuild_yaml(lines_view(lines@), content@),
{
    let nl = newline_exec(content);
    let mut out = join(lines, nl.as_slice());
    if keeps_final_newline_exec(content) || out.len() == 0 {
        append(&mut out, nl.as_slice());
    }
    out
}

/// Set `key` to `value`, editing in place or creating it, and keep every
/// other line as it was.
pub fn set_value(content: &str, key: &str, value: &str) -> (out: String)
    ensures
        out@ == set_value_s(content@, key@, value@),
{
    let c = chars_of(content);
    let mut lines = split_lines(&c);
    let k = chars_of(key);
    let v = chars_of(value);
    if is_k8s(&lines) {
        set_in_k8s(&mut lines, &k, &v);
    } else {
        set_flat(&mut lines, &k, &v);
    }
    string_of(&rebuild_yaml_exec(&lines, &c))
}

/// Remove the first mapping line of `key` (at any indentation), keeping
/// every other line; absent keys leave the lines as they were.
pub fn remove_key(content: &str, key: &str) -> (out: String)
    ensures
        out@ == remove_key_s(content@, key@),
{
    let c = chars_of(content);
    let mut lines = split_lines(&c);
    let k = chars_of(key);
    let j = first_key_in(&lines, &k, 0, lines.len());
    if j < lines.len() {
        let ghost before = lines_view(lines@);
        lines.remove(j);
        assert(lines_view(lines@) =~= before.remove(j as int));
        string_of(&rebuild_yaml_exec(&lines, &c))
    } else {
        string_of(&c)
    }
}

} // verus!
