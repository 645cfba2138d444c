//! `.env` / `.env.example` parsing and line-oriented editing.
//!
//! One `KEY=value` per line, plus blank lines and `#` comments. Edits rewrite
//! only the line that defines the key; every other line is kept as it was.

use vstd::prelude::*;

use super::{
    comment_text, comment_text_s, comments_view, inline_comment_s, inline_comment_text,
    pairs_view, strings_view, to_strings, ParsedComment, ParsedPair,
};
use crate::text::{
    append, chars_of, char_pos, eq_chars, find_char, is_ws, is_ws_char, keeps_final_newline,
    keeps_final_newline_exec, join_s, lines_of, lines_view, newline_exec, newline_of, rebuild,
    rebuild_exec, slice, split_lines, starts_with, starts_with_s, string_of, trim, trim_end,
    trim_end_s, trim_s, trim_start, trim_start_s, ws_prefix, lemma_char_pos_range,
};

verus! {

// ---------------------------------------------------------------------------
// Specifications
// ---------------------------------------------------------------------------

/// ASCII letter.
pub open spec fn is_alpha(c: char) -> bool {
    ('a' <= c && c <= 'z') || ('A' <= c && c <= 'Z')
}

/// ASCII letter or digit.
pub open spec fn is_alnum(c: char) -> bool {
    is_alpha(c) || ('0' <= c && c <= '9')
}

/// A valid key starts with a letter or `_`, then letters, digits, `_`, `.`.
pub open spec fn valid_key_s(k: Seq<char>) -> bool {
    &&& k.len() > 0
    &&& (is_alpha(k[0]) || k[0] == '_')
    &&& forall|i: int| 0 <= i < k.len() ==> is_alnum(#[trigger] k[i]) || k[i] == '_' || k[i] == '.'
}

/// Strip one layer of matching single or double quotes.
pub open spec fn unquote_s(v: Seq<char>) -> Seq<char> {
    if v.len() >= 2 && ((v[0] == '"' && v.last() == '"') || (v[0] == '\'' && v.last() == '\'')) {
        v.subrange(1, v.len() - 1)
    } else {
        v
    }
}

/// The line with an optional `export ` prefix removed.
pub open spec fn after_export(t: Seq<char>) -> Seq<char> {
    if starts_with_s(t, "export "@) {
        t.skip("export "@.len() as int)
    } else {
        t
    }
}

/// The `(key, value)` assignment of a dotenv line, or `None` for comments,
/// blank lines and anything that is not an assignment.
pub open spec fn parse_line_s(line: Seq<char>) -> Option<(Seq<char>, Seq<char>)> {
    let t = trim_start_s(line);
    if t.len() == 0 || t[0] == '#' {
        None
    } else {
        let w = after_export(t);
        let eq = char_pos(w, '=', 0);
        if eq >= w.len() {
            None
        } else {
            let key = trim_s(w.take(eq));
            if !valid_key_s(key) {
                None
            } else {
                Some((key, unquote_s(trim_s(w.skip(eq + 1)))))
            }
        }
    }
}

/// The sequence holding the value of an option, if any.
pub open spec fn opt_seq<T>(o: Option<T>) -> Seq<T> {
    match o {
        Some(x) => seq![x],
        None => seq![],
    }
}

/// Every assignment of a list of lines, in order.
pub open spec fn pairs_s(ls: Seq<Seq<char>>) -> Seq<(Seq<char>, Seq<char>)>
    decreases ls.len(),
{
    if ls.len() == 0 {
        seq![]
    } else {
        pairs_s(ls.drop_last()) + opt_seq(parse_line_s(ls.last()))
    }
}

/// Whether a line assigns `key`.
pub open spec fn is_key_line(l: Seq<char>, key: Seq<char>) -> bool {
    parse_line_s(l) matches Some((k, _)) && k == key
}

/// Index of the first line at or after `i` that assigns `key`, or the
/// number of lines.
pub open spec fn first_key_line(ls: Seq<Seq<char>>, key: Seq<char>, i: int) -> int
    decreases ls.len() - i,
{
    if i < 0 || i >= ls.len() {
        ls.len() as int
    } else if is_key_line(ls[i], key) {
        i
    } else {
        first_key_line(ls, key, i + 1)
    }
}

/// Characters that force a written value to be quoted.
pub open spec fn forces_quote(c: char) -> bool {
    is_ws(c) || c == '#' || c == '"' || c == '\'' || c == '$' || c == '='
}

/// Whether a value must be quoted when written.
pub open spec fn needs_quote_s(v: Seq<char>) -> bool {
    exists|i: int| 0 <= i < v.len() && forces_quote(#[trigger] v[i])
}

/// A character with backslash and double quote escaped.
pub open spec fn escape_c(c: char) -> Seq<char> {
    if c == '\\' {
        seq!['\\', '\\']
    } else if c == '"' {
        seq!['\\', '"']
    } else {
        seq![c]
    }
}

/// A value with every backslash and double quote escaped.
pub open spec fn escape_s(v: Seq<char>) -> Seq<char>
    decreases v.len(),
{
    if v.len() == 0 {
        seq![]
    } else {
        escape_s(v.drop_last()) + escape_c(v.last())
    }
}

/// A value as written into a dotenv file: empty stays empty, values with
/// whitespace or `# " ' $ =` are double-quoted with escapes, others are bare.
pub open spec fn quote_s(v: Seq<char>) -> Seq<char> {
    if v.len() == 0 {
        seq![]
    } else if needs_quote_s(v) {
        seq!['"'] + escape_s(v) + seq!['"']
    } else {
        v
    }
}

/// An assignment line rebuilt with a new value, keeping its indentation,
/// an `export ` prefix and the key text.
pub open spec fn rewrite_line_s(line: Seq<char>, value: Seq<char>) -> Seq<char> {
    let rest = trim_start_s(line);
    let indent = line.take(line.len() - rest.len());
    let prefix = if starts_with_s(rest, "export "@) {
        "export "@
    } else {
        Seq::<char>::empty()
    };
    let body = after_export(rest);
    let key = trim_end_s(body.take(char_pos(body, '=', 0)));
    indent + prefix + key + "="@ + quote_s(value)
}

/// The new line for a key that is not yet present.
pub open spec fn new_line_s(key: Seq<char>, value: Seq<char>) -> Seq<char> {
    key + "="@ + quote_s(value)
}

/// The lines after setting `key` to `value`: the first assignment of the
/// key is rewritten in place, or a new assignment is appended.
pub open spec fn set_lines_s(ls: Seq<Seq<char>>, key: Seq<char>, value: Seq<char>) -> Seq<
    Seq<char>,
> {
    let i = first_key_line(ls, key, 0);
    if i < ls.len() {
        ls.update(i, rewrite_line_s(ls[i], value))
    } else {
        ls.push(new_line_s(key, value))
    }
}

/// The content after setting `key` to `value`.
pub open spec fn set_value_s(content: Seq<char>, key: Seq<char>, value: Seq<char>) -> Seq<char> {
    rebuild(
        set_lines_s(lines_of(content), key, value),
        newline_of(content),
        keeps_final_newline(content),
    )
}

/// The lines after removing the first assignment of `key`.
pub open spec fn remove_lines_s(ls: Seq<Seq<char>>, key: Seq<char>) -> Seq<Seq<char>> {
    let i = first_key_line(ls, key, 0);
    if i < ls.len() {
        ls.remove(i)
    } else {
        ls
    }
}

/// The content after removing `key`; content in which no line assigns the
/// key is returned as it is.
pub open spec fn remove_key_s(content: Seq<char>, key: Seq<char>) -> Seq<char> {
    if first_key_line(lines_of(content), key, 0) < lines_of(content).len() {
        rebuild(
            remove_lines_s(lines_of(content), key),
            newline_of(content),
            keeps_final_newline(content),
        )
    } else {
        content
    }
}

/// A key's attached comment: the pending prose block joined with spaces,
/// then the inline comment of its own line. Recorded only when non-empty.
pub open spec fn attach_s(
    out: Seq<(Seq<char>, Seq<char>, Seq<Seq<char>>)>,
    key: Seq<char>,
    pending: Seq<Seq<char>>,
    line: Seq<char>,
) -> Seq<(Seq<char>, Seq<char>, Seq<Seq<char>>)> {
    let joined = join_s(pending, " "@);
    let (comment, lines) = match inline_comment_s(line) {
        Some(t) => (
            if joined.len() == 0 {
                t
            } else {
                joined + " "@ + t
            },
            pending.push(t),
        ),
        None => (joined, pending),
    };
    if comment.len() == 0 {
        out
    } else {
        out.push((key, comment, lines))
    }
}

/// The comment-attachment state after the lines so far: the pending prose
/// block and the attached comments recorded.
pub open spec fn comment_state_s(ls: Seq<Seq<char>>) -> (
    Seq<Seq<char>>,
    Seq<(Seq<char>, Seq<char>, Seq<Seq<char>>)>,
)
    decreases ls.len(),
{
    if ls.len() == 0 {
        (seq![], seq![])
    } else {
        let (pending, out) = comment_state_s(ls.drop_last());
        let line = ls.last();
        let t = trim_start_s(line);
        if t.len() == 0 {
            (seq![], out)
        } else if t[0] == '#' {
            let text = comment_text_s(line);
            if parse_line_s(text) is Some {
                (seq![], out)
            } else {
                (pending.push(text), out)
            }
        } else {
            match parse_line_s(line) {
                Some((k, _)) => (seq![], attach_s(out, k, pending, line)),
                None => (seq![], out),
            }
        }
    }
}

// ---------------------------------------------------------------------------
// Executable functions
// ---------------------------------------------------------------------------

fn is_alpha_c(c: char) -> (r: bool)
    ensures
        r == is_alpha(c),
{
    ('a' <= c && c <= 'z') || ('A' <= c && c <= 'Z')
}

fn is_alnum_c(c: char) -> (r: bool)
    ensures
        r == is_alnum(c),
{
    is_alpha_c(c) || ('0' <= c && c <= '9')
}

/// A valid key starts with a letter or `_`, then letters/digits/`_`/`.`.
fn is_valid_key(key: &Vec<char>) -> (r: bool)
    ensures
        r == valid_key_s(key@),
{
    if key.len() == 0 {
        return false;
    }
    if !(is_alpha_c(key[0]) || key[0] == '_') {
        return false;
    }
    let mut i: usize = 0;
    while i < key.len()
        invariant
            i <= key.len(),
            forall|j: int| 0 <= j < i ==> is_alnum(#[trigger] key@[j]) || key@[j] == '_' || key@[j] == '.',
        decreases key.len() - i,
    {
        let c = key[i];
        if !(is_alnum_c(c) || c == '_' || c == '.') {
            return false;
        }
        i = i + 1;
    }
    true
}

/// Strip a single layer of matching single or double quotes.
fn unquote(v: &Vec<char>) -> (out: Vec<char>)
    ensures
        out@ == unquote_s(v@),
{
    let n = v.len();
    if n >= 2 {
        let first = v[0];
        let last = v[n - 1];
        if (first == '"' && last == '"') || (first == '\'' && last == '\'') {
            return slice(v, 1, n - 1);
        }
    }
    slice(v, 0, n)
}

/// The line with an optional `export ` prefix removed.
fn strip_export(t: &Vec<char>) -> (out: Vec<char>)
    ensures
        out@ == after_export(t@),
{
    let p = chars_of("export ");
    if starts_with(t, p.as_slice()) {
        slice(t, p.len(), t.len())
    } else {
        slice(t, 0, t.len())
    }
}

/// Split a dotenv line into an optional `(key, value)` pair.
pub fn parse_line(line: &Vec<char>) -> (r: Option<(Vec<char>, Vec<char>)>)
    ensures
        match r {
            Some((k, v)) => parse_line_s(line@) == Some((k@, v@)),
            None => parse_line_s(line@) is None,
        },
{
    let t = trim_start(line);
    if t.len() == 0 || t[0] == '#' {
        return None;
    }
    let w = strip_export(&t);
    let eq = find_char(&w, '=', 0);
    if eq >= w.len() {
        return None;
    }
    let key = trim(&slice(&w, 0, eq));
    if !is_valid_key(&key) {
        return None;
    }
    let raw = trim(&slice(&w, eq + 1, w.len()));
    assert(w@.skip(eq + 1) =~= w@.subrange(eq + 1, w@.len() as int));
    let value = unquote(&raw);
    Some((key, value))
}

/// Whether a character forces quoting.
fn forces_quote_c(c: char) -> (r: bool)
    ensures
        r == forces_quote(c),
{
    is_ws_char(c) || c == '#' || c == '"' || c == '\'' || c == '$' || c == '='
}

/// Escape backslashes and double quotes.
pub(crate) fn escape(v: &Vec<char>) -> (out: Vec<char>)
    ensures
        out@ == escape_s(v@),
{
    let mut out: Vec<char> = Vec::new();
    let mut i: usize = 0;
    while i < v.len()
        invariant
            i <= v.len(),
            out@ == escape_s(v@.take(i as int)),
        decreases v.len() - i,
    {
        let c = v[i];
        assert(v@.take(i + 1).drop_last() =~= v@.take(i as int));
        if c == '\\' {
            out.push('\\');
            out.push('\\');
        } else if c == '"' {
            out.push('\\');
            out.push('"');
        } else {
            out.push(c);
        }
        i = i + 1;
        assert(out@ =~= escape_s(v@.take(i as int)));
    }
    assert(v@.take(v@.len() as int) =~= v@);
    out
}

/// Quote a value for writing if it contains characters that would break a
/// bare assignment. Empty values are written empty.
fn quote_if_needed(v: &Vec<char>) -> (out: Vec<char>)
    ensures
        out@ == quote_s(v@),
{
    if v.len() == 0 {
        return Vec::new();
    }
    let mut needs = false;
    let mut i: usize = 0;
    while i < v.len()
        invariant
            i <= v.len(),
            needs == exists|j: int| 0 <= j < i && forces_quote(#[trigger] v@[j]),
        decreases v.len() - i,
    {
        if forces_quote_c(v[i]) {
            needs = true;
        }
        i = i + 1;
    }
    if needs {
        let mut out: Vec<char> = Vec::new();
        out.push('"');
        let e = escape(v);
        append(&mut out, e.as_slice());
        out.push('"');
        assert(out@ =~= seq!['"'] + escape_s(v@) + seq!['"']);
        out
    } else {
        slice(v, 0, v.len())
    }
}

/// Every assignment of a list of lines.
fn pairs_of_lines(ls: &Vec<Vec<char>>) -> (out: Vec<ParsedPair>)
    ensures
        pairs_view(out@) == pairs_s(lines_view(ls@)),
{
    let mut out: Vec<ParsedPair> = Vec::new();
    let mut i: usize = 0;
    while i < ls.len()
        invariant
            i <= ls.len(),
            pairs_view(out@) == pairs_s(lines_view(ls@.take(i as int))),
        decreases ls.len() - i,
    {
        let ghost before = out@;
        assert(lines_view(ls@.take(i + 1)).drop_last() =~= lines_view(ls@.take(i as int)));
        assert(lines_view(ls@.take(i + 1)).last() == ls@[i as int]@);
        match parse_line(&ls[i]) {
            Some((k, v)) => {
                out.push(ParsedPair { key: string_of(&k), value: string_of(&v) });
                assert(pairs_view(out@) =~= pairs_view(before) + seq![(k@, v@)]);
            },
            None => {
                assert(pairs_view(out@) =~= pairs_view(before) + Seq::<(Seq<char>, Seq<char>)>::empty());
            },
        }
        i = i + 1;
    }
    assert(ls@.take(ls@.len() as int) =~= ls@);
    out
}

/// Parse all assignments from dotenv `content`, in file order.
pub fn parse(content: &str) -> (out: Vec<ParsedPair>)
    ensures
        pairs_view(out@) == pairs_s(lines_of(content@)),
{
    let ls = split_lines(&chars_of(content));
    pairs_of_lines(&ls)
}

/// Index of the first line that assigns `key`, or the number of lines.
fn find_key_line(ls: &Vec<Vec<char>>, key: &Vec<char>) -> (r: usize)
    ensures
        r == first_key_line(lines_view(ls@), key@, 0),
        r <= ls.len(),
{
    let ghost lv = lines_view(ls@);
    let mut i: usize = 0;
    while i < ls.len()
        invariant
            i <= ls.len(),
            lv == lines_view(ls@),
            first_key_line(lv, key@, 0) == first_key_line(lv, key@, i as int),
        decreases ls.len() - i,
    {
        assert(lv[i as int] == ls@[i as int]@);
        match parse_line(&ls[i]) {
            Some((k, _)) => {
                if eq_chars(&k, key) {
                    return i;
                }
            },
            None => {},
        }
        i = i + 1;
    }
    i
}

/// Rebuild an assignment line with a new value, preserving indentation and an
/// optional `export ` prefix.
fn rewrite_line(line: &Vec<char>, value: &Vec<char>) -> (out: Vec<char>)
    ensures
        out@ == rewrite_line_s(line@, value@),
{
    let i = ws_prefix(line);
    let rest = slice(line, i, line.len());
    assert(rest@ =~= line@.skip(i as int));
    let mut out = slice(line, 0, i);
    let p = chars_of("export ");
    if starts_with(&rest, p.as_slice()) {
        append(&mut out, p.as_slice());
    }
    let body = strip_export(&rest);
    let eq = find_char(&body, '=', 0);
    let key = trim_end(&slice(&body, 0, eq));
    append(&mut out, key.as_slice());
    out.push('=');
    let q = quote_if_needed(value);
    append(&mut out, q.as_slice());
    proof {
        reveal_strlit("=");
        assert(line@.take(line@.len() - rest@.len()) =~= line@.take(i as int));
    }
    assert(out@ =~= rewrite_line_s(line@, value@));
    out
}

/// Set `key` to `value` in a list of lines.
fn set_lines(ls: &mut Vec<Vec<char>>, key: &Vec<char>, value: &Vec<char>)
    ensures
        lines_view(final(ls)@) == set_lines_s(lines_view(old(ls)@), key@, value@),
{
    let i = find_key_line(ls, key);
    if i < ls.len() {
        let nl = rewrite_line(&ls[i], value);
        let ghost before = ls@;
        ls.set(i, nl);
        assert(lines_view(ls@) =~= lines_view(before).update(i as int, nl@));
    } else {
        let mut nl = slice(key, 0, key.len());
        nl.push('=');
        let q = quote_if_needed(value);
        append(&mut nl, q.as_slice());
        proof {
            reveal_strlit("=");
        }
        assert(nl@ =~= new_line_s(key@, value@));
        let ghost before = ls@;
        ls.push(nl);
        assert(lines_view(ls@) =~= lines_view(before).push(nl@));
    }
}

/// Set `key` to `value`, editing the first assignment of the key in place
/// (keeping indentation and an `export ` prefix) or appending a new line.
/// Comments, blank lines and the file's line ending are preserved.
pub fn set_value(content: &str, key: &str, value: &str) -> (out: String)
    ensures
        out@ == set_value_s(content@, key@, value@),
{
    let c = chars_of(content);
    let nl = newline_exec(&c);
    let fin = keeps_final_newline_exec(&c);
    let mut ls = split_lines(&c);
    set_lines(&mut ls, &chars_of(key), &chars_of(value));
    string_of(&rebuild_exec(&ls, &nl, fin))
}

/// Remove the first assignment of `key` from a list of lines.
fn remove_lines(ls: &mut Vec<Vec<char>>, key: &Vec<char>)
    ensures
        lines_view(final(ls)@) == remove_lines_s(lines_view(old(ls)@), key@),
{
    let i = find_key_line(ls, key);
    if i < ls.len() {
        let ghost before = ls@;
        ls.remove(i);
        assert(lines_view(ls@) =~= lines_view(before).remove(i as int));
    }
}

/// Remove `key` from `content`, preserving comments and blank lines. When
/// the key is absent the content is returned unchanged.
pub fn remove_key(content: &str, key: &str) -> (out: String)
    ensures
        out@ == remove_key_s(content@, key@),
{
    let c = chars_of(content);
    let nl = newline_exec(&c);
    let fin = keeps_final_newline_exec(&c);
    let mut ls = split_lines(&c);
    let k = chars_of(key);
    if find_key_line(&ls, &k) < ls.len() {
        remove_lines(&mut ls, &k);
        string_of(&rebuild_exec(&ls, &nl, fin))
    } else {
        string_of(&c)
    }
}

/// Whether a comment's text is a commented-out assignment (`KEY=value`).
pub fn is_commented_out_assignment(text: &Vec<char>) -> (r: bool)
    ensures
        r == parse_line_s(text@) is Some,
{
    parse_line(text).is_some()
}

/// Join lines with single spaces.
fn join_spaces(ls: &Vec<Vec<char>>) -> (out: Vec<char>)
    ensures
        out@ == join_s(lines_view(ls@), " "@),
{
    let sp = chars_of(" ");
    crate::text::join(ls, sp.as_slice())
}

/// Append a key's combined comment (pending block + inline) to `out` when
/// it has any text, and clear the pending block.
fn push_attached(
    out: &mut Vec<ParsedComment>,
    key: &Vec<char>,
    pending: &mut Vec<Vec<char>>,
    line: &Vec<char>,
)
    ensures
        comments_view(final(out)@) == attach_s(
            comments_view(old(out)@),
            key@,
            lines_view(old(pending)@),
            line@,
        ),
        final(pending)@.len() == 0,
{
    proof {
        reveal_strlit(" ");
    }
    let ghost joined = join_s(lines_view(pending@), " "@);
    let mut comment = join_spaces(pending);
    let mut lines: Vec<Vec<char>> = Vec::new();
    let mut k: usize = 0;
    while k < pending.len()
        invariant
            k <= pending.len(),
            lines_view(lines@) == lines_view(pending@.take(k as int)),
        decreases pending.len() - k,
    {
        let ghost before = lines@;
        let c = slice(&pending[k], 0, pending[k].len());
        assert(c@ =~= pending@[k as int]@);
        lines.push(c);
        assert(lines_view(lines@) =~= lines_view(before).push(pending@[k as int]@));
        assert(lines_view(pending@.take(k + 1)) =~= lines_view(pending@.take(k as int)).push(
            pending@[k as int]@,
        ));
        k = k + 1;
    }
    assert(pending@.take(pending@.len() as int) =~= pending@);
    match inline_comment_text(line) {
        Some(inline) => {
            if comment.len() > 0 {
                comment.push(' ');
            }
            append(&mut comment, inline.as_slice());
            let ghost before = lines@;
            lines.push(inline);
            assert(lines_view(lines@) =~= lines_view(before).push(inline@));
            assert(comment@ =~= (if joined.len() == 0 {
                inline@
            } else {
                joined + " "@ + inline@
            }));
        },
        None => {},
    }
    if comment.len() > 0 {
        let ghost before = out@;
        let strs = to_strings(&lines);
        out.push(
            ParsedComment { key: string_of(key), comment: string_of(&comment), lines: strs },
        );
        assert(comments_view(out@) =~= comments_view(before).push(
            (key@, comment@, lines_view(lines@)),
        ));
    }
    pending.clear();
}

/// Parse the comment attached to each assignment in dotenv `content`.
///
/// A key's comment is the consecutive prose `#` lines directly above it (a
/// blank line, a non-comment line, or a commented-out assignment breaks the
/// block) plus the inline `# comment` on its own line, joined with single
/// spaces. Keys without any comment are omitted.
pub fn parse_comments(content: &str) -> (out: Vec<ParsedComment>)
    ensures
        comments_view(out@) == comment_state_s(lines_of(content@)).1,
{
    let ls = split_lines(&chars_of(content));
    let mut pending: Vec<Vec<char>> = Vec::new();
    let mut out: Vec<ParsedComment> = Vec::new();
    let mut i: usize = 0;
    while i < ls.len()
        invariant
            i <= ls.len(),
            comment_state_s(lines_view(ls@.take(i as int))) == (
                lines_view(pending@),
                comments_view(out@),
            ),
        decreases ls.len() - i,
    {
        let line = &ls[i];
        assert(lines_view(ls@.take(i + 1)).drop_last() =~= lines_view(ls@.take(i as int)));
        assert(lines_view(ls@.take(i + 1)).last() == line@);
        let t = trim_start(line);
        if t.len() == 0 {
            pending.clear();
            assert(lines_view(pending@) =~= Seq::<Seq<char>>::empty());
        } else if t[0] == '#' {
            let text = comment_text(line);
            if is_commented_out_assignment(&text) {
                pending.clear();
                assert(lines_view(pending@) =~= Seq::<Seq<char>>::empty());
            } else {
                let ghost before = pending@;
                pending.push(text);
                assert(lines_view(pending@) =~= lines_view(before).push(text@));
            }
        } else {
            match parse_line(line) {
                Some((k, _)) => {
                    push_attached(&mut out, &k, &mut pending, line);
                    assert(lines_view(pending@) =~= Seq::<Seq<char>>::empty());
                },
                None => {
                    pending.clear();
                    assert(lines_view(pending@) =~= Seq::<Seq<char>>::empty());
                },
            }
        }
        i = i + 1;
    }
    assert(ls@.take(ls@.len() as int) =~= ls@);
    out
}

} // verus!
