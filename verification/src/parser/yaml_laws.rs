//! What the YAML editor promises across calls: an edit changes only the
//! line of its key (every other line is read back as it was).

use vstd::prelude::*;

use super::dotenv_laws::lemma_escape_no_nl;
use super::yaml::{
    block_end, child_indent, data, find_block, first_from, indent_str, ind, is_k8s_s,
    is_map_key, is_top_key, k8s_key_line, key_in_block, last_child, lemma_first_from_range,
    lemma_last_in_range, map_line, rebuild_yaml, remove_key_s, remove_lines_s, scalar_needs_quote,
    scalar_s, set_flat_s, set_k8s_s, set_value_s, spaces_for, string_data,
};
use super::dotenv::{escape_s, unquote_s};
use super::dotenv_laws::{lemma_escape_plain, lookup_s};
use super::yaml::{body_of, colon_from, mapping_s, strip_inline_s};
use super::{inline_hash, inline_hash_from};
use crate::text::{
    lemma_char_pos_is,
    ends_cr, has_crlf, is_ws, join_s, keeps_final_newline, lemma_lines_rebuild, lemma_lines_shape,
    lemma_no_nl_add, lemma_trim_start_at, lemma_trim_start_idx, lines_of, newline_of, no_nl,
    rebuild, reread, starts_with_s, strip_cr, trim_end_s, trim_s, trim_start_s,
};

verus! {

// ---------------------------------------------------------------------------
// Written lines
// ---------------------------------------------------------------------------

/// Indentation written as spaces holds no line feed.
proof fn lemma_spaces_no_nl(s: Seq<char>)
    ensures
        no_nl(spaces_for(s)),
    decreases s.len(),
{
    if s.len() > 0 {
        lemma_spaces_no_nl(s.drop_last());
        let sp = Seq::new(super::yaml::utf8_len(s.last()), |i: int| ' ');
        assert(no_nl(sp));
        lemma_no_nl_add(spaces_for(s.drop_last()), sp);
    }
}

/// A written mapping line holds no line feed, is not empty and does not end
/// in a carriage return.
proof fn lemma_map_line_shape(indent: Seq<char>, key: Seq<char>, value: Seq<char>)
    requires
        no_nl(indent),
        no_nl(key),
        no_nl(value),
    ensures
        no_nl(map_line(indent, key, value)),
        !ends_cr(map_line(indent, key, value)),
        map_line(indent, key, value).len() > 0,
{
    reveal_strlit(": ");
    let sc = scalar_s(value);
    assert(no_nl(sc) && !ends_cr(sc) && sc.len() > 0) by {
        if value.len() == 0 {
            assert(no_nl(seq!['"', '"']));
        } else if scalar_needs_quote(value) {
            lemma_escape_no_nl(value);
            assert(no_nl(seq!['"']));
            lemma_no_nl_add(seq!['"'], super::dotenv::escape_s(value));
            lemma_no_nl_add(seq!['"'] + super::dotenv::escape_s(value), seq!['"']);
        }
    }
    assert(no_nl(": "@));
    lemma_no_nl_add(indent, key);
    lemma_no_nl_add(indent + key, ": "@);
    lemma_no_nl_add(indent + key + ": "@, sc);
    assert(map_line(indent, key, value).last() == sc.last());
}

proof fn lemma_indent_no_nl(l: Seq<char>)
    ensures
        no_nl(indent_str(l)),
{
    lemma_spaces_no_nl(l.take(ind(l)));
}

// ---------------------------------------------------------------------------
// Writing edited lines back
// ---------------------------------------------------------------------------

/// A non-empty join is at least as long as its last line.
proof fn lemma_join_len(ls: Seq<Seq<char>>, sep: Seq<char>)
    requires
        ls.len() > 0,
    ensures
        join_s(ls, sep).len() >= ls.last().len(),
{
}

/// `rebuild_yaml` is `rebuild` with a final line ending when the content
/// had one or the joined text is empty.
proof fn lemma_rebuild_yaml(ls: Seq<Seq<char>>, content: Seq<char>)
    ensures
        rebuild_yaml(ls, content) == rebuild(
            ls,
            newline_of(content),
            keeps_final_newline(content) || join_s(ls, newline_of(content)).len() == 0,
        ),
{
}

/// Lines that `rebuild` writes so that `lines_of` gives them back.
proof fn lemma_rebuild_same(ls: Seq<Seq<char>>, nl: Seq<char>, fin: bool)
    requires
        ls.len() > 0,
        nl == seq!['\n'] || nl == seq!['\r', '\n'],
        forall|i: int| 0 <= i < ls.len() ==> no_nl(#[trigger] ls[i]),
        !fin ==> ls.last().len() > 0,
        nl == seq!['\n'] ==> forall|i: int|
            0 <= i < ls.len() && (i + 1 < ls.len() || fin) ==> !ends_cr(#[trigger] ls[i]),
    ensures
        lines_of(rebuild(ls, nl, fin)) == ls,
{
    lemma_lines_rebuild(ls, nl, fin);
    assert forall|i: int| 0 <= i < ls.len() implies #[trigger] reread(ls, nl, fin)[i] == ls[i] by {
        if nl == seq!['\n'] && (i + 1 < ls.len() || fin) {
            assert(!ends_cr(ls[i]));
        }
    }
    assert(reread(ls, nl, fin) =~= ls);
}

/// Replacing one line of `content` and writing the lines back reads back as
/// written.
proof fn lemma_update_reads(content: Seq<char>, i: int, x: Seq<char>)
    requires
        0 <= i < lines_of(content).len(),
        no_nl(x),
        !ends_cr(x),
        x.len() > 0,
    ensures
        lines_of(rebuild_yaml(lines_of(content).update(i, x), content)) == lines_of(
            content,
        ).update(i, x),
{
    let ls = lines_of(content);
    let ls2 = ls.update(i, x);
    let nl = newline_of(content);
    let fin = keeps_final_newline(content);
    lemma_lines_shape(content);
    assert forall|m: int| 0 <= m < ls2.len() implies no_nl(#[trigger] ls2[m]) by {
        if m != i {
            assert(ls2[m] == ls[m]);
        }
    }
    assert(!fin ==> ls2.last().len() > 0) by {
        if i != ls.len() - 1 {
            assert(ls2.last() == ls.last());
        }
    }
    lemma_join_len(ls2, nl);
    lemma_rebuild_yaml(ls2, content);
    let f = fin || join_s(ls2, nl).len() == 0;
    assert(f == fin);
    if nl == seq!['\n'] {
        assert forall|m: int| 0 <= m < ls2.len() && (m + 1 < ls2.len() || f) implies !ends_cr(
            #[trigger] ls2[m],
        ) by {
            if m != i {
                assert(ls2[m] == ls[m]);
            }
        }
    }
    lemma_rebuild_same(ls2, nl, f);
}

/// Inserting one line into `content` and writing the lines back reads back
/// as written, unless the line goes after an unterminated last line ending
/// in a carriage return of content without `"\r\n"`.
proof fn lemma_insert_reads(content: Seq<char>, i: int, x: Seq<char>)
    requires
        0 <= i <= lines_of(content).len(),
        no_nl(x),
        !ends_cr(x),
        x.len() > 0,
        !(i == lines_of(content).len() && !has_crlf(content) && content.len() > 0
            && content.last() == '\r'),
    ensures
        lines_of(rebuild_yaml(lines_of(content).insert(i, x), content)) == lines_of(
            content,
        ).insert(i, x),
{
    let ls = lines_of(content);
    let ls2 = ls.insert(i, x);
    let nl = newline_of(content);
    let fin = keeps_final_newline(content);
    lemma_lines_shape(content);
    ls.insert_ensures(i, x);
    assert forall|m: int| 0 <= m < ls2.len() implies no_nl(#[trigger] ls2[m]) by {
        if m < i {
            assert(ls2[m] == ls[m]);
        } else if m > i {
            assert(ls2[(m - 1) + 1] == ls[m - 1]);
        }
    }
    assert(!fin ==> ls2.last().len() > 0) by {
        if i < ls.len() {
            assert(ls2[(ls.len() - 1) + 1] == ls[ls.len() - 1]);
        }
    }
    lemma_join_len(ls2, nl);
    lemma_rebuild_yaml(ls2, content);
    let f = fin || join_s(ls2, nl).len() == 0;
    assert(f == fin);
    if nl == seq!['\n'] {
        assert(!has_crlf(content));
        assert forall|m: int| 0 <= m < ls2.len() && (m + 1 < ls2.len() || f) implies !ends_cr(
            #[trigger] ls2[m],
        ) by {
            if m < i {
                assert(ls2[m] == ls[m]);
                if !(m + 1 < ls.len() || fin) {
                    assert(content.last() == ls.last().last());
                }
            } else if m > i {
                assert(ls2[(m - 1) + 1] == ls[m - 1]);
            }
        }
    }
    lemma_rebuild_same(ls2, nl, f);
}

// ---------------------------------------------------------------------------
// Laws
// ---------------------------------------------------------------------------

/// The lines of YAML content after setting `key`: in a manifest the
/// `stringData:`/`data:` edit, else the flat-mapping edit.
pub open spec fn set_lines_yaml(ls: Seq<Seq<char>>, key: Seq<char>, value: Seq<char>) -> Seq<
    Seq<char>,
> {
    if is_k8s_s(ls) {
        set_k8s_s(ls, key, value)
    } else {
        set_flat_s(ls, key, value)
    }
}

/// Whether setting `key` adds its line after every existing line: the key
/// is absent and its block (or the flat mapping) ends the file.
pub open spec fn set_appends(ls: Seq<Seq<char>>, key: Seq<char>) -> bool {
    if is_k8s_s(ls) {
        let s1 = find_block(ls, string_data());
        let s = if s1 < ls.len() {
            s1
        } else {
            find_block(ls, data())
        };
        k8s_key_line(ls, key) is None && last_child(ls, s) + 1 == ls.len()
    } else {
        first_from(ls, |l: Seq<char>| is_top_key(l, key), 0, ls.len() as int) == ls.len()
    }
}

/// Setting a key in YAML content changes only the line of that key: the
/// lines read back from the new content are the old lines with the key's
/// line rewritten in place, or with one new line inserted (after the last
/// entry of its block in a manifest, at the end of a flat mapping).
/// Comments, blank lines, other keys and their order are kept.
///
/// Holds whenever key and value hold no line feed, except when the new line
/// goes after every existing line and the content, without any `"\r\n"`,
/// ends in a carriage return: that carriage return then becomes part of a
/// `"\r\n"` ending.
pub proof fn law_yaml_set_keeps_other_lines(content: Seq<char>, key: Seq<char>, value: Seq<char>)
    requires
        no_nl(key),
        no_nl(value),
        !(set_appends(lines_of(content), key) && !has_crlf(content) && content.len() > 0
            && content.last() == '\r'),
    ensures
        lines_of(set_value_s(content, key, value)) == set_lines_yaml(
            lines_of(content),
            key,
            value,
        ),
{
    let ls = lines_of(content);
    if is_k8s_s(ls) {
        let s1 = find_block(ls, string_data());
        let s2 = find_block(ls, data());
        lemma_first_from_range(ls, |l: Seq<char>| super::yaml::is_header(l, string_data()), 0, ls.len() as int);
        lemma_first_from_range(ls, |l: Seq<char>| super::yaml::is_header(l, data()), 0, ls.len() as int);
        match k8s_key_line(ls, key) {
            Some(j) => {
                let b = if s1 < ls.len() && key_in_block(ls, s1, key) < block_end(ls, s1) {
                    s1
                } else {
                    s2
                };
                let e = block_end(ls, b);
                lemma_first_from_range(ls, |l: Seq<char>| super::yaml::ends_block(l, ls[b]), b + 1, ls.len() as int);
                lemma_first_from_range(ls, |l: Seq<char>| is_map_key(l, key), b + 1, e);
                assert(j == key_in_block(ls, b, key));
                assert(0 <= j < ls.len());
                lemma_indent_no_nl(ls[j]);
                lemma_map_line_shape(indent_str(ls[j]), key, value);
                lemma_update_reads(content, j, map_line(indent_str(ls[j]), key, value));
            },
            None => {
                let s = if s1 < ls.len() {
                    s1
                } else {
                    s2
                };
                let e = block_end(ls, s);
                lemma_first_from_range(ls, |l: Seq<char>| super::yaml::ends_block(l, ls[s]), s + 1, ls.len() as int);
                lemma_last_in_range(ls, |l: Seq<char>| !super::yaml::is_blank(l), s + 1, e, s);
                let pos = last_child(ls, s) + 1;
                assert(0 <= pos <= ls.len());
                let ci = child_indent(ls, s);
                let f = first_from(ls, |l: Seq<char>| !super::yaml::is_blank(l), s + 1, e);
                lemma_first_from_range(ls, |l: Seq<char>| !super::yaml::is_blank(l), s + 1, e);
                assert(no_nl(ci)) by {
                    if f < e {
                        lemma_indent_no_nl(ls[f]);
                    } else {
                        reveal_strlit("  ");
                        lemma_indent_no_nl(ls[s]);
                        assert(no_nl("  "@));
                        lemma_no_nl_add(indent_str(ls[s]), "  "@);
                    }
                }
                lemma_map_line_shape(ci, key, value);
                lemma_insert_reads(content, pos, map_line(ci, key, value));
            },
        }
    } else {
        let p = |l: Seq<char>| is_top_key(l, key);
        let j = first_from(ls, p, 0, ls.len() as int);
        lemma_first_from_range(ls, p, 0, ls.len() as int);
        assert(no_nl(Seq::<char>::empty()));
        lemma_map_line_shape(seq![], key, value);
        if j < ls.len() {
            lemma_update_reads(content, j, map_line(seq![], key, value));
        } else {
            assert(ls.push(map_line(seq![], key, value)) =~= ls.insert(
                ls.len() as int,
                map_line(seq![], key, value),
            ));
            lemma_insert_reads(content, ls.len() as int, map_line(seq![], key, value));
        }
    }
}

/// The block a new key of a manifest goes into: `stringData:` where the
/// document has it, else `data:`.
pub open spec fn preferred_block(ls: Seq<Seq<char>>) -> int {
    let s1 = find_block(ls, string_data());
    if s1 < ls.len() {
        s1
    } else {
        find_block(ls, data())
    }
}

/// A key new to a manifest lands inside the preferred block: the new
/// content's lines are the old ones with a single line, mapping the key to
/// the value, inserted after the block's header and no later than the
/// block's end.
///
/// Holds under the conditions of `law_yaml_set_keeps_other_lines`.
pub proof fn law_yaml_new_key_in_block(content: Seq<char>, key: Seq<char>, value: Seq<char>)
    requires
        is_k8s_s(lines_of(content)),
        k8s_key_line(lines_of(content), key) is None,
        no_nl(key),
        no_nl(value),
        !(set_appends(lines_of(content), key) && !has_crlf(content) && content.len() > 0
            && content.last() == '\r'),
    ensures
        ({
            let ls = lines_of(content);
            let b = preferred_block(ls);
            exists|p: int|
                b < p <= block_end(ls, b) && lines_of(set_value_s(content, key, value)) == ls.insert(
                    p,
                    map_line(child_indent(ls, b), key, value),
                )
        }),
{
    law_yaml_set_keeps_other_lines(content, key, value);
    let ls = lines_of(content);
    let b = preferred_block(ls);
    lemma_first_from_range(ls, |l: Seq<char>| super::yaml::is_header(l, string_data()), 0, ls.len() as int);
    lemma_first_from_range(ls, |l: Seq<char>| super::yaml::is_header(l, data()), 0, ls.len() as int);
    assert(0 <= b < ls.len());
    lemma_first_from_range(ls, |l: Seq<char>| super::yaml::ends_block(l, ls[b]), b + 1, ls.len() as int);
    lemma_last_in_range(ls, |l: Seq<char>| !super::yaml::is_blank(l), b + 1, block_end(ls, b), b);
    let p = last_child(ls, b) + 1;
    assert(b < p <= block_end(ls, b));
    assert(lines_of(set_value_s(content, key, value)) == ls.insert(p, map_line(child_indent(ls, b), key, value)));
}

/// Removing a key from YAML content deletes only the first line that maps
/// it: the lines read back from the new content are the old lines without
/// that one (all of them when no line maps the key).
///
/// Content in which no line maps the key comes back as it was. Otherwise
/// this holds except where the remaining lines cannot be written back as
/// they are: none remain (the result is then a lone line ending), or the
/// content has no final line ending and the last of two or more remaining
/// lines is empty.
pub proof fn law_yaml_remove_keeps_other_lines(content: Seq<char>, key: Seq<char>)
    requires
        first_from(lines_of(content), |l: Seq<char>| is_map_key(l, key), 0, lines_of(content).len() as int)
            < lines_of(content).len() ==> remove_lines_s(lines_of(content), key).len() > 0,
        first_from(lines_of(content), |l: Seq<char>| is_map_key(l, key), 0, lines_of(content).len() as int)
            < lines_of(content).len() ==> !(!keeps_final_newline(content) && remove_lines_s(
            lines_of(content),
            key,
        ).len() >= 2 && remove_lines_s(lines_of(content), key).last().len() == 0),
    ensures
        lines_of(remove_key_s(content, key)) == remove_lines_s(lines_of(content), key),
{
    if !(first_from(lines_of(content), |l: Seq<char>| is_map_key(l, key), 0, lines_of(content).len() as int) < lines_of(content).len()) {
        assert(remove_key_s(content, key) == content);
    } else {
        let ls = lines_of(content);
        let ls2 = remove_lines_s(ls, key);
        let nl = newline_of(content);
        let fin = keeps_final_newline(content);
        let p = |l: Seq<char>| is_map_key(l, key);
        let i0 = first_from(ls, p, 0, ls.len() as int);
        lemma_first_from_range(ls, p, 0, ls.len() as int);
        lemma_lines_shape(content);
        lemma_rebuild_yaml(ls2, content);
        let f = fin || join_s(ls2, nl).len() == 0;
        assert forall|i: int| 0 <= i < ls2.len() implies #[trigger] ls2[i] == (if i0 < ls.len() && i
            >= i0 {
            ls[i + 1]
        } else {
            ls[i]
        }) by {}
        assert forall|i: int| 0 <= i < ls2.len() implies no_nl(#[trigger] ls2[i]) by {
            if i0 < ls.len() && i >= i0 {
                assert(ls2[i] == ls[i + 1]);
            } else {
                assert(ls2[i] == ls[i]);
            }
        }
        assert(f && !fin ==> ls2.len() == 1 && ls2[0].len() == 0) by {
            if ls2.len() >= 2 {
                assert(join_s(ls2, nl) == join_s(ls2.drop_last(), nl) + nl + ls2.last());
            }
        }
        if nl == seq!['\n'] {
            assert(!has_crlf(content));
            assert forall|i: int| 0 <= i < ls2.len() && (i + 1 < ls2.len() || f) implies !ends_cr(
                #[trigger] ls2[i],
            ) by {
                if f && !fin && i + 1 >= ls2.len() {
                    assert(ls2[i].len() == 0);
                } else if i0 < ls.len() && i >= i0 {
                    assert(ls2[i] == ls[i + 1]);
                    assert(i + 1 + 1 < ls.len() || fin);
                } else {
                    assert(ls2[i] == ls[i]);
                    assert(i + 1 < ls.len() || fin);
                }
            }
        }
        lemma_rebuild_same(ls2, nl, f);
    }
}

// ---------------------------------------------------------------------------
// Reading written entries back
// ---------------------------------------------------------------------------

/// A key that a written `key: value` line reads back as: one line, not
/// empty, no surrounding whitespace, not a comment or list marker, and the
/// `: ` that follows it is the first key colon of the line.
pub open spec fn key_reads(key: Seq<char>) -> bool {
    &&& no_nl(key)
    &&& key.len() > 0
    &&& !is_ws(key[0])
    &&& !is_ws(key.last())
    &&& key[0] != '#'
    &&& !starts_with_s(key, "- "@)
    &&& colon_from(key + ": "@, 0, false, false) == Some(key.len() as int)
}

/// A value that reads back as written: no line feed; written bare, it holds
/// no unquoted inline comment marker; written in double quotes, it holds no
/// double quote or backslash (the reader strips the quotes but does not undo
/// escapes).
pub open spec fn value_reads(v: Seq<char>) -> bool {
    &&& no_nl(v)
    &&& if v.len() > 0 && !scalar_needs_quote(v) {
        inline_hash(v) is None
    } else {
        forall|i: int| 0 <= i < v.len() ==> #[trigger] v[i] != '"' && v[i] != '\\'
    }
}

/// The colon scan over a prefix decides alone when it stops before the
/// prefix's last character.
proof fn lemma_colon_prefix(p: Seq<char>, q: Seq<char>, i: int, sq: bool, dq: bool, k: int)
    requires
        0 <= i,
        colon_from(p, i, sq, dq) == Some(k),
        k + 1 < p.len(),
    ensures
        colon_from(p + q, i, sq, dq) == Some(k),
    decreases p.len() - i,
{
    super::yaml::lemma_colon_range(p, i, sq, dq);
    let s = p + q;
    assert(s[i] == p[i]);
    if i + 1 < p.len() {
        assert(s[i + 1] == p[i + 1]);
    }
    if p[i] == '\'' && !dq {
        lemma_colon_prefix(p, q, i + 1, !sq, dq, k);
    } else if p[i] == '"' && !sq {
        lemma_colon_prefix(p, q, i + 1, sq, !dq, k);
    } else if p[i] == ':' && !sq && !dq && (i + 1 == p.len() || p[i + 1] == ' ' || p[i + 1]
        == '\t') {
    } else {
        lemma_colon_prefix(p, q, i + 1, sq, dq, k);
    }
}

/// Inside double quotes the comment scan passes over everything but a
/// double quote.
proof fn lemma_hash_in_quotes(s: Seq<char>, i: int, e: int)
    requires
        0 <= i <= e < s.len(),
        forall|j: int| i <= j < e ==> #[trigger] s[j] != '"',
    ensures
        inline_hash_from(s, i, false, true) == inline_hash_from(s, e, false, true),
    decreases e - i,
{
    if i < e {
        lemma_hash_in_quotes(s, i + 1, e);
    }
}

/// A written scalar starts and ends with non-whitespace and reads back as
/// the value.
proof fn lemma_scalar_reads(v: Seq<char>)
    requires
        value_reads(v),
    ensures
        scalar_s(v).len() > 0,
        !is_ws(scalar_s(v)[0]),
        !is_ws(scalar_s(v).last()),
        unquote_s(strip_inline_s(scalar_s(v))) == v,
{
    let sc = scalar_s(v);
    if v.len() > 0 && !scalar_needs_quote(v) {
        assert(!super::yaml::special_start(v[0]));
    } else {
        lemma_escape_plain(v);
        let q = seq!['"'] + v + seq!['"'];
        assert(sc =~= q);
        assert forall|j: int| 1 <= j < q.len() - 1 implies #[trigger] q[j] != '"' by {
            assert(q[j] == v[j - 1]);
        }
        lemma_hash_in_quotes(q, 1, q.len() - 1);
        assert(inline_hash_from(q, q.len() - 1, false, true) == inline_hash_from(
            q,
            q.len() as int,
            false,
            false,
        ));
        assert(inline_hash(q) is None);
        assert(q.subrange(1, q.len() - 1) =~= v);
    }
}

/// A written top-level `key: value` line maps the key to the value.
proof fn lemma_map_line_reads(key: Seq<char>, value: Seq<char>)
    requires
        key_reads(key),
        value_reads(value),
    ensures
        mapping_s(map_line(seq![], key, value)) == Some((0int, key, value)),
{
    reveal_strlit(": ");
    reveal_strlit("- ");
    let sc = scalar_s(value);
    lemma_scalar_reads(value);
    let l = map_line(seq![], key, value);
    let p = key + ": "@;
    assert(l =~= p + sc);
    assert(l[0] == key[0]);
    assert(trim_start_s(l) == l);
    assert(l.last() == sc.last());
    assert(trim_end_s(l) == l);
    assert(body_of(l) == l);
    assert(!starts_with_s(l, "- "@)) by {
        if key.len() >= 2 {
            assert(l.take(2) =~= key.take(2));
        } else {
            assert(l.take(2)[1] == ':');
        }
    }
    lemma_colon_prefix(p, sc, 0, false, false, key.len() as int);
    assert(l.take(key.len() as int) =~= key);
    assert(trim_start_s(key) == key);
    assert(trim_end_s(key) == key);
    let rest = l.skip(key.len() as int + 1);
    assert(rest =~= seq![' '] + sc);
    assert(rest.drop_first() =~= sc);
    assert(trim_start_s(sc) == sc);
    assert(trim_start_s(rest) == sc);
    assert(trim_end_s(sc) == sc);
}

/// Dropping a trailing carriage return does not change how a line maps.
proof fn lemma_mapping_strip_cr(l: Seq<char>)
    ensures
        mapping_s(strip_cr(l)) == mapping_s(l),
{
    if ends_cr(l) {
        let l2 = l.drop_last();
        let j = lemma_trim_start_idx(l);
        if j == l.len() {
            assert forall|i: int| 0 <= i < l2.len() implies is_ws(#[trigger] l2[i]) by {
                assert(l2[i] == l[i]);
            }
            lemma_trim_start_at(l2, l2.len() as int);
            assert(trim_start_s(l2).len() == 0);
            assert(trim_end_s(trim_start_s(l2)).len() == 0);
        } else {
            assert(is_ws(l[l.len() - 1]));
            assert(j < l.len() - 1);
            assert forall|i: int| 0 <= i < j implies is_ws(#[trigger] l2[i]) by {
                assert(l2[i] == l[i]);
            }
            assert(l2[j] == l[j]);
            lemma_trim_start_at(l2, j);
            let t = trim_start_s(l);
            assert(trim_start_s(l2) =~= t.drop_last());
            assert(t.len() > 0 && is_ws(t.last()));
            assert(trim_end_s(t) == trim_end_s(t.drop_last()));
            assert(body_of(l2) == body_of(l));
            assert(super::yaml::ind(l2) == super::yaml::ind(l));
        }
    }
}

/// `first_from` from `j` is `i` when no line in `[j, i)` satisfies `p` and
/// line `i` does (or `i` is the end).
proof fn lemma_first_from_at(
    ls: Seq<Seq<char>>,
    p: spec_fn(Seq<char>) -> bool,
    j: int,
    i: int,
    end: int,
)
    requires
        0 <= j <= i <= end <= ls.len(),
        forall|m: int| j <= m < i ==> !p(#[trigger] ls[m]),
        i == end || p(ls[i]),
    ensures
        first_from(ls, p, j, end) == i,
    decreases i - j,
{
    if j < i {
        lemma_first_from_at(ls, p, j + 1, i, end);
    }
}

/// No line before what `first_from` finds satisfies `p`.
proof fn lemma_first_from_before(ls: Seq<Seq<char>>, p: spec_fn(Seq<char>) -> bool, j: int, end: int)
    requires
        0 <= j <= end <= ls.len(),
    ensures
        forall|m: int| j <= m < first_from(ls, p, j, end) ==> !p(#[trigger] ls[m]),
    decreases end - j,
{
    if j < end && !p(ls[j]) {
        lemma_first_from_before(ls, p, j + 1, end);
    }
}

/// Reading back a value just set in a flat YAML mapping gives it: in the
/// lines of the new content the first top-level line for the key maps it
/// to the value written.
///
/// Holds for every key and value that a written entry reads back as
/// (`key_reads`, `value_reads`).
pub proof fn law_yaml_flat_set_reads_back(content: Seq<char>, key: Seq<char>, value: Seq<char>)
    requires
        !is_k8s_s(lines_of(content)),
        key_reads(key),
        value_reads(value),
    ensures
        ({
            let ls = lines_of(set_value_s(content, key, value));
            let i = first_from(ls, |l: Seq<char>| is_top_key(l, key), 0, ls.len() as int);
            i < ls.len() && mapping_s(ls[i]) == Some((0int, key, value))
        }),
        value.len() > 0 ==> !is_k8s_s(lines_of(set_value_s(content, key, value))),
{
    let ls = lines_of(content);
    let hs = |l: Seq<char>| super::yaml::is_header(l, string_data());
    let hd = |l: Seq<char>| super::yaml::is_header(l, data());
    lemma_first_from_range(ls, hs, 0, ls.len() as int);
    lemma_first_from_range(ls, hd, 0, ls.len() as int);
    lemma_first_from_before(ls, hs, 0, ls.len() as int);
    lemma_first_from_before(ls, hd, 0, ls.len() as int);
    let p = |l: Seq<char>| is_top_key(l, key);
    let nw = map_line(seq![], key, value);
    let j = first_from(ls, p, 0, ls.len() as int);
    lemma_first_from_range(ls, p, 0, ls.len() as int);
    lemma_first_from_before(ls, p, 0, ls.len() as int);
    lemma_map_line_reads(key, value);
    assert(p(nw));
    let out = lines_of(set_value_s(content, key, value));
    let excluded = j == ls.len() && !has_crlf(content) && content.len() > 0 && content.last()
        == '\r';
    if !excluded {
        law_yaml_set_keeps_other_lines(content, key, value);
        if j < ls.len() {
            assert forall|m: int| 0 <= m < j implies !p(#[trigger] out[m]) by {
                assert(out[m] == ls[m]);
            }
            lemma_first_from_at(out, p, 0, j, out.len() as int);
            if value.len() > 0 {
                assert forall|m: int| 0 <= m < out.len() implies !hs(#[trigger] out[m]) && !hd(out[m]) by {
                    if m != j {
                        assert(out[m] == ls[m]);
                    }
                }
            }
        } else {
            assert forall|m: int| 0 <= m < ls.len() implies !p(#[trigger] out[m]) by {
                assert(out[m] == ls[m]);
            }
            lemma_first_from_at(out, p, 0, ls.len() as int, out.len() as int);
            if value.len() > 0 {
                assert forall|m: int| 0 <= m < out.len() implies !hs(#[trigger] out[m]) && !hd(out[m]) by {
                    if m < ls.len() {
                        assert(out[m] == ls[m]);
                    }
                }
            }
        }
        if value.len() > 0 {
            lemma_first_from_at(out, hs, 0, out.len() as int, out.len() as int);
            lemma_first_from_at(out, hd, 0, out.len() as int, out.len() as int);
        }
    } else {
        // The old last line gains a `"\r\n"` ending; it maps as before.
        let ls2 = ls.push(nw);
        let nl = newline_of(content);
        let fin = keeps_final_newline(content);
        lemma_lines_shape(content);
        lemma_map_line_shape(seq![], key, value);
        assert forall|i: int| 0 <= i < ls2.len() implies no_nl(#[trigger] ls2[i]) by {
            if i < ls.len() {
                assert(ls2[i] == ls[i]);
            }
        }
        lemma_rebuild_yaml(ls2, content);
        lemma_join_len(ls2, nl);
        assert(!fin);
        lemma_lines_rebuild(ls2, nl, fin);
        assert(out == reread(ls2, nl, fin));
        assert forall|m: int| 0 <= m < ls.len() implies !p(#[trigger] out[m]) by {
            assert(ls2[m] == ls[m]);
            lemma_mapping_strip_cr(ls[m]);
        }
        assert(out[ls.len() as int] == nw);
        lemma_first_from_at(out, p, 0, ls.len() as int, out.len() as int);
        if value.len() > 0 {
            assert forall|m: int| 0 <= m < out.len() implies !hs(#[trigger] out[m]) && !hd(out[m]) by {
                if m < ls.len() {
                    assert(ls2[m] == ls[m]);
                    lemma_mapping_strip_cr(ls[m]);
                }
            }
            lemma_first_from_at(out, hs, 0, out.len() as int, out.len() as int);
            lemma_first_from_at(out, hd, 0, out.len() as int, out.len() as int);
        }
    }
}

// ---------------------------------------------------------------------------
// Manifests: blocks are found again after an edit
// ---------------------------------------------------------------------------

/// Indentation written as spaces: all spaces, at least one per character.
proof fn lemma_spaces_shape(s: Seq<char>)
    ensures
        spaces_for(s).len() >= s.len(),
        forall|i: int| 0 <= i < spaces_for(s).len() ==> #[trigger] spaces_for(s)[i] == ' ',
    decreases s.len(),
{
    if s.len() > 0 {
        lemma_spaces_shape(s.drop_last());
        let a = spaces_for(s.drop_last());
        let sp = Seq::new(super::yaml::utf8_len(s.last()), |i: int| ' ');
        assert(spaces_for(s) == a + sp);
        assert forall|i: int| 0 <= i < (a + sp).len() implies #[trigger] (a + sp)[i] == ' ' by {
            if i >= a.len() {
                assert((a + sp)[i] == sp[i - a.len()]);
            }
        }
    }
}

/// Whether every character of `s` is a space.
pub open spec fn all_spaces(s: Seq<char>) -> bool {
    forall|i: int| 0 <= i < s.len() ==> #[trigger] s[i] == ' '
}

/// An indented `key: value` line maps the key to the value at the depth of
/// its indentation.
proof fn lemma_map_line_reads_at(indent: Seq<char>, key: Seq<char>, value: Seq<char>)
    requires
        key_reads(key),
        value_reads(value),
        all_spaces(indent),
    ensures
        mapping_s(map_line(indent, key, value)) == Some((indent.len() as int, key, value)),
        !super::yaml::is_blank(map_line(indent, key, value)),
        ind(map_line(indent, key, value)) == indent.len(),
{
    reveal_strlit(": ");
    lemma_map_line_reads(key, value);
    let l0 = map_line(seq![], key, value);
    let l = map_line(indent, key, value);
    assert(l =~= indent + l0);
    assert(l0[0] == key[0]);
    assert forall|i: int| 0 <= i < indent.len() implies is_ws(#[trigger] l[i]) by {
        assert(l[i] == indent[i]);
    }
    assert(l[indent.len() as int] == l0[0]);
    lemma_trim_start_at(l, indent.len() as int);
    assert(l.skip(indent.len() as int) =~= l0);
    assert(trim_start_s(l0) == l0);
    assert(body_of(l) == body_of(l0));
}

/// Dropping a trailing carriage return keeps a line blank or not, and the
/// indentation of a non-blank line.
proof fn lemma_strip_cr_shape(l: Seq<char>)
    ensures
        super::yaml::is_blank(strip_cr(l)) == super::yaml::is_blank(l),
        !super::yaml::is_blank(l) ==> ind(strip_cr(l)) == ind(l),
{
    if ends_cr(l) {
        let l2 = l.drop_last();
        let j = lemma_trim_start_idx(l);
        if j == l.len() {
            assert forall|i: int| 0 <= i < l2.len() implies is_ws(#[trigger] l2[i]) by {
                assert(l2[i] == l[i]);
            }
            lemma_trim_start_at(l2, l2.len() as int);
        } else {
            assert(is_ws(l[l.len() - 1]));
            assert forall|i: int| 0 <= i < j implies is_ws(#[trigger] l2[i]) by {
                assert(l2[i] == l[i]);
            }
            assert(l2[j] == l[j]);
            lemma_trim_start_at(l2, j);
        }
    }
}

/// `first_from` agrees on two line lists whose lines agree on the
/// predicates over the range.
proof fn lemma_first_from_same(
    a: Seq<Seq<char>>,
    b: Seq<Seq<char>>,
    p: spec_fn(Seq<char>) -> bool,
    q: spec_fn(Seq<char>) -> bool,
    i: int,
    end: int,
)
    requires
        0 <= i <= end <= a.len(),
        end <= b.len(),
        forall|m: int| i <= m < end ==> #[trigger] p(a[m]) == q(b[m]),
    ensures
        first_from(a, p, i, end) == first_from(b, q, i, end),
    decreases end - i,
{
    if i < end {
        lemma_first_from_same(a, b, p, q, i + 1, end);
    }
}

/// `first_from` after inserting `x` at `pos`, within a range that covers
/// `pos`.
proof fn lemma_first_from_insert(
    ls: Seq<Seq<char>>,
    x: Seq<char>,
    p: spec_fn(Seq<char>) -> bool,
    i: int,
    pos: int,
    end: int,
)
    requires
        0 <= i <= pos <= end <= ls.len(),
    ensures
        first_from(ls.insert(pos, x), p, i, end + 1) == (if first_from(ls, p, i, end) < pos {
            first_from(ls, p, i, end)
        } else if p(x) {
            pos
        } else {
            first_from(ls, p, i, end) + 1
        }),
{
    let l2 = ls.insert(pos, x);
    ls.insert_ensures(pos, x);
    let f = first_from(ls, p, i, end);
    lemma_first_from_range(ls, p, i, end);
    lemma_first_from_before(ls, p, i, end);
    if f < pos {
        assert forall|m: int| i <= m < f implies !p(#[trigger] l2[m]) by {
            assert(l2[m] == ls[m]);
        }
        assert(l2[f] == ls[f]);
        lemma_first_from_at(l2, p, i, f, end + 1);
    } else if p(x) {
        assert forall|m: int| i <= m < pos implies !p(#[trigger] l2[m]) by {
            assert(l2[m] == ls[m]);
        }
        lemma_first_from_at(l2, p, i, pos, end + 1);
    } else {
        assert forall|m: int| i <= m < f + 1 implies !p(#[trigger] l2[m]) by {
            if m < pos {
                assert(l2[m] == ls[m]);
            } else if m > pos {
                assert(l2[(m - 1) + 1] == ls[m - 1]);
            }
        }
        if f < end {
            assert(l2[f + 1] == ls[f]);
        }
        lemma_first_from_at(l2, p, i, f + 1, end + 1);
    }
}

/// A block header line is top-level and not blank.
proof fn lemma_header_shape(l: Seq<char>, name: Seq<char>)
    requires
        super::yaml::is_header(l, name),
    ensures
        ind(l) == 0,
        !super::yaml::is_blank(l),
{
}

/// A line that maps a key is not blank.
proof fn lemma_mapping_not_blank(l: Seq<char>)
    requires
        mapping_s(l) is Some,
    ensures
        !super::yaml::is_blank(l),
{
    if super::yaml::is_blank(l) {
        assert(trim_start_s(l).len() == 0);
        assert(trim_end_s(trim_start_s(l)) =~= Seq::<char>::empty());
    }
}

/// A non-blank line inside a block is indented deeper than its top-level
/// header.
proof fn lemma_in_block(ls: Seq<Seq<char>>, s: int, m: int)
    requires
        0 <= s < ls.len(),
        ind(ls[s]) == 0,
        s < m < block_end(ls, s),
        !super::yaml::is_blank(ls[m]),
    ensures
        ind(ls[m]) > 0,
{
    let p = |l: Seq<char>| super::yaml::ends_block(l, ls[s]);
    lemma_first_from_before(ls, p, s + 1, ls.len() as int);
    assert(!p(ls[m]));
}

/// The value a mapping line gives its key (empty for other lines).
pub open spec fn mapped_value(l: Seq<char>) -> Seq<char> {
    match mapping_s(l) {
        Some((_, _, v)) => v,
        None => seq![],
    }
}

/// Written indentation for an entry: spaces, at least one.
proof fn lemma_indent_str_shape(l: Seq<char>)
    requires
        !super::yaml::is_blank(l),
        ind(l) > 0,
    ensures
        all_spaces(indent_str(l)),
        indent_str(l).len() > 0,
{
    let j = lemma_trim_start_idx(l);
    lemma_spaces_shape(l.take(ind(l)));
}

/// Reading back a value just set in a Kubernetes manifest gives it: the
/// content is still a manifest, and the key's entry, looked up in
/// `stringData:` and then `data:` as the editor looks it up, maps the key to
/// the value written.
///
/// Holds for every key and value that a written entry reads back as
/// (`key_reads`, `value_reads`).
#[verifier::rlimit(80)]
#[verifier::spinoff_prover]
pub proof fn law_yaml_k8s_set_reads_back(content: Seq<char>, key: Seq<char>, value: Seq<char>)
    requires
        is_k8s_s(lines_of(content)),
        key_reads(key),
        value_reads(value),
    ensures
        ({
            let ls = lines_of(set_value_s(content, key, value));
            let j = k8s_key_line(ls, key)->0;
            &&& is_k8s_s(ls)
            &&& k8s_key_line(ls, key) is Some
            &&& 0 <= j < ls.len()
            &&& is_map_key(ls[j], key)
            &&& mapped_value(ls[j]) == value
        }),
{
    let ls = lines_of(content);
    let n = ls.len() as int;
    let hs = |l: Seq<char>| super::yaml::is_header(l, string_data());
    let hd = |l: Seq<char>| super::yaml::is_header(l, data());
    let s1 = find_block(ls, string_data());
    let s2 = find_block(ls, data());
    lemma_first_from_range(ls, hs, 0, n);
    lemma_first_from_range(ls, hd, 0, n);
    if s1 < n {
        lemma_header_shape(ls[s1], string_data());
    }
    if s2 < n {
        lemma_header_shape(ls[s2], data());
    }
    let out = lines_of(set_value_s(content, key, value));
    match k8s_key_line(ls, key) {
        Some(j) => {
            let b = if s1 < n && key_in_block(ls, s1, key) < block_end(ls, s1) {
                s1
            } else {
                s2
            };
            let e = block_end(ls, b);
            lemma_first_from_range(ls, |l: Seq<char>| super::yaml::ends_block(l, ls[b]), b + 1, n);
            let mk = |l: Seq<char>| is_map_key(l, key);
            lemma_first_from_range(ls, mk, b + 1, e);
            assert(j == key_in_block(ls, b, key));
            assert(b + 1 <= j < e);
            lemma_mapping_not_blank(ls[j]);
            lemma_in_block(ls, b, j);
            let ci = indent_str(ls[j]);
            lemma_indent_str_shape(ls[j]);
            let nw = map_line(ci, key, value);
            lemma_map_line_reads_at(ci, key, value);
            law_yaml_set_keeps_other_lines(content, key, value);
            assert(out == ls.update(j, nw));
            // The edited line is neither a header nor a block end, and maps
            // the key as the old one did.
            assert forall|m: int| 0 <= m < n implies #[trigger] hs(ls[m]) == hs(out[m]) && hd(ls[m])
                == hd(out[m]) && mk(ls[m]) == mk(out[m]) by {
                if m != j {
                    assert(out[m] == ls[m]);
                }
            }
            lemma_first_from_same(ls, out, hs, hs, 0, n);
            lemma_first_from_same(ls, out, hd, hd, 0, n);
            assert forall|s: int| 0 <= s < n && ind(ls[s]) == 0 && !super::yaml::is_blank(ls[s])
                implies #[trigger] block_end(out, s) == block_end(ls, s) && key_in_block(out, s, key)
                == key_in_block(ls, s, key) by {
                assert(s != j);
                assert(out[s] == ls[s]);
                let eo = |l: Seq<char>| super::yaml::ends_block(l, out[s]);
                let el = |l: Seq<char>| super::yaml::ends_block(l, ls[s]);
                assert forall|m: int| s + 1 <= m < n implies #[trigger] el(ls[m]) == eo(out[m]) by {
                    if m != j {
                        assert(out[m] == ls[m]);
                    }
                }
                lemma_first_from_same(ls, out, el, eo, s + 1, n);
                lemma_first_from_range(ls, el, s + 1, n);
                lemma_first_from_same(ls, out, mk, mk, s + 1, block_end(ls, s));
            }
            assert(out[j] == nw);
        },
        None => {
            let s = if s1 < n {
                s1
            } else {
                s2
            };
            assert(s < n);
            let e = block_end(ls, s);
            let eb = |l: Seq<char>| super::yaml::ends_block(l, ls[s]);
            lemma_first_from_range(ls, eb, s + 1, n);
            let nb = |l: Seq<char>| !super::yaml::is_blank(l);
            lemma_last_in_range(ls, nb, s + 1, e, s);
            let pos = last_child(ls, s) + 1;
            assert(s + 1 <= pos <= e);
            let f = first_from(ls, nb, s + 1, e);
            lemma_first_from_range(ls, nb, s + 1, e);
            let ci = child_indent(ls, s);
            assert(all_spaces(ci) && ci.len() > 0) by {
                if f < e {
                    lemma_in_block(ls, s, f);
                    lemma_indent_str_shape(ls[f]);
                } else {
                    reveal_strlit("  ");
                    let j0 = lemma_trim_start_idx(ls[s]);
                    lemma_spaces_shape(ls[s].take(ind(ls[s])));
                    let a = indent_str(ls[s]);
                    assert forall|i: int| 0 <= i < (a + "  "@).len() implies #[trigger] (a
                        + "  "@)[i] == ' ' by {
                        if i >= a.len() {
                            assert((a + "  "@)[i] == "  "@[i - a.len()]);
                        }
                    }
                }
            }
            let nw = map_line(ci, key, value);
            lemma_map_line_reads_at(ci, key, value);
            let mk = |l: Seq<char>| is_map_key(l, key);
            lemma_first_from_range(ls, mk, s + 1, e);
            assert(key_in_block(ls, s, key) == e);
            // The old lines as read back from the new content.
            let excluded = pos == n && !has_crlf(content) && content.len() > 0 && content.last()
                == '\r';
            let old = if excluded {
                ls.update(n - 1, strip_cr(ls[n - 1]))
            } else {
                ls
            };
            assert(set_k8s_s(ls, key, value) == ls.insert(pos, nw));
            if excluded {
                let nls = newline_of(content);
                let ls2 = ls.insert(pos, nw);
                ls.insert_ensures(pos, nw);
                lemma_lines_shape(content);
                assert(no_nl(ci)) by {
                    assert forall|i: int| 0 <= i < ci.len() implies ci[i] != '\n' by {
                        assert(ci[i] == ' ');
                    }
                }
                lemma_map_line_shape(ci, key, value);
                assert forall|i: int| 0 <= i < ls2.len() implies no_nl(#[trigger] ls2[i]) by {
                    if i < n {
                        assert(ls2[i] == ls[i]);
                    }
                }
                lemma_rebuild_yaml(ls2, content);
                lemma_join_len(ls2, nls);
                lemma_lines_rebuild(ls2, nls, false);
                assert forall|i: int| 0 <= i < out.len() implies #[trigger] out[i] == old.insert(
                    pos,
                    nw,
                )[i] by {
                    old.insert_ensures(pos, nw);
                    if i < n - 1 {
                        assert(ls2[i] == ls[i]);
                        assert(!ends_cr(ls[i]));
                    } else if i == n - 1 {
                        assert(ls2[i] == ls[i]);
                    }
                }
                assert(out =~= old.insert(pos, nw));
            } else {
                law_yaml_set_keeps_other_lines(content, key, value);
            }
            assert(out == old.insert(pos, nw));
            // The old lines, as read back, agree with the content's lines on
            // every predicate that locates blocks and entries.
            assert forall|m: int| 0 <= m < n implies mapping_s(#[trigger] old[m]) == mapping_s(ls[m])
                && super::yaml::is_blank(old[m]) == super::yaml::is_blank(ls[m]) && (
                !super::yaml::is_blank(ls[m]) ==> ind(old[m]) == ind(ls[m])) by {
                lemma_mapping_strip_cr(ls[m]);
                lemma_strip_cr_shape(ls[m]);
            }
            assert forall|m: int| 0 <= m < n implies #[trigger] hs(ls[m]) == hs(old[m]) by {
                assert(mapping_s(old[m]) == mapping_s(ls[m]));
            }
            assert forall|m: int| 0 <= m < n implies #[trigger] hd(ls[m]) == hd(old[m]) by {
                assert(mapping_s(old[m]) == mapping_s(ls[m]));
            }
            assert forall|m: int| 0 <= m < n implies #[trigger] mk(ls[m]) == mk(old[m]) by {
                assert(mapping_s(old[m]) == mapping_s(ls[m]));
            }
            lemma_first_from_same(ls, old, hs, hs, 0, n);
            lemma_first_from_same(ls, old, hd, hd, 0, n);
            let eo = |l: Seq<char>| super::yaml::ends_block(l, old[s]);
            assert(!super::yaml::is_blank(ls[s]) && ind(ls[s]) == 0);
            assert(ind(old[s]) == 0);
            assert forall|m: int| s + 1 <= m < n implies #[trigger] eb(ls[m]) == eo(old[m]) by {
                assert(super::yaml::is_blank(old[m]) == super::yaml::is_blank(ls[m]));
            }
            lemma_first_from_same(ls, old, eb, eo, s + 1, n);
            lemma_first_from_same(ls, old, mk, mk, s + 1, e);
            // Inserting the entry keeps both headers found and extends the
            // block by one line.
            lemma_first_from_insert(old, nw, hs, 0, pos, n);
            lemma_first_from_insert(old, nw, hd, 0, pos, n);
            lemma_first_from_insert(old, nw, eo, s + 1, pos, n);
            lemma_first_from_insert(old, nw, mk, s + 1, pos, e);
            old.insert_ensures(pos, nw);
            assert(out[s] == old[s]);
            let eout = |l: Seq<char>| super::yaml::ends_block(l, out[s]);
            assert(eout =~= eo);
            assert(block_end(out, s) == e + 1);
            assert(key_in_block(out, s, key) == pos);
            assert(out[pos] == nw);
        },
    }
}

// ---------------------------------------------------------------------------
// Reading back through the parser
// ---------------------------------------------------------------------------

/// A lookup over two lists of pairs looks in the second only when the first
/// does not have the key.
proof fn lemma_lookup_concat(a: Seq<(Seq<char>, Seq<char>)>, b: Seq<(Seq<char>, Seq<char>)>, k: Seq<char>)
    ensures
        lookup_s(a + b, k) == match lookup_s(a, k) {
            Some(v) => Some(v),
            None => lookup_s(b, k),
        },
    decreases a.len(),
{
    if a.len() == 0 {
        assert(a + b =~= b);
    } else {
        assert((a + b)[0] == a[0]);
        assert((a + b).drop_first() =~= a.drop_first() + b);
        lemma_lookup_concat(a.drop_first(), b, k);
    }
}

/// The entry a line gives a mapping: its key and value, if it maps one.
pub open spec fn map_entry(l: Seq<char>) -> Seq<(Seq<char>, Seq<char>)> {
    match mapping_s(l) {
        Some((_, k, v)) => seq![(k, v)],
        None => seq![],
    }
}

proof fn lemma_mapping_pairs_front(ls: Seq<Seq<char>>)
    requires
        ls.len() > 0,
    ensures
        super::yaml::mapping_pairs(ls) == map_entry(ls[0]) + super::yaml::mapping_pairs(ls.drop_first()),
    decreases ls.len(),
{
    if ls.len() == 1 {
        assert(ls.drop_last() =~= Seq::<Seq<char>>::empty());
        assert(ls.drop_first() =~= Seq::<Seq<char>>::empty());
        assert(super::yaml::mapping_pairs(ls) =~= map_entry(ls[0]) + super::yaml::mapping_pairs(ls.drop_first()));
    } else {
        let dl = ls.drop_last();
        lemma_mapping_pairs_front(dl);
        assert(ls.drop_first().drop_last() =~= dl.drop_first());
        assert(ls.drop_first().last() == ls.last());
        assert(dl[0] == ls[0]);
        assert(super::yaml::mapping_pairs(ls) =~= map_entry(ls[0]) + super::yaml::mapping_pairs(ls.drop_first()));
    }
}

/// A lookup in the mapping lines `[a, e)` finds the first line there that
/// maps the key.
proof fn lemma_lookup_mapping(ls: Seq<Seq<char>>, k: Seq<char>, a: int, e: int)
    requires
        0 <= a <= e <= ls.len(),
    ensures
        lookup_s(super::yaml::mapping_pairs(ls.subrange(a, e)), k) == (if first_from(ls, |l: Seq<char>| is_map_key(l, k), a, e) < e {
            Some(mapped_value(ls[first_from(ls, |l: Seq<char>| is_map_key(l, k), a, e)]))
        } else {
            None
        }),
    decreases e - a,
{
    if a == e {
        assert(ls.subrange(a, e) =~= Seq::<Seq<char>>::empty());
    } else {
        let t = ls.subrange(a, e);
        lemma_mapping_pairs_front(t);
        assert(t[0] == ls[a]);
        assert(t.drop_first() =~= ls.subrange(a + 1, e));
        lemma_lookup_mapping(ls, k, a + 1, e);
        let rest = super::yaml::mapping_pairs(ls.subrange(a + 1, e));
        match mapping_s(ls[a]) {
            Some(x) => {
                let ps = seq![(x.1, x.2)] + rest;
                assert(ps[0] == (x.1, x.2));
                assert(ps.drop_first() =~= rest);
            },
            None => {
                assert(map_entry(ls[a]) + rest =~= rest);
            },
        }
    }
}

/// A line that is a non-empty top-level entry for the key.
pub open spec fn flat_key(l: Seq<char>, k: Seq<char>) -> bool {
    mapping_s(l) matches Some((i, k2, v)) && i == 0 && k2 == k && v.len() > 0
}

/// The entry a line gives a flat mapping.
pub open spec fn flat_entry(l: Seq<char>) -> Seq<(Seq<char>, Seq<char>)> {
    match mapping_s(l) {
        Some((i, k, v)) => if i == 0 && v.len() > 0 {
            seq![(k, v)]
        } else {
            seq![]
        },
        None => seq![],
    }
}

proof fn lemma_flat_pairs_front(ls: Seq<Seq<char>>)
    requires
        ls.len() > 0,
    ensures
        super::yaml::flat_pairs_s(ls) == flat_entry(ls[0]) + super::yaml::flat_pairs_s(ls.drop_first()),
    decreases ls.len(),
{
    if ls.len() == 1 {
        assert(ls.drop_last() =~= Seq::<Seq<char>>::empty());
        assert(ls.drop_first() =~= Seq::<Seq<char>>::empty());
        assert(super::yaml::flat_pairs_s(ls) =~= flat_entry(ls[0]) + super::yaml::flat_pairs_s(ls.drop_first()));
    } else {
        let dl = ls.drop_last();
        lemma_flat_pairs_front(dl);
        assert(ls.drop_first().drop_last() =~= dl.drop_first());
        assert(ls.drop_first().last() == ls.last());
        assert(dl[0] == ls[0]);
        assert(super::yaml::flat_pairs_s(ls) =~= flat_entry(ls[0]) + super::yaml::flat_pairs_s(ls.drop_first()));
    }
}

/// A lookup in the flat entries of the lines from `j` on finds the first
/// non-empty top-level entry for the key.
proof fn lemma_lookup_flat(ls: Seq<Seq<char>>, k: Seq<char>, j: int)
    requires
        0 <= j <= ls.len(),
    ensures
        lookup_s(super::yaml::flat_pairs_s(ls.skip(j)), k) == (if first_from(ls, |l: Seq<char>| flat_key(l, k), j, ls.len() as int) < ls.len() {
            Some(mapped_value(ls[first_from(ls, |l: Seq<char>| flat_key(l, k), j, ls.len() as int)]))
        } else {
            None
        }),
    decreases ls.len() - j,
{
    if j == ls.len() {
        assert(ls.skip(j) =~= Seq::<Seq<char>>::empty());
    } else {
        let t = ls.skip(j);
        lemma_flat_pairs_front(t);
        assert(t[0] == ls[j]);
        assert(t.drop_first() =~= ls.skip(j + 1));
        lemma_lookup_flat(ls, k, j + 1);
        let rest = super::yaml::flat_pairs_s(ls.skip(j + 1));
        if flat_entry(ls[j]).len() == 1 {
            let ps = flat_entry(ls[j]) + rest;
            assert(ps[0] == flat_entry(ls[j])[0]);
            assert(ps.drop_first() =~= rest);
        } else {
            assert(flat_entry(ls[j]) + rest =~= rest);
        }
    }
}

/// Reading back a value just set in a flat YAML mapping, as the parser
/// reads the file, gives it: the first pair the parser finds for the key
/// holds the value written.
///
/// Holds for every key and non-empty value that a written entry reads back
/// as (`key_reads`, `value_reads`); the parser keeps no empty top-level
/// entries.
pub proof fn law_yaml_flat_set_parse_reads_back(content: Seq<char>, key: Seq<char>, value: Seq<char>)
    requires
        !is_k8s_s(lines_of(content)),
        key_reads(key),
        value_reads(value),
        value.len() > 0,
    ensures
        lookup_s(super::yaml::parse_s(set_value_s(content, key, value)), key) == Some(value),
{
    law_yaml_flat_set_reads_back(content, key, value);
    let out = lines_of(set_value_s(content, key, value));
    let p = |l: Seq<char>| is_top_key(l, key);
    let fk = |l: Seq<char>| flat_key(l, key);
    let i = first_from(out, p, 0, out.len() as int);
    lemma_first_from_range(out, p, 0, out.len() as int);
    assert(fk(out[i]));
    lemma_first_from_before(out, p, 0, out.len() as int);
    assert forall|m: int| 0 <= m < i implies !fk(#[trigger] out[m]) by {
        assert(!p(out[m]));
    }
    lemma_first_from_at(out, fk, 0, i, out.len() as int);
    lemma_lookup_flat(out, key, 0);
    assert(out.skip(0) =~= out);
}

/// The parser's lookup in a manifest finds the entry the editor locates:
/// the key's line in `stringData:`, else in `data:`.
proof fn lemma_lookup_k8s(ls: Seq<Seq<char>>, k: Seq<char>)
    ensures
        lookup_s(super::yaml::block_pairs_s(ls, string_data()) + super::yaml::block_pairs_s(ls, data()), k)
            == match k8s_key_line(ls, k) {
            Some(j) => Some(mapped_value(ls[j])),
            None => None,
        },
{
    let n = ls.len() as int;
    let s1 = find_block(ls, string_data());
    let s2 = find_block(ls, data());
    lemma_first_from_range(ls, |l: Seq<char>| super::yaml::is_header(l, string_data()), 0, n);
    lemma_first_from_range(ls, |l: Seq<char>| super::yaml::is_header(l, data()), 0, n);
    let a = super::yaml::block_pairs_s(ls, string_data());
    let b = super::yaml::block_pairs_s(ls, data());
    lemma_lookup_concat(a, b, k);
    if s1 < n {
        lemma_first_from_range(ls, |l: Seq<char>| super::yaml::ends_block(l, ls[s1]), s1 + 1, n);
        lemma_lookup_mapping(ls, k, s1 + 1, block_end(ls, s1));
        lemma_first_from_range(ls, |l: Seq<char>| is_map_key(l, k), s1 + 1, block_end(ls, s1));
    }
    if s2 < n {
        lemma_first_from_range(ls, |l: Seq<char>| super::yaml::ends_block(l, ls[s2]), s2 + 1, n);
        lemma_lookup_mapping(ls, k, s2 + 1, block_end(ls, s2));
        lemma_first_from_range(ls, |l: Seq<char>| is_map_key(l, k), s2 + 1, block_end(ls, s2));
    }
    if s1 >= n {
        assert(lookup_s(a, k) is None);
    }
    if s2 >= n {
        assert(lookup_s(b, k) is None);
    }
}

/// Reading back a value just set in a Kubernetes manifest, as the parser
/// reads the file, gives it: the first pair the parser finds for the key
/// (children of `stringData:`, then of `data:`) holds the value written.
///
/// Holds for every key and value that a written entry reads back as
/// (`key_reads`, `value_reads`).
pub proof fn law_yaml_k8s_set_parse_reads_back(content: Seq<char>, key: Seq<char>, value: Seq<char>)
    requires
        is_k8s_s(lines_of(content)),
        key_reads(key),
        value_reads(value),
    ensures
        lookup_s(super::yaml::parse_s(set_value_s(content, key, value)), key) == Some(value),
{
    law_yaml_k8s_set_reads_back(content, key, value);
    let out = lines_of(set_value_s(content, key, value));
    lemma_lookup_k8s(out, key);
}

/// Setting a key the parser already reads in YAML content rewrites one line
/// and keeps the number of lines: every other line stays as it was.
///
/// Holds whenever key and value hold no line feed.
pub proof fn law_yaml_set_present_key_keeps_line_count(content: Seq<char>, key: Seq<char>, value: Seq<char>)
    requires
        no_nl(key),
        no_nl(value),
        lookup_s(super::yaml::parse_s(content), key) is Some,
    ensures
        lines_of(set_value_s(content, key, value)).len() == lines_of(content).len(),
        exists|i: int|
            0 <= i < lines_of(content).len() && lines_of(set_value_s(content, key, value)) == lines_of(content).update(
                i,
                lines_of(set_value_s(content, key, value))[i],
            ),
{
    let ls = lines_of(content);
    let n = ls.len() as int;
    let i: int;
    if is_k8s_s(ls) {
        lemma_lookup_k8s(ls, key);
        assert(k8s_key_line(ls, key) is Some);
        let s1 = find_block(ls, string_data());
        let s2 = find_block(ls, data());
        lemma_first_from_range(ls, |l: Seq<char>| super::yaml::is_header(l, string_data()), 0, n);
        lemma_first_from_range(ls, |l: Seq<char>| super::yaml::is_header(l, data()), 0, n);
        let b = if s1 < n && key_in_block(ls, s1, key) < block_end(ls, s1) {
            s1
        } else {
            s2
        };
        lemma_first_from_range(ls, |l: Seq<char>| super::yaml::ends_block(l, ls[b]), b + 1, n);
        lemma_first_from_range(ls, |l: Seq<char>| is_map_key(l, key), b + 1, block_end(ls, b));
        i = k8s_key_line(ls, key)->0;
        assert(0 <= i < n);
        assert(!set_appends(ls, key));
    } else {
        lemma_lookup_flat(ls, key, 0);
        assert(ls.skip(0) =~= ls);
        let fk = |l: Seq<char>| flat_key(l, key);
        let p = |l: Seq<char>| is_top_key(l, key);
        let j = first_from(ls, fk, 0, n);
        assert(j < n);
        lemma_first_from_range(ls, fk, 0, n);
        lemma_first_from_range(ls, p, 0, n);
        lemma_first_from_before(ls, p, 0, n);
        assert(fk(ls[j]));
        assert(p(ls[j]));
        i = first_from(ls, p, 0, n);
        assert(i <= j);
        assert(!set_appends(ls, key));
    }
    law_yaml_set_keeps_other_lines(content, key, value);
    let out = lines_of(set_value_s(content, key, value));
    assert(out.len() == n);
    assert(out =~= ls.update(i, out[i]));
}

/// `exp_pos` runs to the end of a text without `e` or `E`.
proof fn lemma_no_exponent(s: Seq<char>, i: int)
    requires
        0 <= i <= s.len(),
        forall|j: int| 0 <= j < s.len() ==> #[trigger] s[j] != 'e' && s[j] != 'E',
    ensures
        super::numeric::exp_pos(s, i) == s.len(),
    decreases s.len() - i,
{
    if i < s.len() {
        lemma_no_exponent(s, i + 1);
    }
}

/// A text of ASCII digits around at most one `.`, with a digit somewhere,
/// reads as a number, so it is written in double quotes.
proof fn lemma_plain_number_quoted(v: Seq<char>, d: int)
    requires
        0 <= d <= v.len(),
        v.len() > 0,
        d < v.len() ==> v[d] == '.' && v.len() > 1,
        forall|j: int| 0 <= j < v.len() && j != d ==> '0' <= #[trigger] v[j] && v[j] <= '9',
    ensures
        scalar_s(v) == seq!['"'] + v + seq!['"'],
{
    lemma_no_exponent(v, 0);
    let k = super::numeric::exp_pos(v, 0);
    assert(v.take(k) =~= v);
    assert(v.skip(k).len() == 0);
    lemma_char_pos_is(v, '.', 0, d);
    if d < v.len() {
        assert forall|j: int| 0 <= j < v.take(d).len() implies super::numeric::is_digit(#[trigger] v.take(d)[j]) by {
            assert(v.take(d)[j] == v[j]);
        }
        assert forall|j: int| 0 <= j < v.skip(d + 1).len() implies super::numeric::is_digit(#[trigger] v.skip(d + 1)[j]) by {
            assert(v.skip(d + 1)[j] == v[d + 1 + j]);
        }
    } else {
        assert(super::numeric::all_digits(v));
    }
    assert(super::numeric::mantissa_ok(v));
    assert(super::numeric::drop_sign(v) == v);
    assert(super::numeric::float_syntax(v));
    assert(scalar_needs_quote(v));
    lemma_escape_plain(v);
}

/// A decimal number written as ASCII digits, a `.` and ASCII digits (at
/// least one digit in all) is written to YAML in double quotes, so it is
/// read back as text rather than as a float.
pub proof fn law_decimal_numbers_are_quoted(a: Seq<char>, b: Seq<char>)
    requires
        a.len() + b.len() > 0,
        forall|j: int| 0 <= j < a.len() ==> '0' <= #[trigger] a[j] && a[j] <= '9',
        forall|j: int| 0 <= j < b.len() ==> '0' <= #[trigger] b[j] && b[j] <= '9',
    ensures
        scalar_s(a + "."@ + b) == seq!['"'] + a + "."@ + b + seq!['"'],
{
    reveal_strlit(".");
    let v = a + "."@ + b;
    let d = a.len() as int;
    assert forall|j: int| 0 <= j < v.len() && j != d implies '0' <= #[trigger] v[j] && v[j] <= '9' by {
        if j < d {
            assert(v[j] == a[j]);
        } else {
            assert(v[j] == b[j - d - 1]);
        }
    }
    lemma_plain_number_quoted(v, d);
    assert(seq!['"'] + v + seq!['"'] =~= seq!['"'] + a + "."@ + b + seq!['"']);
}

/// A whole number written as ASCII digits is written to YAML in double
/// quotes, so it is read back as text rather than as a number.
pub proof fn law_whole_numbers_are_quoted(a: Seq<char>)
    requires
        a.len() > 0,
        forall|j: int| 0 <= j < a.len() ==> '0' <= #[trigger] a[j] && a[j] <= '9',
    ensures
        scalar_s(a) == seq!['"'] + a + seq!['"'],
{
    lemma_plain_number_quoted(a, a.len() as int);
}

/// `exp_pos` stops at the first `e` or `E`.
proof fn lemma_exponent_at(s: Seq<char>, i: int, k: int)
    requires
        0 <= i <= k < s.len(),
        forall|j: int| i <= j < k ==> #[trigger] s[j] != 'e' && s[j] != 'E',
        s[k] == 'e' || s[k] == 'E',
    ensures
        super::numeric::exp_pos(s, i) == k,
    decreases k - i,
{
    if i < k {
        lemma_exponent_at(s, i + 1, k);
    }
}

/// A number in exponent form, ASCII digits, `e` and ASCII digits, is
/// written to YAML in double quotes, so it is read back as text rather
/// than as a float.
pub proof fn law_exponent_numbers_are_quoted(a: Seq<char>, x: Seq<char>)
    requires
        a.len() > 0,
        x.len() > 0,
        forall|j: int| 0 <= j < a.len() ==> '0' <= #[trigger] a[j] && a[j] <= '9',
        forall|j: int| 0 <= j < x.len() ==> '0' <= #[trigger] x[j] && x[j] <= '9',
    ensures
        scalar_s(a + "e"@ + x) == seq!['"'] + a + "e"@ + x + seq!['"'],
{
    reveal_strlit("e");
    let v = a + "e"@ + x;
    let n = a.len() as int;
    assert(v[n] == 'e');
    assert forall|j: int| 0 <= j < n implies #[trigger] v[j] != 'e' && v[j] != 'E' && v[j] != '.' by {
        assert(v[j] == a[j]);
    }
    lemma_exponent_at(v, 0, n);
    assert(v.take(n) =~= a);
    assert(v.skip(n) =~= "e"@ + x);
    lemma_char_pos_is(a, '.', 0, n);
    assert(super::numeric::all_digits(a));
    assert(super::numeric::mantissa_ok(a));
    assert(("e"@ + x).drop_first() =~= x);
    assert(super::numeric::drop_sign(x) == x);
    assert(super::numeric::all_digits(x));
    assert(super::numeric::exponent_ok(v.skip(n)));
    assert(super::numeric::drop_sign(v) == v);
    assert(super::numeric::float_syntax(v));
    assert(scalar_needs_quote(v));
    assert forall|j: int| 0 <= j < v.len() implies #[trigger] v[j] != '"' && v[j] != '\\' by {
        if j < n {
            assert(v[j] == a[j]);
        } else if j > n {
            assert(v[j] == x[j - n - 1]);
        }
    }
    lemma_escape_plain(v);
}

/// A signed decimal number, `-` or `+` then ASCII digits, a `.` and ASCII
/// digits (at least one digit in all), is written to YAML in double quotes.
pub proof fn law_signed_numbers_are_quoted(sign: char, a: Seq<char>, b: Seq<char>)
    requires
        sign == '-' || sign == '+',
        a.len() + b.len() > 0,
        forall|j: int| 0 <= j < a.len() ==> '0' <= #[trigger] a[j] && a[j] <= '9',
        forall|j: int| 0 <= j < b.len() ==> '0' <= #[trigger] b[j] && b[j] <= '9',
    ensures
        scalar_s(seq![sign] + a + "."@ + b) == seq!['"', sign] + a + "."@ + b + seq!['"'],
{
    reveal_strlit(".");
    let u = a + "."@ + b;
    let v = seq![sign] + u;
    assert(seq![sign] + a + "."@ + b =~= v);
    let d = a.len() as int;
    assert forall|j: int| 0 <= j < u.len() && j != d implies '0' <= #[trigger] u[j] && u[j] <= '9' by {
        if j < d {
            assert(u[j] == a[j]);
        } else {
            assert(u[j] == b[j - d - 1]);
        }
    }
    assert(u[d] == '.');
    lemma_no_exponent(u, 0);
    let k = super::numeric::exp_pos(u, 0);
    assert(u.take(k) =~= u);
    assert(u.skip(k).len() == 0);
    lemma_char_pos_is(u, '.', 0, d);
    assert forall|j: int| 0 <= j < u.take(d).len() implies super::numeric::is_digit(#[trigger] u.take(d)[j]) by {
        assert(u.take(d)[j] == u[j]);
    }
    assert forall|j: int| 0 <= j < u.skip(d + 1).len() implies super::numeric::is_digit(#[trigger] u.skip(d + 1)[j]) by {
        assert(u.skip(d + 1)[j] == u[d + 1 + j]);
    }
    assert(super::numeric::mantissa_ok(u));
    assert(v.drop_first() =~= u);
    assert(super::numeric::drop_sign(v) == u);
    assert(super::numeric::float_syntax(v));
    assert(scalar_needs_quote(v));
    assert forall|j: int| 0 <= j < v.len() implies #[trigger] v[j] != '"' && v[j] != '\\' by {
        if j > 0 {
            assert(v[j] == u[j - 1]);
        }
    }
    lemma_escape_plain(v);
    assert(seq!['"'] + v + seq!['"'] =~= seq!['"', sign] + a + "."@ + b + seq!['"']);
}

} // verus!
