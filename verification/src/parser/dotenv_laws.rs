//! What the dotenv editor promises across calls: an edit changes only the
//! line of its key (every other line, comment and blank line is read back
//! as it was), and reading the edited content gives back the value written.

use vstd::prelude::*;

use super::dotenv::{
    after_export, escape_c, escape_s, first_key_line, opt_seq, pairs_s, forces_quote, is_alnum, is_key_line,
    needs_quote_s, new_line_s, parse_line_s, quote_s, remove_key_s, remove_lines_s,
    rewrite_line_s, set_lines_s, set_value_s, unquote_s, valid_key_s,
};
use crate::text::{
    char_pos, ends_cr, has_crlf, is_ws, keeps_final_newline, lemma_char_pos_is,
    lemma_char_pos_range, lemma_lines_rebuild, lemma_lines_shape, lemma_no_nl_add,
    lemma_no_nl_sub, lemma_trim_end_idx, lemma_trim_end_prefix, lemma_trim_of_trim_end,
    lemma_trim_start_at, lemma_trim_start_idx, lines_of, newline_of, no_nl, rebuild, reread,
    starts_with_s, strip_cr, trim_end_s, trim_s, trim_start_s,
};

verus! {

/// A value that a read gives back exactly as it was written: it holds no
/// line feed, double quote or backslash (the reader strips quotes but does
/// not undo escapes).
pub open spec fn plain_value(v: Seq<char>) -> bool {
    forall|i: int| 0 <= i < v.len() ==> #[trigger] v[i] != '\n' && v[i] != '"' && v[i] != '\\'
}

// ---------------------------------------------------------------------------
// Written values
// ---------------------------------------------------------------------------

pub proof fn lemma_escape_plain(v: Seq<char>)
    requires
        forall|i: int| 0 <= i < v.len() ==> #[trigger] v[i] != '"' && v[i] != '\\',
    ensures
        escape_s(v) == v,
    decreases v.len(),
{
    if v.len() > 0 {
        let d = v.drop_last();
        assert forall|i: int| 0 <= i < d.len() implies #[trigger] d[i] != '"' && d[i] != '\\' by {
            assert(d[i] == v[i]);
        }
        lemma_escape_plain(d);
        assert(v[v.len() - 1] != '"' && v[v.len() - 1] != '\\');
        assert(escape_c(v.last()) == seq![v.last()]);
        assert(d + seq![v.last()] =~= v);
    }
}

pub proof fn lemma_escape_no_nl(v: Seq<char>)
    requires
        no_nl(v),
    ensures
        no_nl(escape_s(v)),
    decreases v.len(),
{
    if v.len() > 0 {
        let d = v.drop_last();
        lemma_no_nl_sub(v, 0, v.len() - 1);
        assert(d =~= v.take(v.len() - 1));
        lemma_escape_no_nl(d);
        assert(v[v.len() - 1] != '\n');
        assert(no_nl(escape_c(v.last())));
        lemma_no_nl_add(escape_s(d), escape_c(v.last()));
    }
}

/// A written value holds no line feed and does not end in a carriage return.
proof fn lemma_quote_shape(v: Seq<char>)
    requires
        no_nl(v),
    ensures
        no_nl(quote_s(v)),
        !ends_cr(quote_s(v)),
{
    if v.len() > 0 {
        if needs_quote_s(v) {
            lemma_escape_no_nl(v);
            assert(no_nl(seq!['"']));
            lemma_no_nl_add(seq!['"'], escape_s(v));
            lemma_no_nl_add(seq!['"'] + escape_s(v), seq!['"']);
        } else {
            assert(!forces_quote(v[v.len() - 1]));
        }
    }
}

/// A plain value, written and read back, is itself.
proof fn lemma_quote_reads(v: Seq<char>)
    requires
        plain_value(v),
    ensures
        unquote_s(trim_s(quote_s(v))) == v,
{
    if v.len() > 0 {
        if needs_quote_s(v) {
            lemma_escape_plain(v);
            let q = seq!['"'] + v + seq!['"'];
            assert(quote_s(v) == q);
            assert(trim_start_s(q) == q);
            assert(trim_end_s(q) == q);
            assert(q.subrange(1, q.len() - 1) =~= v);
        } else {
            assert(!forces_quote(v[0]));
            assert(!forces_quote(v[v.len() - 1]));
            assert(trim_start_s(v) == v);
            assert(trim_end_s(v) == v);
        }
    } else {
        assert(trim_start_s(v) == v);
        assert(trim_end_s(v) == v);
    }
}

/// The characters of a valid key: no line feed, whitespace, `=` or `#`.
proof fn lemma_valid_key_chars(k: Seq<char>)
    requires
        valid_key_s(k),
    ensures
        no_nl(k),
        forall|i: int| 0 <= i < k.len() ==> !is_ws(#[trigger] k[i]) && k[i] != '=' && k[i] != '#'
            && k[i] != ' ',
        trim_s(k) == k,
{
    assert forall|i: int| 0 <= i < k.len() implies !is_ws(#[trigger] k[i]) && k[i] != '=' && k[i]
        != '#' && k[i] != ' ' && k[i] != '\n' by {
        assert(is_alnum(k[i]) || k[i] == '_' || k[i] == '.');
    }
    assert(!is_ws(k[0]));
    assert(!is_ws(k[k.len() - 1]));
    assert(trim_start_s(k) == k);
    assert(trim_end_s(k) == k);
}

// ---------------------------------------------------------------------------
// Written lines
// ---------------------------------------------------------------------------

/// A new assignment line holds no line feed, is not empty and does not end
/// in a carriage return.
proof fn lemma_new_line_shape(k: Seq<char>, v: Seq<char>)
    requires
        no_nl(k),
        no_nl(v),
    ensures
        no_nl(new_line_s(k, v)),
        !ends_cr(new_line_s(k, v)),
        new_line_s(k, v).len() > 0,
{
    reveal_strlit("=");
    lemma_quote_shape(v);
    assert(no_nl("="@));
    lemma_no_nl_add(k, "="@);
    lemma_no_nl_add(k + "="@, quote_s(v));
    let q = quote_s(v);
    if q.len() > 0 {
        assert(new_line_s(k, v).last() == q.last());
    }
}

/// A rewritten assignment line holds no line feed, is not empty and does not
/// end in a carriage return.
proof fn lemma_rewrite_shape(l: Seq<char>, v: Seq<char>)
    requires
        no_nl(l),
        no_nl(v),
    ensures
        no_nl(rewrite_line_s(l, v)),
        !ends_cr(rewrite_line_s(l, v)),
        rewrite_line_s(l, v).len() > 0,
{
    reveal_strlit("=");
    reveal_strlit("export ");
    let ex = "export "@;
    let rest = trim_start_s(l);
    let j = lemma_trim_start_idx(l);
    lemma_no_nl_sub(l, j, l.len() as int);
    let indent = l.take(l.len() - rest.len());
    lemma_no_nl_sub(l, 0, l.len() - rest.len());
    let pre = if starts_with_s(rest, ex) {
        ex
    } else {
        Seq::<char>::empty()
    };
    assert(no_nl(pre));
    let body = after_export(rest);
    if starts_with_s(rest, ex) {
        lemma_no_nl_sub(rest, 7, rest.len() as int);
    }
    assert(no_nl(body));
    let e = char_pos(body, '=', 0);
    lemma_char_pos_range(body, '=', 0);
    lemma_no_nl_sub(body, 0, e);
    let x = body.take(e);
    lemma_trim_end_prefix(x);
    let key = trim_end_s(x);
    lemma_no_nl_sub(x, 0, key.len() as int);
    assert(no_nl(key));
    let q = quote_s(v);
    lemma_quote_shape(v);
    assert(no_nl("="@));
    lemma_no_nl_add(indent, pre);
    lemma_no_nl_add(indent + pre, key);
    lemma_no_nl_add(indent + pre + key, "="@);
    lemma_no_nl_add(indent + pre + key + "="@, q);
    assert(rewrite_line_s(l, v) == indent + pre + key + "="@ + q);
    if q.len() > 0 {
        assert(rewrite_line_s(l, v).last() == q.last());
    }
}

/// A new assignment line reads as the key and the value written.
proof fn lemma_new_line_parse(k: Seq<char>, v: Seq<char>)
    requires
        valid_key_s(k),
        plain_value(v),
    ensures
        parse_line_s(new_line_s(k, v)) == Some((k, v)),
{
    reveal_strlit("=");
    reveal_strlit("export ");
    let ex = "export "@;
    lemma_valid_key_chars(k);
    let q = quote_s(v);
    let t = new_line_s(k, v);
    assert(t == k + "="@ + q);
    assert(t[0] == k[0]);
    assert(trim_start_s(t) == t);
    assert(t[k.len() as int] == '=');
    assert(!starts_with_s(t, ex)) by {
        if t.len() >= 7 {
            if k.len() >= 7 {
                assert(t.take(7)[6] == k[6]);
            } else {
                assert(t.take(7)[k.len() as int] == '=');
            }
            assert(t.take(7) != ex);
        }
    }
    assert(after_export(t) == t);
    assert forall|i: int| 0 <= i < k.len() implies t[i] != '=' by {
        assert(t[i] == k[i]);
    }
    lemma_char_pos_is(t, '=', 0, k.len() as int);
    assert(t.take(k.len() as int) =~= k);
    assert(t.skip(k.len() as int + 1) =~= q);
    lemma_quote_reads(v);
}

/// A rewritten assignment line reads as the same key with the new value.
proof fn lemma_rewrite_parse(l: Seq<char>, k: Seq<char>, v: Seq<char>)
    requires
        is_key_line(l, k),
        plain_value(v),
    ensures
        parse_line_s(rewrite_line_s(l, v)) == Some((k, v)),
{
    reveal_strlit("=");
    reveal_strlit("export ");
    let ex = "export "@;
    let rest = trim_start_s(l);
    let j = lemma_trim_start_idx(l);
    let indent = l.take(l.len() - rest.len());
    assert(indent =~= l.take(j));
    let exp = starts_with_s(rest, ex);
    let pre = if exp {
        ex
    } else {
        Seq::<char>::empty()
    };
    let body = after_export(rest);
    let e = char_pos(body, '=', 0);
    lemma_char_pos_range(body, '=', 0);
    let x = body.take(e);
    assert(parse_line_s(l) is Some);
    assert(rest.len() > 0 && rest[0] != '#');
    assert(e < body.len());
    assert(trim_s(x) == k && valid_key_s(k));
    lemma_valid_key_chars(k);
    let b = lemma_trim_end_idx(x);
    let key2 = trim_end_s(x);
    lemma_trim_of_trim_end(x);
    assert(b > 0) by {
        if b == 0 {
            assert(key2 =~= Seq::<char>::empty());
            assert(trim_start_s(key2) == key2);
            assert(trim_end_s(key2) == key2);
        }
    }
    let q = quote_s(v);
    let w2 = key2 + "="@ + q;
    let t2 = pre + w2;
    let line2 = rewrite_line_s(l, v);
    assert(line2 =~= indent + t2);
    assert(j < l.len());
    assert(rest[0] == l[j]);
    // The rewritten line starts where the old one did.
    assert(!is_ws(t2[0]) && t2[0] != '#') by {
        if !exp {
            assert(body == rest);
            assert(key2[0] == x[0]);
            assert(x[0] == rest[0]);
        }
    }
    assert forall|i: int| 0 <= i < j implies is_ws(#[trigger] line2[i]) by {
        assert(line2[i] == l[i]);
    }
    assert(line2[j] == t2[0]);
    lemma_trim_start_at(line2, j);
    assert(line2.skip(j) =~= t2);
    // The `export ` prefix is read as before.
    assert(after_export(t2) == w2) by {
        if exp {
            assert(t2.take(7) =~= ex);
            assert(t2.skip(7) =~= w2);
        } else {
            assert(body == rest);
            if w2.len() >= 7 {
                if key2.len() >= 7 {
                    assert forall|i: int| 0 <= i < 7 implies w2.take(7)[i] == rest.take(7)[i] by {
                        assert(w2[i] == key2[i]);
                        assert(key2[i] == x[i]);
                        assert(x[i] == rest[i]);
                    }
                    assert(w2.take(7) =~= rest.take(7));
                } else {
                    assert(w2.take(7)[key2.len() as int] == '=');
                }
                assert(w2.take(7) != ex);
            }
        }
    }
    // The first `=` follows the key.
    assert forall|i: int| 0 <= i < key2.len() implies w2[i] != '=' by {
        assert(w2[i] == key2[i]);
        assert(key2[i] == x[i]);
        assert(x[i] == body[i]);
    }
    lemma_char_pos_is(w2, '=', 0, key2.len() as int);
    assert(w2.take(key2.len() as int) =~= key2);
    assert(w2.skip(key2.len() as int + 1) =~= q);
    lemma_quote_reads(v);
}

/// Dropping a trailing carriage return does not change which key a line
/// assigns.
proof fn lemma_strip_key_line(l: Seq<char>, k: Seq<char>)
    ensures
        is_key_line(strip_cr(l), k) == is_key_line(l, k),
{
    reveal_strlit("export ");
    let ex = "export "@;
    if ends_cr(l) {
        let l2 = l.drop_last();
        let j = lemma_trim_start_idx(l);
        if j == l.len() {
            assert forall|i: int| 0 <= i < l2.len() implies is_ws(#[trigger] l2[i]) by {
                assert(l2[i] == l[i]);
            }
            lemma_trim_start_at(l2, l2.len() as int);
            assert(trim_start_s(l2).len() == 0);
        } else {
            assert(is_ws(l[l.len() - 1]));
            assert(j < l.len() - 1);
            assert forall|i: int| 0 <= i < j implies is_ws(#[trigger] l2[i]) by {
                assert(l2[i] == l[i]);
            }
            assert(l2[j] == l[j]);
            lemma_trim_start_at(l2, j);
            let t = trim_start_s(l);
            let t2 = trim_start_s(l2);
            assert(t2 =~= t.drop_last());
            assert(t2[0] == t[0]);
            assert(starts_with_s(t2, ex) == starts_with_s(t, ex)) by {
                if t2.len() >= 7 {
                    assert(t2.take(7) =~= t.take(7));
                } else if t.len() == 7 {
                    assert(t.take(7)[6] == '\r');
                    assert(t.take(7) != ex);
                }
            }
            let w = after_export(t);
            let w2 = after_export(t2);
            assert(w.len() > 0 && w.last() == '\r');
            assert(w2 =~= w.drop_last());
            let e = char_pos(w, '=', 0);
            lemma_char_pos_range(w, '=', 0);
            if e < w.len() {
                assert(e < w2.len());
                assert forall|i: int| 0 <= i < e implies w2[i] != '=' by {
                    assert(w2[i] == w[i]);
                }
                lemma_char_pos_is(w2, '=', 0, e);
                assert(w2.take(e) =~= w.take(e));
            } else {
                assert forall|i: int| 0 <= i < w2.len() implies w2[i] != '=' by {
                    assert(w2[i] == w[i]);
                }
                lemma_char_pos_is(w2, '=', 0, w2.len() as int);
            }
        }
    }
}

// ---------------------------------------------------------------------------
// Locating a key
// ---------------------------------------------------------------------------

/// `first_key_line` from `j` is `i` when no line in `[j, i)` assigns the key
/// and line `i` does (or `i` is the number of lines).
proof fn lemma_first_key_at(ls: Seq<Seq<char>>, k: Seq<char>, j: int, i: int)
    requires
        0 <= j <= i <= ls.len(),
        forall|m: int| j <= m < i ==> !is_key_line(#[trigger] ls[m], k),
        i == ls.len() || is_key_line(ls[i], k),
    ensures
        first_key_line(ls, k, j) == i,
    decreases i - j,
{
    if j < i {
        lemma_first_key_at(ls, k, j + 1, i);
    }
}

/// What `first_key_line` from `j` finds: no line before it assigns the key,
/// and it is that key's line unless it is the number of lines.
proof fn lemma_first_key_props(ls: Seq<Seq<char>>, k: Seq<char>, j: int)
    requires
        0 <= j <= ls.len(),
    ensures
        j <= first_key_line(ls, k, j) <= ls.len(),
        forall|m: int| j <= m < first_key_line(ls, k, j) ==> !is_key_line(#[trigger] ls[m], k),
        first_key_line(ls, k, j) < ls.len() ==> is_key_line(ls[first_key_line(ls, k, j)], k),
    decreases ls.len() - j,
{
    if j < ls.len() && !is_key_line(ls[j], k) {
        lemma_first_key_props(ls, k, j + 1);
    }
}

// ---------------------------------------------------------------------------
// Laws
// ---------------------------------------------------------------------------

/// Setting a key changes only the line that assigns it: the lines read back
/// from the new content are the old lines with the key's first assignment
/// rewritten in place, or with one new line appended when no line assigns
/// it. Comments, blank lines, other keys and their order are kept.
///
/// Holds whenever key and value hold no line feed, except when the key is
/// absent and the content, without any `"\r\n"`, ends in a carriage return:
/// the appended line then turns that carriage return into a `"\r\n"` ending.
pub proof fn law_set_keeps_other_lines(content: Seq<char>, key: Seq<char>, value: Seq<char>)
    requires
        no_nl(key),
        no_nl(value),
        !(first_key_line(lines_of(content), key, 0) == lines_of(content).len() && !has_crlf(
            content,
        ) && content.len() > 0 && content.last() == '\r'),
    ensures
        lines_of(set_value_s(content, key, value)) == set_lines_s(lines_of(content), key, value),
{
    let ls = lines_of(content);
    let nl = newline_of(content);
    let fin = keeps_final_newline(content);
    let ls2 = set_lines_s(ls, key, value);
    lemma_lines_shape(content);
    lemma_first_key_props(ls, key, 0);
    let i0 = first_key_line(ls, key, 0);
    if i0 < ls.len() {
        lemma_rewrite_shape(ls[i0], value);
    } else {
        lemma_new_line_shape(key, value);
    }
    assert forall|i: int| 0 <= i < ls2.len() implies no_nl(#[trigger] ls2[i]) by {
        if i < ls.len() && i != i0 {
            assert(ls2[i] == ls[i]);
        }
    }
    assert(!fin ==> ls2.last().len() > 0) by {
        if !fin && !(i0 < ls.len() && i0 == ls.len() - 1) {
            assert(ls2.last() == ls.last() || ls2.last() == new_line_s(key, value));
        }
    }
    lemma_lines_rebuild(ls2, nl, fin);
    assert forall|i: int| 0 <= i < ls2.len() implies #[trigger] reread(ls2, nl, fin)[i] == ls2[i] by {
        if nl == seq!['\n'] && (i + 1 < ls2.len() || fin) {
            assert(!has_crlf(content));
            if i < ls.len() && i != i0 {
                assert(ls2[i] == ls[i]);
                if !(i + 1 < ls.len() || fin) {
                    assert(content.last() == ls.last().last());
                }
            }
            assert(!ends_cr(ls2[i]));
        }
    }
    assert(reread(ls2, nl, fin) =~= ls2);
}

/// Reading back a value just set gives it: in the lines of the new content
/// the first line that assigns the key assigns it the value written.
///
/// Holds for every valid key and every value without line feed, double
/// quote or backslash (the reader removes surrounding quotes but keeps
/// escapes, so such values read back escaped).
pub proof fn law_set_reads_back(content: Seq<char>, key: Seq<char>, value: Seq<char>)
    requires
        valid_key_s(key),
        plain_value(value),
    ensures
        ({
            let ls = lines_of(set_value_s(content, key, value));
            let i = first_key_line(ls, key, 0);
            i < ls.len() && parse_line_s(ls[i]) == Some((key, value))
        }),
{
    let ls = lines_of(content);
    let ls2 = set_lines_s(ls, key, value);
    lemma_valid_key_chars(key);
    assert(no_nl(value)) by {
        assert forall|i: int| 0 <= i < value.len() implies value[i] != '\n' by {
            assert(value[i] != '\n');
        }
    }
    lemma_first_key_props(ls, key, 0);
    let i0 = first_key_line(ls, key, 0);
    let out = lines_of(set_value_s(content, key, value));
    if i0 < ls.len() {
        law_set_keeps_other_lines(content, key, value);
        lemma_rewrite_parse(ls[i0], key, value);
        assert forall|m: int| 0 <= m < i0 implies !is_key_line(#[trigger] out[m], key) by {
            assert(out[m] == ls[m]);
        }
        lemma_first_key_at(out, key, 0, i0);
    } else {
        lemma_new_line_parse(key, value);
        let nw = new_line_s(key, value);
        lemma_new_line_shape(key, value);
        if !has_crlf(content) && content.len() > 0 && content.last() == '\r' {
            // The old last line gains a `"\r\n"` ending and reads without its
            // carriage return; it still assigns no key of that name.
            lemma_lines_shape(content);
            let nl = newline_of(content);
            let fin = keeps_final_newline(content);
            assert(!fin);
            assert forall|i: int| 0 <= i < ls2.len() implies no_nl(#[trigger] ls2[i]) by {
                if i < ls.len() {
                    assert(ls2[i] == ls[i]);
                }
            }
            lemma_lines_rebuild(ls2, nl, fin);
            assert(out == reread(ls2, nl, fin));
            assert forall|m: int| 0 <= m < ls.len() implies !is_key_line(#[trigger] out[m], key) by {
                assert(ls2[m] == ls[m]);
                assert(out[m] == strip_cr(ls[m]) || out[m] == ls[m]);
                lemma_strip_key_line(ls[m], key);
            }
            assert(out[ls.len() as int] == nw);
            lemma_first_key_at(out, key, 0, ls.len() as int);
        } else {
            law_set_keeps_other_lines(content, key, value);
            assert forall|m: int| 0 <= m < ls.len() implies !is_key_line(#[trigger] out[m], key) by {
                assert(out[m] == ls[m]);
            }
            assert(out[ls.len() as int] == nw);
            lemma_first_key_at(out, key, 0, ls.len() as int);
        }
    }
}

/// Removing a key deletes only the line of its first assignment: the lines
/// read back from the new content are the old lines without that one (all
/// of them when no line assigns the key).
///
/// Content in which no line assigns the key comes back as it was. Otherwise
/// this holds except where the remaining lines cannot be written back as
/// they are: none remain but the content keeps a final line ending (the
/// result is then a lone line ending), or the content has no final line
/// ending and the last remaining line is empty.
pub proof fn law_remove_keeps_other_lines(content: Seq<char>, key: Seq<char>)
    requires
        first_key_line(lines_of(content), key, 0) < lines_of(content).len() ==> !(remove_lines_s(
            lines_of(content),
            key,
        ).len() == 0 && keeps_final_newline(content)),
        first_key_line(lines_of(content), key, 0) < lines_of(content).len() ==> !(remove_lines_s(
            lines_of(content),
            key,
        ).len() > 0 && !keeps_final_newline(content) && remove_lines_s(lines_of(content), key).last().len()
            == 0),
    ensures
        lines_of(remove_key_s(content, key)) == remove_lines_s(lines_of(content), key),
{
    if !(first_key_line(lines_of(content), key, 0) < lines_of(content).len()) {
        assert(remove_key_s(content, key) == content);
    } else {
        let ls = lines_of(content);
        let nl = newline_of(content);
        let fin = keeps_final_newline(content);
        let ls2 = remove_lines_s(ls, key);
        lemma_lines_shape(content);
        lemma_first_key_props(ls, key, 0);
        let i0 = first_key_line(ls, key, 0);
        if ls2.len() == 0 {
            assert(rebuild(ls2, nl, fin) =~= Seq::<char>::empty());
        } else {
            // Line `i` of the result is line `src(i)` of the content.
            assert forall|i: int| 0 <= i < ls2.len() implies #[trigger] ls2[i] == (if i0 < ls.len()
                && i >= i0 {
                ls[i + 1]
            } else {
                ls[i]
            }) by {}
            assert forall|i: int| 0 <= i < ls2.len() implies no_nl(#[trigger] ls2[i]) by {
                if i0 < ls.len() && i >= i0 {
                    assert(ls2[i] == ls[i + 1]);
                } else {
                    assert(ls2[i] == ls[i]);
                }
            }
            lemma_lines_rebuild(ls2, nl, fin);
            assert forall|i: int| 0 <= i < ls2.len() implies #[trigger] reread(ls2, nl, fin)[i]
                == ls2[i] by {
                if nl == seq!['\n'] && (i + 1 < ls2.len() || fin) {
                    assert(!has_crlf(content));
                    if i0 < ls.len() && i >= i0 {
                        assert(ls2[i] == ls[i + 1]);
                        assert(i + 1 + 1 < ls.len() || fin);
                    } else {
                        assert(ls2[i] == ls[i]);
                        assert(i + 1 < ls.len() || fin);
                    }
                }
            }
            assert(reread(ls2, nl, fin) =~= ls2);
        }
    }
}

// ---------------------------------------------------------------------------
// Reading back through the parser
// ---------------------------------------------------------------------------

/// The value of the first pair with key `k`, as a lookup over parsed pairs
/// finds it.
pub open spec fn lookup_s(ps: Seq<(Seq<char>, Seq<char>)>, k: Seq<char>) -> Option<Seq<char>>
    decreases ps.len(),
{
    if ps.len() == 0 {
        None
    } else if ps[0].0 == k {
        Some(ps[0].1)
    } else {
        lookup_s(ps.drop_first(), k)
    }
}

/// The value a line assigns (empty for other lines).
pub open spec fn parsed_value(l: Seq<char>) -> Seq<char> {
    match parse_line_s(l) {
        Some((_, v)) => v,
        None => seq![],
    }
}

/// The pairs of a list of lines, split off at its first line.
proof fn lemma_pairs_front(ls: Seq<Seq<char>>)
    requires
        ls.len() > 0,
    ensures
        pairs_s(ls) == opt_seq(parse_line_s(ls[0])) + pairs_s(ls.drop_first()),
    decreases ls.len(),
{
    if ls.len() == 1 {
        assert(ls.drop_last() =~= Seq::<Seq<char>>::empty());
        assert(ls.drop_first() =~= Seq::<Seq<char>>::empty());
        assert(pairs_s(ls) =~= opt_seq(parse_line_s(ls[0])) + pairs_s(ls.drop_first()));
    } else {
        let dl = ls.drop_last();
        lemma_pairs_front(dl);
        assert(ls.drop_first().drop_last() =~= dl.drop_first());
        assert(ls.drop_first().last() == ls.last());
        assert(dl[0] == ls[0]);
        assert(pairs_s(ls) =~= opt_seq(parse_line_s(ls[0])) + pairs_s(ls.drop_first()));
    }
}

/// Looking a key up in the pairs of the lines from `j` on finds the first
/// line from `j` that assigns it.
proof fn lemma_lookup_first(ls: Seq<Seq<char>>, k: Seq<char>, j: int)
    requires
        0 <= j <= ls.len(),
    ensures
        lookup_s(pairs_s(ls.skip(j)), k) == (if first_key_line(ls, k, j) < ls.len() {
            Some(parsed_value(ls[first_key_line(ls, k, j)]))
        } else {
            None
        }),
    decreases ls.len() - j,
{
    if j == ls.len() {
        assert(ls.skip(j) =~= Seq::<Seq<char>>::empty());
    } else {
        let t = ls.skip(j);
        lemma_pairs_front(t);
        assert(t[0] == ls[j]);
        assert(t.drop_first() =~= ls.skip(j + 1));
        lemma_lookup_first(ls, k, j + 1);
        let rest = pairs_s(ls.skip(j + 1));
        match parse_line_s(ls[j]) {
            Some(x) => {
                let ps = seq![x] + rest;
                assert(ps[0] == x);
                assert(ps.drop_first() =~= rest);
            },
            None => {
                assert(opt_seq(parse_line_s(ls[j])) + rest =~= rest);
            },
        }
    }
}

/// Reading back a value just set, as the parser reads the file, gives it:
/// the first pair that the parser finds for the key holds the value
/// written.
///
/// Holds for every valid key and every value without line feed, double
/// quote or backslash (the reader removes surrounding quotes but keeps
/// escapes, so such values read back escaped).
pub proof fn law_set_parse_reads_back(content: Seq<char>, key: Seq<char>, value: Seq<char>)
    requires
        valid_key_s(key),
        plain_value(value),
    ensures
        lookup_s(pairs_s(lines_of(set_value_s(content, key, value))), key) == Some(value),
{
    law_set_reads_back(content, key, value);
    let ls = lines_of(set_value_s(content, key, value));
    lemma_lookup_first(ls, key, 0);
    assert(ls.skip(0) =~= ls);
}

/// Setting a key the parser already reads in the content rewrites one line
/// and keeps the number of lines: every other line stays as it was.
///
/// Holds whenever key and value hold no line feed.
pub proof fn law_set_present_key_keeps_line_count(content: Seq<char>, key: Seq<char>, value: Seq<char>)
    requires
        no_nl(key),
        no_nl(value),
        lookup_s(pairs_s(lines_of(content)), key) is Some,
    ensures
        lines_of(set_value_s(content, key, value)).len() == lines_of(content).len(),
        exists|i: int|
            0 <= i < lines_of(content).len() && lines_of(set_value_s(content, key, value)) == lines_of(content).update(
                i,
                lines_of(set_value_s(content, key, value))[i],
            ),
{
    let ls = lines_of(content);
    lemma_lookup_first(ls, key, 0);
    assert(ls.skip(0) =~= ls);
    lemma_first_key_props(ls, key, 0);
    let i = first_key_line(ls, key, 0);
    assert(i < ls.len());
    law_set_keeps_other_lines(content, key, value);
    let out = lines_of(set_value_s(content, key, value));
    assert(out =~= ls.update(i, out[i]));
}

/// A line `key=value` reads as that assignment whenever the key starts with
/// an ASCII letter or `_` and goes on with ASCII letters, ASCII digits, `_`
/// or `.`, and the value neither starts nor ends with whitespace nor starts
/// with a quote.
pub proof fn law_assignment_line_reads(k: Seq<char>, v: Seq<char>)
    requires
        k.len() > 0,
        ('a' <= k[0] && k[0] <= 'z') || ('A' <= k[0] && k[0] <= 'Z') || k[0] == '_',
        forall|i: int|
            0 <= i < k.len() ==> ('a' <= #[trigger] k[i] && k[i] <= 'z') || ('A' <= k[i] && k[i] <= 'Z') || ('0'
                <= k[i] && k[i] <= '9') || k[i] == '_' || k[i] == '.',
        v.len() == 0 || (!is_ws(v[0]) && !is_ws(v.last()) && v[0] != '"' && v[0] != '\''),
    ensures
        parse_line_s(k + "="@ + v) == Some((k, v)),
{
    reveal_strlit("=");
    reveal_strlit("export ");
    let line = k + "="@ + v;
    let n = k.len() as int;
    assert(line[n] == '=');
    assert forall|i: int| 0 <= i < n implies line[i] == k[i] && line[i] != '=' && !is_ws(line[i]) by {
        assert(line[i] == k[i]);
    }
    assert(!is_ws(line[0]));
    lemma_trim_start_at(line, 0);
    assert(line.skip(0) =~= line);
    assert(trim_start_s(line) == line);
    assert(!starts_with_s(line, "export "@)) by {
        if starts_with_s(line, "export "@) {
            let j = if n <= 6 { n } else { 6 };
            assert(line.take(7)[j] == "export "@[j]);
        }
    }
    assert(after_export(line) == line);
    lemma_char_pos_is(line, '=', 0, n);
    assert(line.take(n) =~= k);
    assert(!is_ws(k.last())) by {
        assert(line[n - 1] == k[n - 1]);
    }
    lemma_trim_start_at(k, 0);
    assert(k.skip(0) =~= k);
    crate::text::lemma_trim_end_at(k, n);
    assert(k.take(n) =~= k);
    assert(trim_s(k) == k);
    assert(valid_key_s(k));
    assert(line.skip(n + 1) =~= v);
    lemma_trim_start_at(v, 0);
    assert(v.skip(0) =~= v);
    crate::text::lemma_trim_end_at(v, v.len() as int);
    assert(v.take(v.len() as int) =~= v);
    assert(trim_s(v) == v);
    assert(unquote_s(v) == v);
}

/// A line `key=value` whose key holds a character other than an ASCII
/// letter, an ASCII digit, `_` or `.` is no assignment (for a key that
/// starts with an ASCII letter or `_`, holds no `=`, does not end in
/// whitespace and is not itself an `export ` line).
pub proof fn law_bad_key_line_is_skipped(k: Seq<char>, v: Seq<char>, bad: int)
    requires
        k.len() > 0,
        ('a' <= k[0] && k[0] <= 'z') || ('A' <= k[0] && k[0] <= 'Z') || k[0] == '_',
        !is_ws(k.last()),
        !starts_with_s(k, "export "@),
        forall|i: int| 0 <= i < k.len() ==> #[trigger] k[i] != '=',
        0 <= bad < k.len(),
        !(('a' <= k[bad] && k[bad] <= 'z') || ('A' <= k[bad] && k[bad] <= 'Z') || ('0' <= k[bad] && k[bad]
            <= '9') || k[bad] == '_' || k[bad] == '.'),
    ensures
        parse_line_s(k + "="@ + v) is None,
{
    reveal_strlit("=");
    reveal_strlit("export ");
    let line = k + "="@ + v;
    let n = k.len() as int;
    assert(line[n] == '=');
    assert forall|i: int| 0 <= i < n implies line[i] == k[i] && line[i] != '=' by {
        assert(line[i] == k[i]);
    }
    assert(line[0] == k[0]);
    assert(!is_ws(line[0]));
    lemma_trim_start_at(line, 0);
    assert(line.skip(0) =~= line);
    assert(!starts_with_s(line, "export "@)) by {
        if starts_with_s(line, "export "@) {
            if n >= 7 {
                assert(k.take(7) =~= line.take(7));
            } else {
                assert(line.take(7)[n] == "export "@[n]);
            }
        }
    }
    assert(after_export(line) == line);
    lemma_char_pos_is(line, '=', 0, n);
    assert(line.take(n) =~= k);
    lemma_trim_start_at(k, 0);
    assert(k.skip(0) =~= k);
    crate::text::lemma_trim_end_at(k, n);
    assert(k.take(n) =~= k);
    assert(trim_s(k) == k);
    assert(!is_alnum(k[bad]));
    assert(!valid_key_s(k));
}

} // verus!
