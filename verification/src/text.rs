//! Character-level text primitives shared by the parsers.
//!
//! Text is modelled as a sequence of `char`s. The spec functions here give the
//! meaning of the std string operations the editors rely on (`lines`, `trim`,
//! `starts_with`, joining with a separator), and the executable functions
//! compute them over `Vec<char>`.

use vstd::prelude::*;

verus! {

// ---------------------------------------------------------------------------
// Specifications
// ---------------------------------------------------------------------------

/// `char::is_whitespace`: the Unicode `White_Space` property.
pub open spec fn is_ws(c: char) -> bool {
    ||| c == ' '
    ||| ('\t' <= c && c <= '\r')
    ||| c == '\u{85}'
    ||| c == '\u{A0}'
    ||| c == '\u{1680}'
    ||| ('\u{2000}' <= c && c <= '\u{200A}')
    ||| c == '\u{2028}'
    ||| c == '\u{2029}'
    ||| c == '\u{202F}'
    ||| c == '\u{205F}'
    ||| c == '\u{3000}'
}

/// `str::trim_start`: drop leading whitespace.
pub open spec fn trim_start_s(s: Seq<char>) -> Seq<char>
    decreases s.len(),
{
    if s.len() > 0 && is_ws(s[0]) {
        trim_start_s(s.drop_first())
    } else {
        s
    }
}

/// `str::trim_end`: drop trailing whitespace.
pub open spec fn trim_end_s(s: Seq<char>) -> Seq<char>
    decreases s.len(),
{
    if s.len() > 0 && is_ws(s.last()) {
        trim_end_s(s.drop_last())
    } else {
        s
    }
}

/// `str::trim`: drop leading and trailing whitespace.
pub open spec fn trim_s(s: Seq<char>) -> Seq<char> {
    trim_end_s(trim_start_s(s))
}

/// Whether `s` begins with `p`.
pub open spec fn starts_with_s(s: Seq<char>, p: Seq<char>) -> bool {
    p.len() <= s.len() && s.take(p.len() as int) == p
}

/// Whether `s` ends with `p`.
pub open spec fn ends_with_s(s: Seq<char>, p: Seq<char>) -> bool {
    p.len() <= s.len() && s.skip(s.len() - p.len()) == p
}

/// Whether `p` occurs in `s` at index `i`.
pub open spec fn occurs_at(s: Seq<char>, p: Seq<char>, i: int) -> bool {
    0 <= i && i + p.len() <= s.len() && s.subrange(i, i + p.len()) == p
}

/// Whether `p` occurs anywhere in `s` (`str::contains`).
pub open spec fn contains_s(s: Seq<char>, p: Seq<char>) -> bool {
    exists|i: int| occurs_at(s, p, i)
}

/// Index of the first `'\n'` in `s` at or after `i`, or `s.len()`.
pub open spec fn nl_pos(s: Seq<char>, i: int) -> int
    decreases s.len() - i,
{
    if i < 0 || i >= s.len() {
        s.len() as int
    } else if s[i] == '\n' {
        i
    } else {
        nl_pos(s, i + 1)
    }
}

/// Index of the first `c` in `s` at or after `i`, or `s.len()`.
pub open spec fn char_pos(s: Seq<char>, c: char, i: int) -> int
    decreases s.len() - i,
{
    if i < 0 || i >= s.len() {
        s.len() as int
    } else if s[i] == c {
        i
    } else {
        char_pos(s, c, i + 1)
    }
}

/// Drop one trailing `'\r'`.
pub open spec fn strip_cr(l: Seq<char>) -> Seq<char> {
    if l.len() > 0 && l.last() == '\r' {
        l.drop_last()
    } else {
        l
    }
}

/// `str::lines`: split at `'\n'`, dropping a `'\r'` before each `'\n'`; a
/// final `'\n'` does not start another line.
pub open spec fn lines_of(s: Seq<char>) -> Seq<Seq<char>>
    decreases s.len(),
{
    if s.len() == 0 {
        seq![]
    } else {
        let p = nl_pos(s, 0);
        if p >= s.len() {
            seq![s]
        } else {
            proof {
                lemma_nl_pos_ge(s, 0);
            }
            seq![strip_cr(s.take(p))] + lines_of(s.skip(p + 1))
        }
    }
}

/// `[..].join(sep)`: the lines with `sep` between consecutive ones.
pub open spec fn join_s(ls: Seq<Seq<char>>, sep: Seq<char>) -> Seq<char>
    decreases ls.len(),
{
    if ls.len() == 0 {
        seq![]
    } else if ls.len() == 1 {
        ls[0]
    } else {
        join_s(ls.drop_last(), sep) + sep + ls.last()
    }
}

/// Whether `"\r\n"` starts at index `i` of `s`.
pub open spec fn crlf_at(s: Seq<char>, i: int) -> bool {
    0 <= i && i + 1 < s.len() && s[i] == '\r' && s[i + 1] == '\n'
}

/// Whether `s` contains `"\r\n"`.
pub open spec fn has_crlf(s: Seq<char>) -> bool {
    exists|i: int| #[trigger] crlf_at(s, i)
}

/// The line ending a file uses: `"\r\n"` if it contains one, else `"\n"`.
pub open spec fn newline_of(s: Seq<char>) -> Seq<char> {
    if has_crlf(s) {
        seq!['\r', '\n']
    } else {
        seq!['\n']
    }
}

/// Whether a rewritten file gets a final line ending: the edited text ended
/// with `'\n'` or was empty.
pub open spec fn keeps_final_newline(s: Seq<char>) -> bool {
    s.len() == 0 || s.last() == '\n'
}

/// Rebuild file content from lines: joined by `nl`, plus a final `nl` when
/// `final_nl` holds.
pub open spec fn rebuild(ls: Seq<Seq<char>>, nl: Seq<char>, final_nl: bool) -> Seq<char> {
    if final_nl {
        join_s(ls, nl) + nl
    } else {
        join_s(ls, nl)
    }
}

/// The view of a vector of lines.
pub open spec fn lines_view(v: Seq<Vec<char>>) -> Seq<Seq<char>> {
    v.map_values(|l: Vec<char>| l@)
}

/// ASCII lowercase of one character.
pub open spec fn lower_c(c: char) -> char {
    if 'A' <= c && c <= 'Z' {
        ((c as u32) + 32) as char
    } else {
        c
    }
}

/// `to_ascii_lowercase` of a whole sequence.
pub open spec fn lower_s(s: Seq<char>) -> Seq<char> {
    s.map_values(|c: char| lower_c(c))
}

/// Whether every character of `s` is `c`.
pub open spec fn all_eq(s: Seq<char>, c: char) -> bool {
    forall|i: int| 0 <= i < s.len() ==> s[i] == c
}

// ---------------------------------------------------------------------------
// Lemmas
// ---------------------------------------------------------------------------

pub proof fn lemma_nl_pos_ge(s: Seq<char>, i: int)
    requires
        0 <= i,
    ensures
        nl_pos(s, i) >= i || nl_pos(s, i) == s.len(),
        nl_pos(s, i) >= 0,
    decreases s.len() - i,
{
    if i < s.len() && s[i] != '\n' {
        lemma_nl_pos_ge(s, i + 1);
    }
}

proof fn lemma_nl_pos(s: Seq<char>, i: int, k: int)
    requires
        0 <= i <= k <= s.len(),
        forall|j: int| i <= j < k ==> s[j] != '\n',
        k == s.len() || s[k] == '\n',
    ensures
        nl_pos(s, i) == k,
    decreases k - i,
{
    if i < k {
        lemma_nl_pos(s, i + 1, k);
    }
}

/// `char_pos` lies between its start and the length.
pub proof fn lemma_char_pos_range(s: Seq<char>, c: char, i: int)
    requires
        0 <= i <= s.len(),
    ensures
        i <= char_pos(s, c, i) <= s.len(),
        char_pos(s, c, i) < s.len() ==> s[char_pos(s, c, i)] == c,
        forall|j: int| i <= j < char_pos(s, c, i) ==> s[j] != c,
    decreases s.len() - i,
{
    if i < s.len() && s[i] != c {
        lemma_char_pos_range(s, c, i + 1);
    }
}

/// The lines of `s` from `start`, when the next `'\n'` is at `k`.
pub proof fn lemma_lines_step(s: Seq<char>, start: int, k: int)
    requires
        0 <= start <= k < s.len(),
        forall|j: int| start <= j < k ==> s[j] != '\n',
        s[k] == '\n',
    ensures
        lines_of(s.skip(start)) == seq![strip_cr(s.subrange(start, k))] + lines_of(
            s.skip(k + 1),
        ),
{
    let t = s.skip(start);
    lemma_nl_pos(t, 0, k - start);
    assert(t.take(k - start) =~= s.subrange(start, k));
    assert(t.skip(k - start + 1) =~= s.skip(k + 1));
}

/// The lines of `s` from `start`, when no `'\n'` remains.
pub proof fn lemma_lines_last(s: Seq<char>, start: int)
    requires
        0 <= start <= s.len(),
        forall|j: int| start <= j < s.len() ==> s[j] != '\n',
    ensures
        lines_of(s.skip(start)) == (if start < s.len() {
            seq![s.skip(start)]
        } else {
            Seq::<Seq<char>>::empty()
        }),
{
    let t = s.skip(start);
    if start < s.len() {
        lemma_nl_pos(t, 0, t.len() as int);
    }
}

/// Joining one more line.
pub proof fn lemma_join_push(ls: Seq<Seq<char>>, sep: Seq<char>, l: Seq<char>)
    ensures
        join_s(ls.push(l), sep) == if ls.len() == 0 {
            l
        } else {
            join_s(ls, sep) + sep + l
        },
{
    assert(ls.push(l).drop_last() =~= ls);
}

/// Whether `l` holds no line feed.
pub open spec fn no_nl(l: Seq<char>) -> bool {
    forall|j: int| 0 <= j < l.len() ==> l[j] != '\n'
}

/// Whether `l` ends with a carriage return.
pub open spec fn ends_cr(l: Seq<char>) -> bool {
    l.len() > 0 && l.last() == '\r'
}

/// The lines `lines_of` reads back from `rebuild(ls, nl, final_nl)`: a line
/// followed by a bare `"\n"` loses one trailing carriage return.
pub open spec fn reread(ls: Seq<Seq<char>>, nl: Seq<char>, final_nl: bool) -> Seq<Seq<char>> {
    Seq::new(
        ls.len(),
        |i: int|
            if nl == seq!['\n'] && (i + 1 < ls.len() || final_nl) {
                strip_cr(ls[i])
            } else {
                ls[i]
            },
    )
}

/// `nl_pos` lies between its start and the length, and finds the first
/// line feed.
pub proof fn lemma_nl_pos_range(s: Seq<char>, i: int)
    requires
        0 <= i <= s.len(),
    ensures
        i <= nl_pos(s, i) <= s.len(),
        nl_pos(s, i) < s.len() ==> s[nl_pos(s, i)] == '\n',
        forall|j: int| i <= j < nl_pos(s, i) ==> s[j] != '\n',
    decreases s.len() - i,
{
    if i < s.len() && s[i] != '\n' {
        lemma_nl_pos_range(s, i + 1);
    }
}

/// Concatenation keeps the absence of line feeds.
pub proof fn lemma_no_nl_add(a: Seq<char>, b: Seq<char>)
    requires
        no_nl(a),
        no_nl(b),
    ensures
        no_nl(a + b),
{
    assert forall|j: int| 0 <= j < (a + b).len() implies (a + b)[j] != '\n' by {
        if j >= a.len() {
            assert((a + b)[j] == b[j - a.len()]);
        }
    }
}

/// A prefix or suffix of a line without line feeds has none either.
pub proof fn lemma_no_nl_sub(a: Seq<char>, i: int, j: int)
    requires
        no_nl(a),
        0 <= i <= j <= a.len(),
    ensures
        no_nl(a.subrange(i, j)),
        no_nl(a.take(j)),
        no_nl(a.skip(i)),
{
    assert forall|k: int| 0 <= k < a.subrange(i, j).len() implies a.subrange(i, j)[k] != '\n' by {
        assert(a.subrange(i, j)[k] == a[i + k]);
    }
    assert forall|k: int| 0 <= k < a.skip(i).len() implies a.skip(i)[k] != '\n' by {
        assert(a.skip(i)[k] == a[i + k]);
    }
}

/// A line followed by a line feed is read as the first line, without a
/// trailing carriage return.
pub proof fn lemma_lines_split(a: Seq<char>, rest: Seq<char>)
    requires
        no_nl(a),
    ensures
        lines_of(a + seq!['\n'] + rest) == seq![strip_cr(a)] + lines_of(rest),
{
    let s = a + seq!['\n'] + rest;
    assert forall|j: int| 0 <= j < a.len() implies s[j] != '\n' by {
        assert(s[j] == a[j]);
    }
    lemma_nl_pos(s, 0, a.len() as int);
    assert(s.take(a.len() as int) =~= a);
    assert(s.skip(a.len() as int + 1) =~= rest);
}

/// A non-empty text without line feeds is one line.
pub proof fn lemma_lines_single(a: Seq<char>)
    requires
        no_nl(a),
        a.len() > 0,
    ensures
        lines_of(a) == seq![a],
{
    lemma_nl_pos(a, 0, a.len() as int);
}

/// Joining splits off the first line.
pub proof fn lemma_join_front(ls: Seq<Seq<char>>, sep: Seq<char>)
    requires
        ls.len() >= 2,
    ensures
        join_s(ls, sep) == ls[0] + sep + join_s(ls.skip(1), sep),
    decreases ls.len(),
{
    let dl = ls.drop_last();
    let tl = ls.skip(1);
    assert(join_s(ls, sep) == join_s(dl, sep) + sep + ls.last());
    if ls.len() == 2 {
        assert(dl.len() == 1);
        assert(join_s(dl, sep) == dl[0]);
        assert(tl.len() == 1);
        assert(join_s(tl, sep) == tl[0]);
        assert(join_s(ls, sep) =~= ls[0] + sep + join_s(tl, sep));
    } else {
        lemma_join_front(dl, sep);
        assert(dl.skip(1) =~= tl.drop_last());
        assert(tl.last() == ls.last());
        assert(join_s(tl, sep) == join_s(tl.drop_last(), sep) + sep + tl.last());
        assert(join_s(ls, sep) =~= ls[0] + sep + join_s(tl, sep));
    }
}

/// `lines_of` reads back the lines that `rebuild` joined, up to the carriage
/// returns that a bare `"\n"` ending consumes.
pub proof fn lemma_lines_rebuild(ls: Seq<Seq<char>>, nl: Seq<char>, final_nl: bool)
    requires
        ls.len() > 0,
        nl == seq!['\n'] || nl == seq!['\r', '\n'],
        forall|i: int| 0 <= i < ls.len() ==> no_nl(#[trigger] ls[i]),
        !final_nl ==> ls.last().len() > 0,
    ensures
        lines_of(rebuild(ls, nl, final_nl)) == reread(ls, nl, final_nl),
    decreases ls.len(),
{
    let a = ls[0];
    assert(no_nl(a));
    let cr = if nl == seq!['\n'] {
        a
    } else {
        a + seq!['\r']
    };
    assert(no_nl(cr)) by {
        if nl != seq!['\n'] {
            lemma_no_nl_add(a, seq!['\r']);
        }
    }
    assert(strip_cr(cr) == (if nl == seq!['\n'] {
        strip_cr(a)
    } else {
        a
    })) by {
        if nl != seq!['\n'] {
            assert((a + seq!['\r']).drop_last() =~= a);
        }
    }
    if ls.len() == 1 {
        assert(join_s(ls, nl) == a);
        if final_nl {
            assert(rebuild(ls, nl, final_nl) =~= cr + seq!['\n'] + Seq::<char>::empty());
            lemma_lines_split(cr, Seq::<char>::empty());
        } else {
            lemma_lines_single(a);
        }
        assert(lines_of(rebuild(ls, nl, final_nl)) =~= reread(ls, nl, final_nl));
    } else {
        let tail = ls.skip(1);
        lemma_join_front(ls, nl);
        assert(rebuild(ls, nl, final_nl) =~= cr + seq!['\n'] + rebuild(tail, nl, final_nl));
        lemma_lines_split(cr, rebuild(tail, nl, final_nl));
        assert forall|i: int| 0 <= i < tail.len() implies no_nl(#[trigger] tail[i]) by {
            assert(tail[i] == ls[i + 1]);
        }
        lemma_lines_rebuild(tail, nl, final_nl);
        assert(lines_of(rebuild(ls, nl, final_nl)) =~= reread(ls, nl, final_nl));
    }
}

/// The shape of the lines of any text: no line holds a line feed; without
/// `"\r\n"` in the text no terminated line ends in a carriage return; an
/// unterminated last line is not empty and ends with the text's last
/// character.
pub proof fn lemma_lines_shape(c: Seq<char>)
    ensures
        forall|i: int| 0 <= i < lines_of(c).len() ==> no_nl(#[trigger] lines_of(c)[i]),
        !has_crlf(c) ==> forall|i: int|
            0 <= i < lines_of(c).len() && (i + 1 < lines_of(c).len() || keeps_final_newline(c))
                ==> !ends_cr(#[trigger] lines_of(c)[i]),
        !keeps_final_newline(c) ==> lines_of(c).len() > 0 && lines_of(c).last().len() > 0
            && lines_of(c).last().last() == c.last(),
        c.len() > 0 ==> lines_of(c).len() > 0,
    decreases c.len(),
{
    if c.len() > 0 {
        let p = nl_pos(c, 0);
        lemma_nl_pos_range(c, 0);
        if p >= c.len() {
            assert(lines_of(c) == seq![c]);
            assert(c.last() != '\n');
        } else {
            lemma_nl_pos_ge(c, 0);
            let r = c.skip(p + 1);
            let first = strip_cr(c.take(p));
            let lr = lines_of(r);
            assert(lines_of(c) == seq![first] + lr);
            lemma_lines_shape(r);
            lemma_no_nl_sub(c.take(p), 0, p);
            assert(no_nl(c.take(p))) by {
                assert forall|j: int| 0 <= j < c.take(p).len() implies c.take(p)[j] != '\n' by {
                    assert(c.take(p)[j] == c[j]);
                }
            }
            assert(no_nl(first)) by {
                if ends_cr(c.take(p)) {
                    lemma_no_nl_sub(c.take(p), 0, p - 1);
                    assert(c.take(p).drop_last() =~= c.take(p).take(p - 1));
                }
            }
            if !has_crlf(c) {
                assert(!ends_cr(c.take(p))) by {
                    if ends_cr(c.take(p)) {
                        assert(crlf_at(c, p - 1));
                    }
                }
                assert(!has_crlf(r)) by {
                    if has_crlf(r) {
                        let i = choose|i: int| #[trigger] crlf_at(r, i);
                        assert(crlf_at(c, i + p + 1));
                    }
                }
            }
            if r.len() > 0 {
                assert(r.last() == c.last());
            } else {
                assert(c.last() == c[p]);
            }
            assert forall|i: int| 0 <= i < lines_of(c).len() implies no_nl(#[trigger] lines_of(c)[i]) by {
                if i > 0 {
                    assert(lines_of(c)[i] == lr[i - 1]);
                }
            }
            if !has_crlf(c) {
                assert forall|i: int|
                    0 <= i < lines_of(c).len() && (i + 1 < lines_of(c).len() || keeps_final_newline(c))
                    implies !ends_cr(#[trigger] lines_of(c)[i]) by {
                    if i > 0 {
                        assert(lines_of(c)[i] == lr[i - 1]);
                    }
                }
            }
        }
    }
}

/// `trim_start_s` drops exactly the whitespace before index `j` when `j` is
/// the first non-whitespace index.
pub proof fn lemma_trim_start_at(s: Seq<char>, j: int)
    requires
        0 <= j <= s.len(),
        forall|i: int| 0 <= i < j ==> is_ws(#[trigger] s[i]),
        j == s.len() || !is_ws(s[j]),
    ensures
        trim_start_s(s) == s.skip(j),
    decreases j,
{
    if j > 0 {
        let t = s.drop_first();
        assert forall|i: int| 0 <= i < j - 1 implies is_ws(#[trigger] t[i]) by {
            assert(t[i] == s[i + 1]);
            assert(is_ws(s[i + 1]));
        }
        assert(is_ws(s[0]));
        lemma_trim_start_at(t, j - 1);
        assert(t.skip(j - 1) =~= s.skip(j));
    } else {
        assert(s.skip(0) =~= s);
    }
}

/// The first non-whitespace index of `s` (or its length).
pub proof fn lemma_trim_start_idx(s: Seq<char>) -> (j: int)
    ensures
        0 <= j <= s.len(),
        forall|i: int| 0 <= i < j ==> is_ws(#[trigger] s[i]),
        j == s.len() || !is_ws(s[j]),
        trim_start_s(s) == s.skip(j),
    decreases s.len(),
{
    if s.len() > 0 && is_ws(s[0]) {
        let t = s.drop_first();
        let k = lemma_trim_start_idx(t);
        assert forall|i: int| 0 <= i < k + 1 implies is_ws(#[trigger] s[i]) by {
            if i > 0 {
                assert(s[i] == t[i - 1]);
            }
        }
        assert(t.skip(k) =~= s.skip(k + 1));
        if k < t.len() {
            assert(s[k + 1] == t[k]);
        }
        k + 1
    } else {
        assert(s.skip(0) =~= s);
        0
    }
}

/// `trim_end_s` keeps exactly the prefix up to `j` when every character
/// from `j` on is whitespace and the one before `j` is not.
pub proof fn lemma_trim_end_at(s: Seq<char>, j: int)
    requires
        0 <= j <= s.len(),
        forall|i: int| j <= i < s.len() ==> is_ws(#[trigger] s[i]),
        j == 0 || !is_ws(s[j - 1]),
    ensures
        trim_end_s(s) == s.take(j),
    decreases s.len() - j,
{
    if j < s.len() {
        let t = s.drop_last();
        assert(is_ws(s[s.len() - 1]));
        assert forall|i: int| j <= i < t.len() implies is_ws(#[trigger] t[i]) by {
            assert(t[i] == s[i]);
        }
        if j > 0 {
            assert(t[j - 1] == s[j - 1]);
        }
        lemma_trim_end_at(t, j);
        assert(t.take(j) =~= s.take(j));
    } else {
        assert(s.take(s.len() as int) =~= s);
    }
}

/// The index after the last non-whitespace character of `s` (or 0).
pub proof fn lemma_trim_end_idx(s: Seq<char>) -> (j: int)
    ensures
        0 <= j <= s.len(),
        forall|i: int| j <= i < s.len() ==> is_ws(#[trigger] s[i]),
        j == 0 || !is_ws(s[j - 1]),
        trim_end_s(s) == s.take(j),
    decreases s.len(),
{
    if s.len() > 0 && is_ws(s.last()) {
        let t = s.drop_last();
        let k = lemma_trim_end_idx(t);
        assert forall|i: int| k <= i < s.len() implies is_ws(#[trigger] s[i]) by {
            if i < t.len() {
                assert(s[i] == t[i]);
            }
        }
        assert(t.take(k) =~= s.take(k));
        if k > 0 {
            assert(s[k - 1] == t[k - 1]);
        }
        k
    } else {
        assert(s.take(s.len() as int) =~= s);
        s.len() as int
    }
}

/// Trimming the end first does not change what a full trim gives.
pub proof fn lemma_trim_of_trim_end(x: Seq<char>)
    ensures
        trim_s(trim_end_s(x)) == trim_s(x),
{
    let b = lemma_trim_end_idx(x);
    let a = lemma_trim_start_idx(x);
    if b == 0 {
        assert forall|i: int| 0 <= i < x.len() implies is_ws(#[trigger] x[i]) by {}
        lemma_trim_start_at(x, x.len() as int);
        assert(x.skip(x.len() as int) =~= Seq::<char>::empty());
        assert(x.take(0) =~= Seq::<char>::empty());
    } else {
        assert(a <= b - 1) by {
            if a > b - 1 {
                assert(is_ws(x[b - 1]));
            }
        }
        let xb = x.take(b);
        assert forall|i: int| 0 <= i < a implies is_ws(#[trigger] xb[i]) by {
            assert(xb[i] == x[i]);
        }
        lemma_trim_start_at(xb, a);
        let mid = xb.skip(a);
        assert(mid.len() > 0 && mid.last() == x[b - 1]);
        assert(trim_end_s(mid) == mid);
        let xa = x.skip(a);
        assert forall|i: int| b - a <= i < xa.len() implies is_ws(#[trigger] xa[i]) by {
            assert(xa[i] == x[i + a]);
        }
        assert(xa[b - a - 1] == x[b - 1]);
        lemma_trim_end_at(xa, b - a);
        assert(xa.take(b - a) =~= mid);
    }
}

/// `char_pos` finds `c` at `k` when `k` holds `c` and nothing from `i` to
/// `k` does (or `k` is the length).
pub proof fn lemma_char_pos_is(s: Seq<char>, c: char, i: int, k: int)
    requires
        0 <= i <= k <= s.len(),
        forall|j: int| i <= j < k ==> s[j] != c,
        k == s.len() || s[k] == c,
    ensures
        char_pos(s, c, i) == k,
    decreases k - i,
{
    if i < k {
        lemma_char_pos_is(s, c, i + 1, k);
    }
}

// ---------------------------------------------------------------------------
// Executable functions
// ---------------------------------------------------------------------------

/// Append one character to a `String`.
///
/// Trusted wrapper around `String::push`: the contract states that the
/// string's characters gain `c` at the end, as std documents.
#[verifier::external_body]
pub(crate) fn push_char(s: &mut String, c: char)
    ensures
        final(s)@ == old(s)@.push(c),
{
    s.push(c);
}

/// The characters of `s`, in order.
pub fn chars_of(s: &str) -> (out: Vec<char>)
    ensures
        out@ == s@,
{
    broadcast use vstd::string::axiom_spec_iter;

    let mut out: Vec<char> = Vec::new();
    for c in it: s.chars()
        invariant
            out@ == it.seq().take(it.index() as int),
            it.seq() == s@,
    {
        out.push(c);
        assert(out@ =~= it.seq().take(it.index() + 1));
    }
    assert(out@ =~= s@);
    out
}

/// Collect characters into a `String`.
pub fn string_of(cs: &Vec<char>) -> (out: String)
    ensures
        out@ == cs@,
{
    let mut out = String::new();
    let mut i: usize = 0;
    while i < cs.len()
        invariant
            i <= cs.len(),
            out@ == cs@.subrange(0, i as int),
        decreases cs.len() - i,
    {
        push_char(&mut out, cs[i]);
        i = i + 1;
        assert(out@ =~= cs@.subrange(0, i as int));
    }
    assert(out@ =~= cs@);
    out
}

/// The characters `v[i..j]`.
pub fn slice(v: &Vec<char>, i: usize, j: usize) -> (out: Vec<char>)
    requires
        i <= j <= v.len(),
    ensures
        out@ == v@.subrange(i as int, j as int),
{
    let mut out: Vec<char> = Vec::new();
    let mut k = i;
    while k < j
        invariant
            i <= k <= j <= v.len(),
            out@ == v@.subrange(i as int, k as int),
        decreases j - k,
    {
        out.push(v[k]);
        k = k + 1;
        assert(out@ =~= v@.subrange(i as int, k as int));
    }
    out
}

/// Append all of `src` to `dst`.
pub fn append(dst: &mut Vec<char>, src: &[char])
    ensures
        final(dst)@ == old(dst)@ + src@,
{
    let mut k: usize = 0;
    while k < src.len()
        invariant
            k <= src.len(),
            dst@ == old(dst)@ + src@.take(k as int),
        decreases src.len() - k,
    {
        dst.push(src[k]);
        k = k + 1;
        assert(dst@ =~= old(dst)@ + src@.take(k as int));
    }
    assert(src@.take(src@.len() as int) =~= src@);
}

/// `char::is_whitespace`.
pub fn is_ws_char(c: char) -> (r: bool)
    ensures
        r == is_ws(c),
{
    c == ' ' || ('\t' <= c && c <= '\r') || c == '\u{85}' || c == '\u{A0}' || c == '\u{1680}'
        || ('\u{2000}' <= c && c <= '\u{200A}') || c == '\u{2028}' || c == '\u{2029}' || c
        == '\u{202F}' || c == '\u{205F}' || c == '\u{3000}'
}

/// Index of the first non-whitespace character of `v` (or its length).
pub fn ws_prefix(v: &Vec<char>) -> (i: usize)
    ensures
        i <= v.len(),
        trim_start_s(v@) == v@.skip(i as int),
        forall|j: int| 0 <= j < i ==> is_ws(#[trigger] v@[j]),
{
    let mut i: usize = 0;
    assert(v@.skip(0) =~= v@);
    while i < v.len() && is_ws_char(v[i])
        invariant
            i <= v.len(),
            trim_start_s(v@) == trim_start_s(v@.skip(i as int)),
            forall|j: int| 0 <= j < i ==> is_ws(#[trigger] v@[j]),
        decreases v.len() - i,
    {
        assert(v@.skip(i as int).drop_first() =~= v@.skip(i + 1));
        i = i + 1;
    }
    i
}

/// Index one past the last non-whitespace character of `v` (or 0).
pub fn ws_suffix(v: &Vec<char>) -> (j: usize)
    ensures
        j <= v.len(),
        trim_end_s(v@) == v@.take(j as int),
        forall|k: int| j <= k < v.len() ==> is_ws(#[trigger] v@[k]),
{
    let mut j: usize = v.len();
    assert(v@.take(j as int) =~= v@);
    while j > 0 && is_ws_char(v[j - 1])
        invariant
            j <= v.len(),
            trim_end_s(v@) == trim_end_s(v@.take(j as int)),
            forall|k: int| j <= k < v.len() ==> is_ws(#[trigger] v@[k]),
        decreases j,
    {
        assert(v@.take(j as int).drop_last() =~= v@.take(j - 1));
        j = j - 1;
    }
    j
}

/// `trim_start`.
pub fn trim_start(v: &Vec<char>) -> (out: Vec<char>)
    ensures
        out@ == trim_start_s(v@),
{
    let i = ws_prefix(v);
    slice(v, i, v.len())
}

/// `trim_end`.
pub fn trim_end(v: &Vec<char>) -> (out: Vec<char>)
    ensures
        out@ == trim_end_s(v@),
{
    let j = ws_suffix(v);
    slice(v, 0, j)
}

/// `trim`.
pub fn trim(v: &Vec<char>) -> (out: Vec<char>)
    ensures
        out@ == trim_s(v@),
{
    let a = trim_start(v);
    trim_end(&a)
}

/// Whether `v` starts with `p`.
pub fn starts_with(v: &Vec<char>, p: &[char]) -> (r: bool)
    ensures
        r == starts_with_s(v@, p@),
{
    if p.len() > v.len() {
        return false;
    }
    let mut k: usize = 0;
    while k < p.len()
        invariant
            p.len() <= v.len(),
            k <= p.len(),
            forall|j: int| 0 <= j < k ==> v@[j] == p@[j],
        decreases p.len() - k,
    {
        if v[k] != p[k] {
            assert(v@.take(p@.len() as int)[k as int] != p@[k as int]);
            return false;
        }
        k = k + 1;
    }
    assert(v@.take(p@.len() as int) =~= p@);
    true
}

/// Whether `v` ends with `p`.
pub fn ends_with(v: &Vec<char>, p: &[char]) -> (r: bool)
    ensures
        r == ends_with_s(v@, p@),
{
    if p.len() > v.len() {
        return false;
    }
    let off = v.len() - p.len();
    let mut k: usize = 0;
    while k < p.len()
        invariant
            p.len() <= v.len(),
            off == v.len() - p.len(),
            k <= p.len(),
            forall|j: int| 0 <= j < k ==> v@[off + j] == p@[j],
        decreases p.len() - k,
    {
        if v[off + k] != p[k] {
            assert(v@.skip(off as int)[k as int] != p@[k as int]);
            return false;
        }
        k = k + 1;
    }
    assert(v@.skip(off as int) =~= p@);
    true
}

/// Whether `p` occurs in `v` at index `i`.
pub fn occurs_at_exec(v: &Vec<char>, p: &[char], i: usize) -> (r: bool)
    ensures
        r == occurs_at(v@, p@, i as int),
{
    if i > v.len() || p.len() > v.len() - i {
        return false;
    }
    let mut k: usize = 0;
    while k < p.len()
        invariant
            i + p.len() <= v.len(),
            k <= p.len(),
            forall|j: int| 0 <= j < k ==> v@[i + j] == p@[j],
        decreases p.len() - k,
    {
        if v[i + k] != p[k] {
            assert(v@.subrange(i as int, i + p@.len())[k as int] != p@[k as int]);
            return false;
        }
        k = k + 1;
    }
    assert(v@.subrange(i as int, i + p@.len()) =~= p@);
    true
}

/// Whether `p` occurs anywhere in `v`.
pub fn contains(v: &Vec<char>, p: &[char]) -> (r: bool)
    ensures
        r == contains_s(v@, p@),
{
    let mut i: usize = 0;
    while i < v.len()
        invariant
            i <= v.len(),
            forall|j: int| 0 <= j < i ==> !occurs_at(v@, p@, j),
        decreases v.len() - i,
    {
        if occurs_at_exec(v, p, i) {
            return true;
        }
        i = i + 1;
    }
    if occurs_at_exec(v, p, i) {
        return true;
    }
    assert forall|j: int| !occurs_at(v@, p@, j) by {
        if 0 <= j <= i {
        }
    }
    false
}

/// Index of the first `c` in `v` at or after `from`, or `v.len()`.
pub fn find_char(v: &Vec<char>, c: char, from: usize) -> (r: usize)
    requires
        from <= v.len(),
    ensures
        r == char_pos(v@, c, from as int),
        from <= r <= v.len(),
        r < v.len() ==> v@[r as int] == c,
        forall|j: int| from <= j < r ==> v@[j] != c,
{
    let mut i = from;
    while i < v.len() && v[i] != c
        invariant
            from <= i <= v.len(),
            char_pos(v@, c, from as int) == char_pos(v@, c, i as int),
            forall|j: int| from <= j < i ==> v@[j] != c,
        decreases v.len() - i,
    {
        i = i + 1;
    }
    i
}

/// Whether `c` occurs in `v`.
pub fn has_char(v: &Vec<char>, c: char) -> (r: bool)
    ensures
        r == v@.contains(c),
{
    let mut i: usize = 0;
    while i < v.len()
        invariant
            i <= v.len(),
            forall|j: int| 0 <= j < i ==> v@[j] != c,
        decreases v.len() - i,
    {
        if v[i] == c {
            return true;
        }
        i = i + 1;
    }
    false
}

/// Whether two character vectors are equal.
pub fn eq_chars(a: &Vec<char>, b: &Vec<char>) -> (r: bool)
    ensures
        r == (a@ == b@),
{
    if a.len() != b.len() {
        return false;
    }
    let mut i: usize = 0;
    while i < a.len()
        invariant
            a.len() == b.len(),
            i <= a.len(),
            forall|j: int| 0 <= j < i ==> a@[j] == b@[j],
        decreases a.len() - i,
    {
        if a[i] != b[i] {
            return false;
        }
        i = i + 1;
    }
    assert(a@ =~= b@);
    true
}

/// Whether two strings are equal.
pub fn eq_str(a: &str, b: &str) -> (r: bool)
    ensures
        r == (a@ == b@),
{
    let x = chars_of(a);
    let y = chars_of(b);
    eq_chars(&x, &y)
}

/// Split text into lines as `str::lines` does.
pub fn split_lines(v: &Vec<char>) -> (out: Vec<Vec<char>>)
    ensures
        lines_view(out@) == lines_of(v@),
{
    let mut out: Vec<Vec<char>> = Vec::new();
    let mut start: usize = 0;
    let mut i: usize = 0;
    assert(v@.skip(0) =~= v@);
    while i < v.len()
        invariant
            start <= i <= v.len(),
            forall|j: int| start <= j < i ==> v@[j] != '\n',
            lines_of(v@) == lines_view(out@) + lines_of(v@.skip(start as int)),
        decreases v.len() - i,
    {
        if v[i] == '\n' {
            proof {
                lemma_lines_step(v@, start as int, i as int);
            }
            let mut line = slice(v, start, i);
            if line.len() > 0 && line[line.len() - 1] == '\r' {
                line.pop();
            }
            assert(line@ == strip_cr(v@.subrange(start as int, i as int)));
            let ghost before = out@;
            out.push(line);
            assert(lines_view(out@) =~= lines_view(before).push(line@));
            start = i + 1;
        }
        i = i + 1;
    }
    proof {
        lemma_lines_last(v@, start as int);
    }
    if start < v.len() {
        let line = slice(v, start, v.len());
        assert(line@ =~= v@.skip(start as int));
        let ghost before = out@;
        out.push(line);
        assert(lines_view(out@) =~= lines_view(before).push(line@));
    } else {
        assert(lines_view(out@) =~= lines_view(out@) + Seq::<Seq<char>>::empty());
    }
    out
}

/// Join lines with `sep` between consecutive ones.
pub fn join(ls: &Vec<Vec<char>>, sep: &[char]) -> (out: Vec<char>)
    ensures
        out@ == join_s(lines_view(ls@), sep@),
{
    let mut out: Vec<char> = Vec::new();
    let mut k: usize = 0;
    while k < ls.len()
        invariant
            k <= ls.len(),
            out@ == join_s(lines_view(ls@.take(k as int)), sep@),
        decreases ls.len() - k,
    {
        proof {
            lemma_join_push(lines_view(ls@.take(k as int)), sep@, ls@[k as int]@);
            assert(lines_view(ls@.take(k + 1)) =~= lines_view(ls@.take(k as int)).push(
                ls@[k as int]@,
            ));
        }
        if k > 0 {
            append(&mut out, sep);
        }
        append(&mut out, ls[k].as_slice());
        k = k + 1;
    }
    assert(ls@.take(ls@.len() as int) =~= ls@);
    out
}

/// Whether the text contains `"\r\n"`.
pub fn has_crlf_exec(v: &Vec<char>) -> (r: bool)
    ensures
        r == has_crlf(v@),
{
    let mut i: usize = 0;
    while v.len() > 1 && i < v.len() - 1
        invariant
            forall|j: int| 0 <= j < i ==> !#[trigger] crlf_at(v@, j),
        decreases v.len() - i,
    {
        if v[i] == '\r' && v[i + 1] == '\n' {
            assert(crlf_at(v@, i as int));
            return true;
        }
        i = i + 1;
    }
    assert forall|j: int| !#[trigger] crlf_at(v@, j) by {
        if 0 <= j < i {
        }
    }
    false
}

/// The file's line ending: `"\r\n"` if it contains one, else `"\n"`.
pub fn newline_exec(v: &Vec<char>) -> (nl: Vec<char>)
    ensures
        nl@ == newline_of(v@),
{
    if has_crlf_exec(v) {
        let nl = vec!['\r', '\n'];
        assert(nl@ =~= seq!['\r', '\n']);
        nl
    } else {
        let nl = vec!['\n'];
        assert(nl@ =~= seq!['\n']);
        nl
    }
}

/// Whether the content ends with `'\n'` or is empty.
pub fn keeps_final_newline_exec(v: &Vec<char>) -> (r: bool)
    ensures
        r == keeps_final_newline(v@),
{
    v.len() == 0 || v[v.len() - 1] == '\n'
}

/// Rebuild file content from lines.
pub fn rebuild_exec(ls: &Vec<Vec<char>>, nl: &Vec<char>, final_nl: bool) -> (out: Vec<char>)
    ensures
        out@ == rebuild(lines_view(ls@), nl@, final_nl),
{
    let mut out = join(ls, nl.as_slice());
    if final_nl {
        append(&mut out, nl.as_slice());
    }
    out
}

/// ASCII lowercase of one character.
pub fn lower_char(c: char) -> (r: char)
    ensures
        r == lower_c(c),
{
    if 'A' <= c && c <= 'Z' {
        let u = (c as u32) + 32;
        assert('a' <= u <= 'z') by {
            assert((c as u32) >= 65 && (c as u32) <= 90);
        }
        char_from_ascii(u)
    } else {
        c
    }
}

/// The character with code `u`, for an ASCII lowercase letter.
fn char_from_ascii(u: u32) -> (c: char)
    requires
        97 <= u <= 122,
    ensures
        c == u as char,
{
    let b = u as u8;
    b as char
}

/// `to_ascii_lowercase`.
pub fn lower(v: &Vec<char>) -> (out: Vec<char>)
    ensures
        out@ == lower_s(v@),
{
    let mut out: Vec<char> = Vec::new();
    let mut i: usize = 0;
    while i < v.len()
        invariant
            i <= v.len(),
            out@ == lower_s(v@.take(i as int)),
        decreases v.len() - i,
    {
        out.push(lower_char(v[i]));
        i = i + 1;
        assert(out@ =~= lower_s(v@.take(i as int)));
    }
    assert(v@.take(v@.len() as int) =~= v@);
    out
}

/// Whether every character of `v` is `c`.
pub fn all_eq_exec(v: &Vec<char>, c: char) -> (r: bool)
    ensures
        r == all_eq(v@, c),
{
    let mut i: usize = 0;
    while i < v.len()
        invariant
            i <= v.len(),
            all_eq(v@.take(i as int), c),
        decreases v.len() - i,
    {
        if v[i] != c {
            assert(v@[i as int] != c);
            return false;
        }
        i = i + 1;
        assert(all_eq(v@.take(i as int), c));
    }
    assert(v@.take(v@.len() as int) =~= v@);
    true
}


// ---------------------------------------------------------------------------
// Decimal numbers
// ---------------------------------------------------------------------------

/// The decimal digit for `d` (taken modulo ten).
pub open spec fn digit_c(d: nat) -> char {
    let r = d % 10;
    if r == 0 {
        '0'
    } else if r == 1 {
        '1'
    } else if r == 2 {
        '2'
    } else if r == 3 {
        '3'
    } else if r == 4 {
        '4'
    } else if r == 5 {
        '5'
    } else if r == 6 {
        '6'
    } else if r == 7 {
        '7'
    } else if r == 8 {
        '8'
    } else {
        '9'
    }
}

/// The decimal rendering of `n`, as `usize`'s `Display` writes it.
pub open spec fn dec_s(n: nat) -> Seq<char>
    decreases n,
{
    if n < 10 {
        seq![digit_c(n)]
    } else {
        dec_s(n / 10) + seq![digit_c(n % 10)]
    }
}

fn digit_of(d: usize) -> (c: char)
    requires
        d < 10,
    ensures
        c == digit_c(d as nat),
{
    if d == 0 {
        '0'
    } else if d == 1 {
        '1'
    } else if d == 2 {
        '2'
    } else if d == 3 {
        '3'
    } else if d == 4 {
        '4'
    } else if d == 5 {
        '5'
    } else if d == 6 {
        '6'
    } else if d == 7 {
        '7'
    } else if d == 8 {
        '8'
    } else {
        '9'
    }
}

/// The decimal rendering of `n`.
pub fn decimal(n: usize) -> (out: Vec<char>)
    ensures
        out@ == dec_s(n as nat),
    decreases n,
{
    if n < 10 {
        let mut out: Vec<char> = Vec::new();
        out.push(digit_of(n));
        assert(out@ =~= seq![digit_c(n as nat)]);
        out
    } else {
        let mut out = decimal(n / 10);
        out.push(digit_of(n % 10));
        out
    }
}


// ---------------------------------------------------------------------------
// Splitting at a character
// ---------------------------------------------------------------------------

/// `str::split` at a single character: the pieces between occurrences of
/// `c`; the empty text gives one empty piece.
pub open spec fn split_s(s: Seq<char>, c: char) -> Seq<Seq<char>>
    decreases s.len(),
{
    let p = char_pos(s, c, 0);
    if p >= s.len() {
        seq![s]
    } else {
        proof {
            lemma_char_pos_range(s, c, 0);
        }
        seq![s.take(p)] + split_s(s.skip(p + 1), c)
    }
}

/// The pieces of `v` between occurrences of `c`.
pub fn split_char(v: &Vec<char>, c: char) -> (out: Vec<Vec<char>>)
    ensures
        lines_view(out@) == split_s(v@, c),
{
    let mut out: Vec<Vec<char>> = Vec::new();
    let mut start: usize = 0;
    let mut done = false;
    proof {
        assert(v@.skip(0) =~= v@);
    }
    while !done
        invariant
            start <= v.len(),
            !done ==> lines_view(out@) + split_s(v@.skip(start as int), c) == split_s(v@, c),
            done ==> lines_view(out@) == split_s(v@, c),
        decreases v.len() - start + (if done { 0int } else { 1int }),
    {
        let p = find_char(v, c, start);
        let ghost rest = v@.skip(start as int);
        proof {
            lemma_char_pos_range(v@, c, start as int);
            lemma_char_pos_shift(v@, c, start as int);
        }
        let piece = slice(v, start, p);
        let ghost before = out@;
        out.push(piece);
        assert(lines_view(out@) =~= lines_view(before).push(piece@));
        if p == v.len() {
            assert(rest =~= piece@);
            assert(split_s(rest, c) == seq![rest]);
            assert(lines_view(out@) =~= lines_view(before) + split_s(rest, c));
            done = true;
        } else {
            assert(piece@ =~= rest.take(p - start));
            assert(rest.skip(p - start + 1) =~= v@.skip(p + 1));
            assert(split_s(rest, c) == seq![rest.take(p - start)] + split_s(rest.skip(p - start + 1), c));
            assert(lines_view(out@) + split_s(v@.skip(p + 1), c) =~= lines_view(before) + split_s(rest, c));
            start = p + 1;
        }
    }
    out
}

/// Searching from `i` finds the same character as searching the suffix.
pub proof fn lemma_char_pos_shift(s: Seq<char>, c: char, i: int)
    requires
        0 <= i <= s.len(),
    ensures
        char_pos(s.skip(i), c, 0) == char_pos(s, c, i) - i,
    decreases s.len() - i,
{
    lemma_char_pos_shift_from(s, c, i, 0);
}

proof fn lemma_char_pos_shift_from(s: Seq<char>, c: char, i: int, k: int)
    requires
        0 <= i <= s.len(),
        0 <= k <= s.len() - i,
    ensures
        char_pos(s.skip(i), c, k) == char_pos(s, c, i + k) - i,
    decreases s.len() - i - k,
{
    if k < s.len() - i {
        lemma_char_pos_shift_from(s, c, i, k + 1);
    }
}


/// Trimming the end keeps a prefix.
pub proof fn lemma_trim_end_prefix(s: Seq<char>)
    ensures
        trim_end_s(s).len() <= s.len(),
        s.take(trim_end_s(s).len() as int) == trim_end_s(s),
    decreases s.len(),
{
    if s.len() > 0 && is_ws(s.last()) {
        lemma_trim_end_prefix(s.drop_last());
        assert(s.take(trim_end_s(s).len() as int) =~= s.drop_last().take(trim_end_s(s).len() as int));
    } else {
        assert(s.take(s.len() as int) =~= s);
    }
}

/// The bytes `v[i..j]`.
pub fn slice_bytes(v: &Vec<u8>, i: usize, j: usize) -> (out: Vec<u8>)
    requires
        i <= j <= v.len(),
    ensures
        out@ == v@.subrange(i as int, j as int),
{
    let mut out: Vec<u8> = Vec::new();
    let mut k = i;
    while k < j
        invariant
            i <= k <= j <= v.len(),
            out@ == v@.subrange(i as int, k as int),
        decreases j - k,
    {
        out.push(v[k]);
        assert(v@.subrange(i as int, k + 1) =~= v@.subrange(i as int, k as int).push(v@[k as int]));
        k = k + 1;
    }
    out
}

} // verus!
