//! Key changes of a service's configmap/secrets files between two branches:
//! per-file diffs, cross-kind "moved" annotations within an environment, and
//! the markdown and tree renderings of the result.
//!
//! Everything here works on file contents that were already read from the
//! branches, so no git or filesystem access happens in this module.

use vstd::prelude::*;

use crate::model::FileKind;
use crate::order::{
    insert_sorted, is_sorted_listing, lemma_lex_asymmetric, lemma_lex_transitive,
    lemma_lex_trichotomy, lemma_sorted_list_is, lex_less, lex_lt, sorted_list, strictly_sorted,
};
use crate::parser::{pairs_view, parse, parse_kind_s, ParsedPair};
use crate::color::{colorize_s, paint, AnsiColor, ColorConfig};
use crate::display::TreeItem;
use crate::text::{
    append, chars_of, eq_chars, join, join_s, lines_view, split_char, split_s, string_of, trim,
    trim_end, trim_end_s, trim_s,
};

verus! {

broadcast use vstd::seq_lib::group_seq_properties, vstd::seq_lib::group_to_multiset_ensures;

/// How a key changed between the branches.
#[derive(Debug, Clone, Copy, PartialEq, Eq, Structural)]
pub enum ChangeKind {
    /// Present on `--from`, absent on `--to`.
    Created,
    /// Present on both branches with a different value (configmap only).
    Updated,
    /// Present on `--to`, absent on `--from`.
    Deleted,
}

/// A single finalized change ready for rendering.
#[derive(Debug, Clone, PartialEq, Eq)]
pub struct Item {
    pub kind: FileKind,
    pub change: ChangeKind,
    pub key: String,
    /// The value shown: the `--from` value for configmap items, or the
    /// plain-text value of a secret moved out of a configmap; `None` when
    /// redacted or not shown.
    pub value: Option<String>,
    /// The `--to` (old) value, for configmap Updated items.
    pub old_value: Option<String>,
    /// Annotation suffix such as `(from secret)`; empty when none.
    pub note: String,
}

/// The mathematical content of an [`Item`].
pub struct ItemView {
    pub kind: FileKind,
    pub change: ChangeKind,
    pub key: Seq<char>,
    pub value: Option<Seq<char>>,
    pub old_value: Option<Seq<char>>,
    pub note: Seq<char>,
}

/// The view of an optional string.
pub open spec fn opt_view(o: Option<String>) -> Option<Seq<char>> {
    match o {
        Some(s) => Some(s@),
        None => None,
    }
}

impl View for Item {
    type V = ItemView;

    open spec fn view(&self) -> ItemView {
        ItemView {
            kind: self.kind,
            change: self.change,
            key: self.key@,
            value: opt_view(self.value),
            old_value: opt_view(self.old_value),
            note: self.note@,
        }
    }
}

/// The view of a list of items.
pub open spec fn items_view(s: Seq<Item>) -> Seq<ItemView> {
    s.map_values(|it: Item| it@)
}

/// The finalized changes of one file.
#[derive(Debug, Clone, PartialEq, Eq)]
pub struct FileReport {
    pub display: String,
    pub kind: FileKind,
    pub items: Vec<Item>,
}

/// The mathematical content of a [`FileReport`]: display path, kind, items.
pub type ReportView = (Seq<char>, FileKind, Seq<ItemView>);

impl View for FileReport {
    type V = ReportView;

    open spec fn view(&self) -> ReportView {
        (self.display@, self.kind, items_view(self.items@))
    }
}

/// The view of a list of reports.
pub open spec fn reports_view(s: Seq<FileReport>) -> Seq<ReportView> {
    s.map_values(|r: FileReport| r@)
}

/// A file and its content on both branches.
#[derive(Debug, Clone)]
pub struct FileInput {
    pub kind: FileKind,
    pub display: String,
    pub from_content: String,
    pub to_content: String,
}

// ---------------------------------------------------------------------------
// Per-file diff
// ---------------------------------------------------------------------------

/// The keys of a list of pairs.
pub open spec fn pair_keys(ps: Seq<(Seq<char>, Seq<char>)>) -> Set<Seq<char>> {
    ps.map_values(|p: (Seq<char>, Seq<char>)| p.0).to_set()
}

/// The value of the last pair with key `k` (later pairs override earlier
/// ones, as when collecting into a map).
pub open spec fn last_val(ps: Seq<(Seq<char>, Seq<char>)>, k: Seq<char>) -> Seq<char>
    decreases ps.len(),
{
    if ps.len() == 0 {
        seq![]
    } else if ps.last().0 == k {
        ps.last().1
    } else {
        last_val(ps.drop_last(), k)
    }
}

/// The value of the first pair with key `k`.
pub open spec fn first_val(ps: Seq<(Seq<char>, Seq<char>)>, k: Seq<char>) -> Seq<char>
    decreases ps.len(),
{
    if ps.len() == 0 {
        seq![]
    } else if ps[0].0 == k {
        ps[0].1
    } else {
        first_val(ps.drop_first(), k)
    }
}

/// A new item without value, old value or note.
pub open spec fn bare_item(kind: FileKind, change: ChangeKind, key: Seq<char>) -> ItemView {
    ItemView { kind, change, key, value: None, old_value: None, note: seq![] }
}

/// The item for a key created on `--from`: configmap items carry the value.
pub open spec fn created_item(kind: FileKind, key: Seq<char>, from: Seq<(Seq<char>, Seq<char>)>) -> ItemView {
    ItemView {
        kind,
        change: ChangeKind::Created,
        key,
        value: if kind == FileKind::ConfigMap {
            Some(last_val(from, key))
        } else {
            None
        },
        old_value: None,
        note: seq![],
    }
}

/// The item for a configmap key whose value changed.
pub open spec fn updated_item(
    kind: FileKind,
    key: Seq<char>,
    from: Seq<(Seq<char>, Seq<char>)>,
    to: Seq<(Seq<char>, Seq<char>)>,
) -> ItemView {
    ItemView {
        kind,
        change: ChangeKind::Updated,
        key,
        value: Some(last_val(from, key)),
        old_value: Some(last_val(to, key)),
        note: seq![],
    }
}

/// The created, updated and deleted items of one file, each group in sorted
/// key order. Secrets carry no values and never produce Updated items.
pub open spec fn diff_s(
    from: Seq<(Seq<char>, Seq<char>)>,
    to: Seq<(Seq<char>, Seq<char>)>,
    kind: FileKind,
) -> Seq<ItemView> {
    let fk = pair_keys(from);
    let tk = pair_keys(to);
    let created = sorted_list(fk).filter(|k: Seq<char>| !tk.contains(k)).map_values(
        |k: Seq<char>| created_item(kind, k, from),
    );
    let updated = if kind == FileKind::ConfigMap {
        sorted_list(fk).filter(
            |k: Seq<char>| tk.contains(k) && last_val(to, k) != last_val(from, k),
        ).map_values(|k: Seq<char>| updated_item(kind, k, from, to))
    } else {
        seq![]
    };
    let deleted = sorted_list(tk).filter(|k: Seq<char>| !fk.contains(k)).map_values(
        |k: Seq<char>| bare_item(kind, ChangeKind::Deleted, k),
    );
    created + updated + deleted
}

/// One more element of a filtered, mapped prefix.
pub proof fn lemma_filter_map_step<A, B>(s: Seq<A>, i: int, p: spec_fn(A) -> bool, f: spec_fn(A) -> B)
    requires
        0 <= i < s.len(),
    ensures
        s.take(i + 1).filter(p).map_values(f) == s.take(i).filter(p).map_values(f) + (if p(s[i]) {
            seq![f(s[i])]
        } else {
            seq![]
        }),
{
    assert(s.take(i + 1) =~= s.take(i).push(s[i]));
    s.take(i).lemma_filter_push(s[i], p);
    if p(s[i]) {
        assert(s.take(i + 1).filter(p).map_values(f) =~= s.take(i).filter(p).map_values(f).push(f(s[i])));
    } else {
        assert(s.take(i + 1).filter(p) == s.take(i).filter(p));
    }
}

/// The view of a list of key lists.
pub open spec fn keys_view(v: Seq<Vec<char>>) -> Seq<Seq<char>> {
    v.map_values(|x: Vec<char>| x@)
}

/// The sorted, duplicate-free keys of `ps`.
pub(crate) fn sorted_keys(ps: &Vec<ParsedPair>) -> (out: Vec<Vec<char>>)
    ensures
        is_sorted_listing(keys_view(out@), pair_keys(pairs_view(ps@))),
        keys_view(out@) == sorted_list(pair_keys(pairs_view(ps@))),
{
    let ghost pv = pairs_view(ps@);
    let mut out: Vec<Vec<char>> = Vec::new();
    let mut i: usize = 0;
    assert(keys_view(out@).to_set() =~= pair_keys(pv.take(0)));
    while i < ps.len()
        invariant
            i <= ps.len(),
            pv == pairs_view(ps@),
            strictly_sorted(keys_view(out@)),
            keys_view(out@).to_set() == pair_keys(pv.take(i as int)),
        decreases ps.len() - i,
    {
        let k = chars_of(ps[i].key.as_str());
        insert_sorted(&mut out, k);
        proof {
            let f = |p: (Seq<char>, Seq<char>)| p.0;
            assert(pv.take(i + 1) =~= pv.take(i as int).push(pv[i as int]));
            assert(pv.take(i + 1).map_values(f) =~= pv.take(i as int).map_values(f).push(pv[i as int].0));
            pv.take(i as int).map_values(f).lemma_push_to_set_commute(pv[i as int].0);
        }
        i = i + 1;
    }
    assert(pv.take(ps.len() as int) =~= pv);
    proof {
        lemma_sorted_list_is(keys_view(out@), pair_keys(pv));
    }
    out
}

/// Whether some pair has key `k`.
pub(crate) fn has_key(ps: &Vec<ParsedPair>, k: &Vec<char>) -> (r: bool)
    ensures
        r == pair_keys(pairs_view(ps@)).contains(k@),
{
    let ghost pv = pairs_view(ps@);
    let ghost ks = pv.map_values(|p: (Seq<char>, Seq<char>)| p.0);
    let mut i: usize = 0;
    while i < ps.len()
        invariant
            i <= ps.len(),
            pv == pairs_view(ps@),
            ks == pv.map_values(|p: (Seq<char>, Seq<char>)| p.0),
            forall|j: int| 0 <= j < i ==> ks[j] != k@,
        decreases ps.len() - i,
    {
        if eq_chars(&chars_of(ps[i].key.as_str()), k) {
            assert(ks[i as int] == k@);
            assert(ks.to_set().contains(k@));
            return true;
        }
        i = i + 1;
    }
    assert(!ks.to_set().contains(k@)) by {
        if ks.to_set().contains(k@) {
            let j = choose|j: int| 0 <= j < ks.len() && ks[j] == k@;
            assert(ks[j] != k@);
        }
    }
    false
}

/// The value of the last pair with key `k`.
pub(crate) fn last_value(ps: &Vec<ParsedPair>, k: &Vec<char>) -> (r: Vec<char>)
    ensures
        r@ == last_val(pairs_view(ps@), k@),
{
    let ghost pv = pairs_view(ps@);
    let mut i: usize = ps.len();
    assert(pv.take(i as int) =~= pv);
    while i > 0
        invariant
            i <= ps.len(),
            pv == pairs_view(ps@),
            last_val(pv, k@) == last_val(pv.take(i as int), k@),
        decreases i,
    {
        assert(pv.take(i as int).drop_last() =~= pv.take(i - 1));
        if eq_chars(&chars_of(ps[i - 1].key.as_str()), k) {
            return chars_of(ps[i - 1].value.as_str());
        }
        i = i - 1;
    }
    Vec::new()
}

/// The value of the first pair with key `k`.
fn first_value(ps: &Vec<ParsedPair>, k: &Vec<char>) -> (r: Vec<char>)
    ensures
        r@ == first_val(pairs_view(ps@), k@),
{
    let ghost pv = pairs_view(ps@);
    let mut i: usize = 0;
    while i < ps.len()
        invariant
            i <= ps.len(),
            pv == pairs_view(ps@),
            first_val(pv, k@) == first_val(pv.skip(i as int), k@),
        decreases ps.len() - i,
    {
        assert(pv.skip(i as int).drop_first() =~= pv.skip(i + 1));
        if eq_chars(&chars_of(ps[i].key.as_str()), k) {
            return chars_of(ps[i].value.as_str());
        }
        i = i + 1;
    }
    Vec::new()
}

/// The created/updated/deleted items between two branches of one file.
///
/// Values are redacted for secrets (kept `None`) and secrets never produce
/// Updated items. Items are grouped created, updated, deleted, each in sorted
/// key order; for a key listed twice the later pair counts.
pub fn branch_diff(from: &Vec<ParsedPair>, to: &Vec<ParsedPair>, kind: FileKind) -> (out: Vec<Item>)
    ensures
        items_view(out@) == diff_s(pairs_view(from@), pairs_view(to@), kind),
{
    let ghost fv = pairs_view(from@);
    let ghost tv = pairs_view(to@);
    let ghost fk = pair_keys(fv);
    let ghost tk = pair_keys(tv);
    let fkeys = sorted_keys(from);
    let tkeys = sorted_keys(to);
    let ghost fl = keys_view(fkeys@);
    let ghost tl = keys_view(tkeys@);
    let is_cm = kind == FileKind::ConfigMap;
    let mut out: Vec<Item> = Vec::new();

    let ghost pc = |k: Seq<char>| !tk.contains(k);
    let ghost mc = |k: Seq<char>| created_item(kind, k, fv);
    let mut i: usize = 0;
    assert(items_view(out@) =~= fl.take(0).filter(pc).map_values(mc));
    while i < fkeys.len()
        invariant
            i <= fkeys.len(),
            fv == pairs_view(from@),
            tv == pairs_view(to@),
            tk == pair_keys(tv),
            fl == keys_view(fkeys@),
            is_cm == (kind == FileKind::ConfigMap),
            pc == (|k: Seq<char>| !tk.contains(k)),
            mc == (|k: Seq<char>| created_item(kind, k, fv)),
            items_view(out@) == fl.take(i as int).filter(pc).map_values(mc),
        decreases fkeys.len() - i,
    {
        let k = &fkeys[i];
        proof {
            lemma_filter_map_step(fl, i as int, pc, mc);
        }
        if !has_key(to, k) {
            let value = if is_cm {
                Some(string_of(&last_value(from, k)))
            } else {
                None
            };
            let it = Item {
                kind,
                change: ChangeKind::Created,
                key: string_of(k),
                value,
                old_value: None,
                note: String::new(),
            };
            let ghost before = out@;
            out.push(it);
            assert(items_view(out@) =~= items_view(before).push(it@));
            assert(it@ == mc(fl[i as int]));
        }
        i = i + 1;
    }
    assert(fl.take(fl.len() as int) =~= fl);
    let ghost created = items_view(out@);

    let ghost pu = |k: Seq<char>| tk.contains(k) && last_val(tv, k) != last_val(fv, k);
    let ghost mu = |k: Seq<char>| updated_item(kind, k, fv, tv);
    if is_cm {
        let mut i: usize = 0;
        assert(items_view(out@) =~= created + fl.take(0).filter(pu).map_values(mu));
        while i < fkeys.len()
            invariant
                i <= fkeys.len(),
                fv == pairs_view(from@),
                tv == pairs_view(to@),
                tk == pair_keys(tv),
                fl == keys_view(fkeys@),
                pu == (|k: Seq<char>| tk.contains(k) && last_val(tv, k) != last_val(fv, k)),
                mu == (|k: Seq<char>| updated_item(kind, k, fv, tv)),
                items_view(out@) == created + fl.take(i as int).filter(pu).map_values(mu),
            decreases fkeys.len() - i,
        {
            let k = &fkeys[i];
            proof {
                lemma_filter_map_step(fl, i as int, pu, mu);
            }
            if has_key(to, k) {
                let new_v = last_value(from, k);
                let old_v = last_value(to, k);
                if !eq_chars(&new_v, &old_v) {
                    let it = Item {
                        kind,
                        change: ChangeKind::Updated,
                        key: string_of(k),
                        value: Some(string_of(&new_v)),
                        old_value: Some(string_of(&old_v)),
                        note: String::new(),
                    };
                    let ghost before = out@;
                    out.push(it);
                    assert(items_view(out@) =~= items_view(before).push(it@));
                    assert(it@ == mu(fl[i as int]));
                }
            }
            i = i + 1;
        }
        assert(fl.take(fl.len() as int) =~= fl);
    }
    let ghost updated = if kind == FileKind::ConfigMap {
        fl.filter(pu).map_values(mu)
    } else {
        seq![]
    };
    assert(items_view(out@) =~= created + updated);

    let ghost pd = |k: Seq<char>| !fk.contains(k);
    let ghost md = |k: Seq<char>| bare_item(kind, ChangeKind::Deleted, k);
    let ghost cu = items_view(out@);
    let mut j: usize = 0;
    assert(items_view(out@) =~= cu + tl.take(0).filter(pd).map_values(md));
    while j < tkeys.len()
        invariant
            j <= tkeys.len(),
            fk == pair_keys(pairs_view(from@)),
            tl == keys_view(tkeys@),
            pd == (|k: Seq<char>| !fk.contains(k)),
            md == (|k: Seq<char>| bare_item(kind, ChangeKind::Deleted, k)),
            items_view(out@) == cu + tl.take(j as int).filter(pd).map_values(md),
        decreases tkeys.len() - j,
    {
        let k = &tkeys[j];
        proof {
            lemma_filter_map_step(tl, j as int, pd, md);
        }
        if !has_key(from, k) {
            let it = Item {
                kind,
                change: ChangeKind::Deleted,
                key: string_of(k),
                value: None,
                old_value: None,
                note: String::new(),
            };
            let ghost before = out@;
            out.push(it);
            assert(items_view(out@) =~= items_view(before).push(it@));
            assert(it@ == md(tl[j as int]));
        }
        j = j + 1;
    }
    assert(tl.take(tl.len() as int) =~= tl);
    assert(items_view(out@) =~= diff_s(fv, tv, kind));
    out
}


// ---------------------------------------------------------------------------
// Environments
// ---------------------------------------------------------------------------

/// The index of the last `c` among the first `n` characters of `s`, or -1.
pub open spec fn last_pos(s: Seq<char>, c: char, n: int) -> int
    decreases n,
{
    if n <= 0 {
        -1
    } else if s[n - 1] == c {
        n - 1
    } else {
        last_pos(s, c, n - 1)
    }
}

/// The environment grouping key of a file: its parent directory relative to
/// the service root (the text before the last `/`), or empty.
pub open spec fn env_group_s(display: Seq<char>) -> Seq<char> {
    let j = last_pos(display, '/', display.len() as int);
    if j < 0 {
        seq![]
    } else {
        display.take(j)
    }
}

/// The environment grouping key for a file: its parent directory relative to
/// the service root (e.g. `deploy/dev/kubernetes`). Configmap and secrets
/// files of one environment share a folder, so grouping by it keeps move
/// detection from crossing environments.
pub fn env_group(display: &str) -> (r: String)
    ensures
        r@ == env_group_s(display@),
{
    let d = chars_of(display);
    let mut n: usize = d.len();
    while n > 0
        invariant
            n <= d.len(),
            d@ == display@,
            last_pos(d@, '/', d@.len() as int) == last_pos(d@, '/', n as int),
        decreases n,
    {
        if d[n - 1] == '/' {
            assert(last_pos(d@, '/', n as int) == n - 1);
            let ghost j = (n - 1) as int;
            let mut out = String::new();
            let mut i: usize = 0;
            while i < n - 1
                invariant
                    0 < n <= d.len(),
                    d@ == display@,
                    j == n - 1,
                    last_pos(d@, '/', d@.len() as int) == j,
                    i <= n - 1,
                    out@ == d@.take(i as int),
                decreases n - 1 - i,
            {
                crate::text::push_char(&mut out, d[i]);
                assert(d@.take(i + 1) =~= d@.take(i as int).push(d@[i as int]));
                i = i + 1;
            }
            return out;
        }
        n = n - 1;
    }
    String::new()
}

/// Whether every character is `x` or `X`.
pub open spec fn only_xs(t: Seq<char>) -> bool {
    forall|i: int| 0 <= i < t.len() ==> #[trigger] t[i] == 'x' || t[i] == 'X'
}

/// A real value: not empty and not a redacted `xxxx…` placeholder once
/// trimmed.
pub open spec fn real_value_s(v: Seq<char>) -> bool {
    trim_s(v).len() > 0 && !only_xs(trim_s(v))
}

/// True when a configmap value is a real value rather than empty or a
/// redacted placeholder (`xxxx…`), so a moved secrets key can show it.
pub fn has_real_value(value: &str) -> (r: bool)
    ensures
        r == real_value_s(value@),
{
    let t = trim(&chars_of(value));
    if t.len() == 0 {
        return false;
    }
    let mut i: usize = 0;
    while i < t.len()
        invariant
            i <= t.len(),
            t@ == trim_s(value@),
            forall|j: int| 0 <= j < i ==> #[trigger] t@[j] == 'x' || t@[j] == 'X',
        decreases t.len() - i,
    {
        if t[i] != 'x' && t[i] != 'X' {
            assert(!only_xs(t@)) by {
                assert(!(t@[i as int] == 'x' || t@[i as int] == 'X'));
            }
            return true;
        }
        i = i + 1;
    }
    false
}

// ---------------------------------------------------------------------------
// The report
// ---------------------------------------------------------------------------

/// The pairs of a file on the `--from` branch.
pub open spec fn from_pairs_s(inp: FileInput) -> Seq<(Seq<char>, Seq<char>)> {
    parse_kind_s(inp.from_content@, inp.kind)
}

/// The pairs of a file on the `--to` branch.
pub open spec fn to_pairs_s(inp: FileInput) -> Seq<(Seq<char>, Seq<char>)> {
    parse_kind_s(inp.to_content@, inp.kind)
}

/// The environment group of an input file.
pub open spec fn group_s(inp: FileInput) -> Seq<char> {
    env_group_s(inp.display@)
}

/// Whether a file has the given kind and belongs to group `g`.
pub open spec fn in_group(inp: FileInput, kind: FileKind, g: Seq<char>) -> bool {
    inp.kind == kind && group_s(inp) == g
}

/// Whether a secrets file of group `g` has key `k` on `--from`.
pub open spec fn secret_had(ins: Seq<FileInput>, g: Seq<char>, k: Seq<char>) -> bool {
    exists|i: int|
        0 <= i < ins.len() && in_group(ins[i], FileKind::Secret, g) && #[trigger] pair_keys(
            from_pairs_s(ins[i]),
        ).contains(k)
}

/// Whether key `k` was deleted from a file of the given kind in group `g`:
/// present on `--to`, absent on `--from`.
pub open spec fn deleted_from(ins: Seq<FileInput>, kind: FileKind, g: Seq<char>, k: Seq<char>) -> bool {
    exists|i: int|
        0 <= i < ins.len() && in_group(ins[i], kind, g) && #[trigger] pair_keys(
            to_pairs_s(ins[i]),
        ).contains(k) && !pair_keys(from_pairs_s(ins[i])).contains(k)
}

/// The value of `k` in the first configmap file of group `g` (from index
/// `i` on) that has it, on `--from` when `on_from` is set, else on `--to`;
/// within that file the first pair wins.
pub open spec fn cm_value(ins: Seq<FileInput>, g: Seq<char>, k: Seq<char>, on_from: bool, i: int) -> Option<Seq<char>>
    decreases ins.len() - i,
{
    if i < 0 || i >= ins.len() {
        None
    } else {
        let ps = if on_from {
            from_pairs_s(ins[i])
        } else {
            to_pairs_s(ins[i])
        };
        if in_group(ins[i], FileKind::ConfigMap, g) && pair_keys(ps).contains(k) {
            Some(first_val(ps, k))
        } else {
            cm_value(ins, g, k, on_from, i + 1)
        }
    }
}

/// A configmap Created/Updated item deleted from the environment's secrets
/// is annotated `(from secret)`.
pub open spec fn cm_note(ins: Seq<FileInput>, g: Seq<char>, it: ItemView) -> ItemView {
    if it.change != ChangeKind::Deleted && deleted_from(ins, FileKind::Secret, g, it.key) {
        ItemView { note: "(from secret)"@, ..it }
    } else {
        it
    }
}

/// A secrets Created item deleted from the environment's configmap, whose
/// `--to` configmap value is real, shows that value and `(from configmap)`.
pub open spec fn secret_note(ins: Seq<FileInput>, g: Seq<char>, it: ItemView) -> ItemView {
    if it.change == ChangeKind::Created && deleted_from(ins, FileKind::ConfigMap, g, it.key) && (
    cm_value(ins, g, it.key, false, 0) matches Some(v) && real_value_s(v)) {
        ItemView {
            note: "(from configmap)"@,
            value: Some(cm_value(ins, g, it.key, false, 0)->0),
            ..it
        }
    } else {
        it
    }
}

/// The configmap Updated item for a key moved in from secrets.
pub open spec fn moved_item(k: Seq<char>, v: Seq<char>) -> ItemView {
    ItemView {
        kind: FileKind::ConfigMap,
        change: ChangeKind::Updated,
        key: k,
        value: Some(v),
        old_value: None,
        note: "(from secret)"@,
    }
}

/// The keys deleted from the secrets files of group `g`.
pub open spec fn secret_deleted_set(ins: Seq<FileInput>, g: Seq<char>) -> Set<Seq<char>> {
    Set::new(|k: Seq<char>| deleted_from(ins, FileKind::Secret, g, k))
}

/// The items of file `f` before the final ordering: its diff; for a
/// configmap without the deletions that still live in the environment's
/// secrets, annotated, plus the keys moved in from secrets that it already
/// had on `--from`; for secrets, annotated.
pub open spec fn pre_items_s(ins: Seq<FileInput>, f: int) -> Seq<ItemView> {
    let inp = ins[f];
    let g = group_s(inp);
    let d = diff_s(from_pairs_s(inp), to_pairs_s(inp), inp.kind);
    if inp.kind == FileKind::ConfigMap {
        let ann = d.filter(
            |it: ItemView| !(it.change == ChangeKind::Deleted && secret_had(ins, g, it.key)),
        ).map_values(|it: ItemView| cm_note(ins, g, it));
        let present = ann.map_values(|it: ItemView| it.key).to_set();
        let moved = sorted_list(secret_deleted_set(ins, g)).filter(
            |k: Seq<char>| cm_value(ins, g, k, true, 0) is Some && !present.contains(k),
        ).map_values(|k: Seq<char>| moved_item(k, cm_value(ins, g, k, true, 0)->0));
        ann + moved
    } else if inp.kind == FileKind::Secret {
        d.map_values(|it: ItemView| secret_note(ins, g, it))
    } else {
        d
    }
}

/// Display order of change kinds: Created, Updated, Deleted.
pub open spec fn rank_s(c: ChangeKind) -> int {
    match c {
        ChangeKind::Created => 0,
        ChangeKind::Updated => 1,
        ChangeKind::Deleted => 2,
    }
}

/// `a` is listed before `b`: by change kind, then by key.
pub open spec fn item_before(a: ItemView, b: ItemView) -> bool {
    rank_s(a.change) < rank_s(b.change) || (rank_s(a.change) == rank_s(b.change) && lex_lt(
        a.key,
        b.key,
    ))
}

/// Items in report order.
pub open spec fn items_sorted(s: Seq<ItemView>) -> bool {
    forall|i: int, j: int| 0 <= i < j < s.len() ==> !item_before(#[trigger] s[j], #[trigger] s[i])
}

/// Ordering of change kinds for display: Created, then Updated, then Deleted.
pub fn change_rank(change: &ChangeKind) -> (r: u8)
    ensures
        r as int == rank_s(*change),
{
    match change {
        ChangeKind::Created => 0,
        ChangeKind::Updated => 1,
        ChangeKind::Deleted => 2,
    }
}

proof fn lemma_before_total(a: ItemView, b: ItemView)
    ensures
        !item_before(a, a),
        item_before(a, b) ==> !item_before(b, a),
        !item_before(a, b) && !item_before(b, a) ==> rank_s(a.change) == rank_s(b.change) && a.key
            == b.key,
{
    lemma_lex_trichotomy(a.key, b.key);
}

proof fn lemma_before_trans(a: ItemView, b: ItemView, c: ItemView)
    ensures
        item_before(a, b) && !item_before(c, b) ==> item_before(a, c),
{
    lemma_lex_trichotomy(a.key, b.key);
    lemma_lex_trichotomy(b.key, c.key);
    lemma_lex_trichotomy(a.key, c.key);
    if item_before(a, b) && !item_before(c, b) {
        if lex_lt(a.key, b.key) && lex_lt(b.key, c.key) {
            lemma_lex_transitive(a.key, b.key, c.key, 0);
        }
    }
}

fn copy_opt(o: &Option<String>) -> (r: Option<String>)
    ensures
        opt_view(r) == opt_view(*o),
{
    match o {
        Some(x) => Some(x.clone()),
        None => None,
    }
}

/// A copy of an item.
pub fn copy_item(it: &Item) -> (r: Item)
    ensures
        r@ == it@,
{
    Item {
        kind: it.kind,
        change: it.change,
        key: it.key.clone(),
        value: copy_opt(&it.value),
        old_value: copy_opt(&it.old_value),
        note: it.note.clone(),
    }
}

fn before(a: &Item, b: &Item) -> (r: bool)
    ensures
        r == item_before(a@, b@),
{
    let ra = change_rank(&a.change);
    let rb = change_rank(&b.change);
    ra < rb || (ra == rb && lex_less(&chars_of(a.key.as_str()), &chars_of(b.key.as_str())))
}

/// The items in report order: grouped Created, Updated, Deleted, each by key.
fn sort_items(v: Vec<Item>) -> (out: Vec<Item>)
    ensures
        items_sorted(items_view(out@)),
        items_view(out@).to_multiset() == items_view(v@).to_multiset(),
{
    let mut out: Vec<Item> = Vec::new();
    let mut i: usize = 0;
    while i < v.len()
        invariant
            i <= v.len(),
            items_sorted(items_view(out@)),
            items_view(out@).to_multiset() == items_view(v@.take(i as int)).to_multiset(),
        decreases v.len() - i,
    {
        let it = copy_item(&v[i]);
        let ghost iv = v@[i as int]@;
        let ghost s = items_view(out@);
        let mut p: usize = 0;
        while p < out.len() && !before(&it, &out[p])
            invariant
                p <= out.len(),
                s == items_view(out@),
                it@ == iv,
                forall|j: int| 0 <= j < p ==> !item_before(iv, #[trigger] s[j]),
            decreases out.len() - p,
        {
            p = p + 1;
        }
        out.insert(p, it);
        proof {
            let t = items_view(out@);
            assert(t =~= s.insert(p as int, iv));
            assert forall|a: int, b: int| 0 <= a < b < t.len() implies !item_before(#[trigger] t[b], #[trigger] t[a]) by {
                lemma_before_total(t[a], t[b]);
                if b < p {
                    assert(t[a] == s[a] && t[b] == s[b]);
                } else if b == p {
                    assert(t[a] == s[a]);
                } else if a == p {
                    assert(t[b] == s[b - 1]);
                    assert(item_before(iv, s[p as int]));
                    if b - 1 > p {
                        assert(!item_before(s[b - 1], s[p as int]));
                    }
                    lemma_before_trans(iv, s[p as int], s[b - 1]);
                } else if a < p {
                    assert(t[a] == s[a] && t[b] == s[b - 1]);
                    if b - 1 == a {
                        assert(false);
                    }
                } else {
                    assert(t[a] == s[a - 1] && t[b] == s[b - 1]);
                }
            }
            assert(v@.take(i + 1) =~= v@.take(i as int).push(v@[i as int]));
            assert(items_view(v@.take(i + 1)) =~= items_view(v@.take(i as int)).push(iv));
        }
        i = i + 1;
    }
    assert(v@.take(v@.len() as int) =~= v@);
    out
}


/// The parsed pairs and groups of every input, aligned with the inputs.
pub open spec fn tables_ok(
    ins: Seq<FileInput>,
    froms: Seq<Vec<ParsedPair>>,
    tos: Seq<Vec<ParsedPair>>,
    groups: Seq<Vec<char>>,
) -> bool {
    &&& froms.len() == ins.len()
    &&& tos.len() == ins.len()
    &&& groups.len() == ins.len()
    &&& forall|i: int|
        0 <= i < ins.len() ==> pairs_view(#[trigger] froms[i]@) == from_pairs_s(ins[i])
            && pairs_view(tos[i]@) == to_pairs_s(ins[i]) && groups[i]@ == group_s(ins[i])
}

fn secret_had_exec(
    ins: &Vec<FileInput>,
    froms: &Vec<Vec<ParsedPair>>,
    tos: &Vec<Vec<ParsedPair>>,
    groups: &Vec<Vec<char>>,
    g: &Vec<char>,
    k: &Vec<char>,
) -> (r: bool)
    requires
        tables_ok(ins@, froms@, tos@, groups@),
    ensures
        r == secret_had(ins@, g@, k@),
{
    let mut i: usize = 0;
    while i < ins.len()
        invariant
            i <= ins.len(),
            tables_ok(ins@, froms@, tos@, groups@),
            forall|j: int|
                0 <= j < i ==> !(in_group(ins@[j], FileKind::Secret, g@) && #[trigger] pair_keys(
                    from_pairs_s(ins@[j]),
                ).contains(k@)),
        decreases ins.len() - i,
    {
        assert(pairs_view(froms@[i as int]@) == from_pairs_s(ins@[i as int]));
        if ins[i].kind == FileKind::Secret && eq_chars(&groups[i], g) && has_key(&froms[i], k) {
            assert(in_group(ins@[i as int], FileKind::Secret, g@) && pair_keys(from_pairs_s(ins@[i as int])).contains(k@));
            return true;
        }
        i = i + 1;
    }
    false
}

fn deleted_from_exec(
    ins: &Vec<FileInput>,
    froms: &Vec<Vec<ParsedPair>>,
    tos: &Vec<Vec<ParsedPair>>,
    groups: &Vec<Vec<char>>,
    kind: FileKind,
    g: &Vec<char>,
    k: &Vec<char>,
) -> (r: bool)
    requires
        tables_ok(ins@, froms@, tos@, groups@),
    ensures
        r == deleted_from(ins@, kind, g@, k@),
{
    let mut i: usize = 0;
    while i < ins.len()
        invariant
            i <= ins.len(),
            tables_ok(ins@, froms@, tos@, groups@),
            forall|j: int|
                0 <= j < i ==> !(in_group(ins@[j], kind, g@) && #[trigger] pair_keys(
                    to_pairs_s(ins@[j]),
                ).contains(k@) && !pair_keys(from_pairs_s(ins@[j])).contains(k@)),
        decreases ins.len() - i,
    {
        assert(pairs_view(froms@[i as int]@) == from_pairs_s(ins@[i as int]));
        if ins[i].kind == kind && eq_chars(&groups[i], g) && has_key(&tos[i], k) && !has_key(
            &froms[i],
            k,
        ) {
            assert(in_group(ins@[i as int], kind, g@) && pair_keys(to_pairs_s(ins@[i as int])).contains(k@));
            return true;
        }
        i = i + 1;
    }
    false
}

fn cm_value_exec(
    ins: &Vec<FileInput>,
    froms: &Vec<Vec<ParsedPair>>,
    tos: &Vec<Vec<ParsedPair>>,
    groups: &Vec<Vec<char>>,
    g: &Vec<char>,
    k: &Vec<char>,
    on_from: bool,
) -> (r: Option<Vec<char>>)
    requires
        tables_ok(ins@, froms@, tos@, groups@),
    ensures
        match r {
            Some(v) => cm_value(ins@, g@, k@, on_from, 0) == Some(v@),
            None => cm_value(ins@, g@, k@, on_from, 0) is None,
        },
{
    let mut i: usize = 0;
    while i < ins.len()
        invariant
            i <= ins.len(),
            tables_ok(ins@, froms@, tos@, groups@),
            cm_value(ins@, g@, k@, on_from, 0) == cm_value(ins@, g@, k@, on_from, i as int),
        decreases ins.len() - i,
    {
        assert(pairs_view(froms@[i as int]@) == from_pairs_s(ins@[i as int]));
        if ins[i].kind == FileKind::ConfigMap && eq_chars(&groups[i], g) {
            let ps = if on_from {
                &froms[i]
            } else {
                &tos[i]
            };
            if has_key(ps, k) {
                return Some(first_value(ps, k));
            }
        }
        i = i + 1;
    }
    None
}

/// Add to a sorted key list the keys of `to` that `from` lacks.
fn add_deleted_keys(list: &mut Vec<Vec<char>>, from: &Vec<ParsedPair>, to: &Vec<ParsedPair>)
    requires
        strictly_sorted(keys_view(old(list)@)),
    ensures
        strictly_sorted(keys_view(final(list)@)),
        keys_view(final(list)@).to_set() == keys_view(old(list)@).to_set().union(
            pair_keys(pairs_view(to@)).filter(|k: Seq<char>| !pair_keys(pairs_view(from@)).contains(k)),
        ),
{
    let ghost base = keys_view(list@).to_set();
    let ghost fk = pair_keys(pairs_view(from@));
    let ghost tv = pairs_view(to@);
    let ghost p = |k: Seq<char>| !fk.contains(k);
    let mut j: usize = 0;
    assert(pair_keys(tv.take(0)).filter(p) =~= Set::<Seq<char>>::empty());
    assert(keys_view(list@).to_set() =~= base.union(pair_keys(tv.take(0)).filter(p)));
    while j < to.len()
        invariant
            j <= to.len(),
            tv == pairs_view(to@),
            fk == pair_keys(pairs_view(from@)),
            p == (|k: Seq<char>| !fk.contains(k)),
            strictly_sorted(keys_view(list@)),
            keys_view(list@).to_set() == base.union(pair_keys(tv.take(j as int)).filter(p)),
        decreases to.len() - j,
    {
        let k = chars_of(to[j].key.as_str());
        let ghost kv = k@;
        proof {
            let f = |q: (Seq<char>, Seq<char>)| q.0;
            assert(tv.take(j + 1) =~= tv.take(j as int).push(tv[j as int]));
            assert(tv.take(j + 1).map_values(f) =~= tv.take(j as int).map_values(f).push(kv));
            tv.take(j as int).map_values(f).lemma_push_to_set_commute(kv);
        }
        if !has_key(from, &k) {
            insert_sorted(list, k);
            assert(keys_view(list@).to_set() =~= base.union(pair_keys(tv.take(j + 1)).filter(p)));
        } else {
            assert(keys_view(list@).to_set() =~= base.union(pair_keys(tv.take(j + 1)).filter(p)));
        }
        j = j + 1;
    }
    assert(tv.take(to.len() as int) =~= tv);
}

/// The keys deleted from the secrets files of group `g`, sorted.
fn secret_deleted_keys(
    ins: &Vec<FileInput>,
    froms: &Vec<Vec<ParsedPair>>,
    tos: &Vec<Vec<ParsedPair>>,
    groups: &Vec<Vec<char>>,
    g: &Vec<char>,
) -> (r: Vec<Vec<char>>)
    requires
        tables_ok(ins@, froms@, tos@, groups@),
    ensures
        keys_view(r@) == sorted_list(secret_deleted_set(ins@, g@)),
{
    let ghost insv = ins@;
    let mut list: Vec<Vec<char>> = Vec::new();
    let mut i: usize = 0;
    assert(keys_view(list@).to_set() =~= Set::new(
        |k: Seq<char>|
            exists|j: int|
                0 <= j < 0 && in_group(insv[j], FileKind::Secret, g@) && #[trigger] pair_keys(
                    to_pairs_s(insv[j]),
                ).contains(k) && !pair_keys(from_pairs_s(insv[j])).contains(k),
    ));
    while i < ins.len()
        invariant
            i <= ins.len(),
            insv == ins@,
            tables_ok(ins@, froms@, tos@, groups@),
            strictly_sorted(keys_view(list@)),
            keys_view(list@).to_set() == Set::new(
                |k: Seq<char>|
                    exists|j: int|
                        0 <= j < i && in_group(insv[j], FileKind::Secret, g@) && #[trigger] pair_keys(
                            to_pairs_s(insv[j]),
                        ).contains(k) && !pair_keys(from_pairs_s(insv[j])).contains(k),
            ),
        decreases ins.len() - i,
    {
        let ghost before = keys_view(list@).to_set();
        assert(pairs_view(froms@[i as int]@) == from_pairs_s(ins@[i as int]));
        if ins[i].kind == FileKind::Secret && eq_chars(&groups[i], g) {
            add_deleted_keys(&mut list, &froms[i], &tos[i]);
        }
        assert(keys_view(list@).to_set() =~= Set::new(
            |k: Seq<char>|
                exists|j: int|
                    0 <= j < i + 1 && in_group(insv[j], FileKind::Secret, g@) && #[trigger] pair_keys(
                        to_pairs_s(insv[j]),
                    ).contains(k) && !pair_keys(from_pairs_s(insv[j])).contains(k),
        ));
        i = i + 1;
    }
    assert(keys_view(list@).to_set() =~= secret_deleted_set(ins@, g@));
    proof {
        lemma_sorted_list_is(keys_view(list@), secret_deleted_set(ins@, g@));
    }
    list
}

/// Whether some item has key `k`.
fn has_item_key(items: &Vec<Item>, k: &Vec<char>) -> (r: bool)
    ensures
        r == items_view(items@).map_values(|it: ItemView| it.key).to_set().contains(k@),
{
    let ghost ks = items_view(items@).map_values(|it: ItemView| it.key);
    let mut i: usize = 0;
    while i < items.len()
        invariant
            i <= items.len(),
            ks == items_view(items@).map_values(|it: ItemView| it.key),
            forall|j: int| 0 <= j < i ==> ks[j] != k@,
        decreases items.len() - i,
    {
        if eq_chars(&chars_of(items[i].key.as_str()), k) {
            assert(ks[i as int] == k@);
            return true;
        }
        i = i + 1;
    }
    assert(!ks.to_set().contains(k@)) by {
        if ks.to_set().contains(k@) {
            let j = choose|j: int| 0 <= j < ks.len() && ks[j] == k@;
            assert(ks[j] != k@);
        }
    }
    false
}

/// The item with its note replaced.
fn with_note(it: &Item, note: &str) -> (r: Item)
    ensures
        r@ == (ItemView { note: note@, ..it@ }),
{
    let mut c = copy_item(it);
    c.note = note.to_owned();
    c
}

/// The items of file `f` before the final ordering.
fn report_items(
    ins: &Vec<FileInput>,
    froms: &Vec<Vec<ParsedPair>>,
    tos: &Vec<Vec<ParsedPair>>,
    groups: &Vec<Vec<char>>,
    f: usize,
) -> (out: Vec<Item>)
    requires
        tables_ok(ins@, froms@, tos@, groups@),
        f < ins.len(),
    ensures
        items_view(out@) == pre_items_s(ins@, f as int),
{
    let ghost insv = ins@;
    let kind = ins[f].kind;
    let g = &groups[f];
    assert(pairs_view(froms@[f as int]@) == from_pairs_s(ins@[f as int]));
    let d = branch_diff(&froms[f], &tos[f], kind);
    let ghost dv = items_view(d@);
    let ghost gv = g@;
    if kind == FileKind::ConfigMap {
        let ghost p = |it: ItemView| !(it.change == ChangeKind::Deleted && secret_had(insv, gv, it.key));
        let ghost m = |it: ItemView| cm_note(insv, gv, it);
        let mut ann: Vec<Item> = Vec::new();
        let mut i: usize = 0;
        assert(items_view(ann@) =~= dv.take(0).filter(p).map_values(m));
        while i < d.len()
            invariant
                i <= d.len(),
                insv == ins@,
                gv == g@,
                dv == items_view(d@),
                tables_ok(ins@, froms@, tos@, groups@),
                p == (|it: ItemView| !(it.change == ChangeKind::Deleted && secret_had(insv, gv, it.key))),
                m == (|it: ItemView| cm_note(insv, gv, it)),
                items_view(ann@) == dv.take(i as int).filter(p).map_values(m),
            decreases d.len() - i,
        {
            let it = &d[i];
            let k = chars_of(it.key.as_str());
            proof {
                lemma_filter_map_step(dv, i as int, p, m);
            }
            let skip = it.change == ChangeKind::Deleted && secret_had_exec(ins, froms, tos, groups, g, &k);
            if !skip {
                let c = if it.change != ChangeKind::Deleted && deleted_from_exec(
                    ins,
                    froms,
                    tos,
                    groups,
                    FileKind::Secret,
                    g,
                    &k,
                ) {
                    with_note(it, "(from secret)")
                } else {
                    copy_item(it)
                };
                let ghost before = ann@;
                ann.push(c);
                assert(items_view(ann@) =~= items_view(before).push(c@));
                assert(c@ == m(dv[i as int]));
            }
            i = i + 1;
        }
        assert(dv.take(d.len() as int) =~= dv);
        let ghost annv = items_view(ann@);
        let ghost present = annv.map_values(|it: ItemView| it.key).to_set();
        let dl = secret_deleted_keys(ins, froms, tos, groups, g);
        let ghost dlv = keys_view(dl@);
        let ghost q = |k: Seq<char>| cm_value(insv, gv, k, true, 0) is Some && !present.contains(k);
        let ghost mm = |k: Seq<char>| moved_item(k, cm_value(insv, gv, k, true, 0)->0);
        let mut moved: Vec<Item> = Vec::new();
        let mut j: usize = 0;
        assert(items_view(moved@) =~= dlv.take(0).filter(q).map_values(mm));
        while j < dl.len()
            invariant
                j <= dl.len(),
                insv == ins@,
                gv == g@,
                annv == items_view(ann@),
                present == annv.map_values(|it: ItemView| it.key).to_set(),
                dlv == keys_view(dl@),
                tables_ok(ins@, froms@, tos@, groups@),
                q == (|k: Seq<char>| cm_value(insv, gv, k, true, 0) is Some && !present.contains(k)),
                mm == (|k: Seq<char>| moved_item(k, cm_value(insv, gv, k, true, 0)->0)),
                items_view(moved@) == dlv.take(j as int).filter(q).map_values(mm),
            decreases dl.len() - j,
        {
            let k = &dl[j];
            proof {
                lemma_filter_map_step(dlv, j as int, q, mm);
            }
            match cm_value_exec(ins, froms, tos, groups, g, k, true) {
                Some(v) => {
                    if !has_item_key(&ann, k) {
                        let it = Item {
                            kind: FileKind::ConfigMap,
                            change: ChangeKind::Updated,
                            key: string_of(k),
                            value: Some(string_of(&v)),
                            old_value: None,
                            note: "(from secret)".to_owned(),
                        };
                        let ghost before = moved@;
                        moved.push(it);
                        assert(items_view(moved@) =~= items_view(before).push(it@));
                        assert(it@ == mm(dlv[j as int]));
                    }
                },
                None => {},
            }
            j = j + 1;
        }
        assert(dlv.take(dl.len() as int) =~= dlv);
        let ghost mv = items_view(moved@);
        ann.append(&mut moved);
        assert(items_view(ann@) =~= annv + mv);
        ann
    } else if kind == FileKind::Secret {
        let ghost m = |it: ItemView| secret_note(insv, gv, it);
        let mut out: Vec<Item> = Vec::new();
        let mut i: usize = 0;
        while i < d.len()
            invariant
                i <= d.len(),
                insv == ins@,
                gv == g@,
                dv == items_view(d@),
                tables_ok(ins@, froms@, tos@, groups@),
                m == (|it: ItemView| secret_note(insv, gv, it)),
                items_view(out@) == dv.take(i as int).map_values(m),
            decreases d.len() - i,
        {
            let it = &d[i];
            let k = chars_of(it.key.as_str());
            let mut c = copy_item(it);
            if it.change == ChangeKind::Created && deleted_from_exec(
                ins,
                froms,
                tos,
                groups,
                FileKind::ConfigMap,
                g,
                &k,
            ) {
                match cm_value_exec(ins, froms, tos, groups, g, &k, false) {
                    Some(v) => {
                        let vs = string_of(&v);
                        if has_real_value(vs.as_str()) {
                            c.note = "(from configmap)".to_owned();
                            c.value = Some(vs);
                        }
                    },
                    None => {},
                }
            }
            let ghost before = out@;
            out.push(c);
            assert(items_view(out@) =~= items_view(before).push(c@));
            assert(dv.take(i + 1) =~= dv.take(i as int).push(dv[i as int]));
            assert(c@ == m(dv[i as int]));
            assert(items_view(out@) =~= dv.take(i + 1).map_values(m));
            i = i + 1;
        }
        assert(dv.take(d.len() as int) =~= dv);
        out
    } else {
        d
    }
}

/// Build the finalized, annotated report for a set of files.
///
/// Each file is diffed between the branches. Within one environment (files
/// sharing a parent folder): a configmap deletion of a key the environment's
/// secrets still have on `--from` is a move and is dropped; a configmap
/// Created/Updated key deleted from the secrets is annotated
/// `(from secret)`, and such a key the configmap had unchanged is listed as
/// an Updated item with that annotation; a secrets Created key deleted from
/// the configmap shows the configmap's real `--to` value with
/// `(from configmap)`. Each file's items are then ordered Created, Updated,
/// Deleted, each by key.
pub fn build_report(inputs: &Vec<FileInput>) -> (out: Vec<FileReport>)
    ensures
        out@.len() == inputs@.len(),
        forall|f: int|
            0 <= f < inputs@.len() ==> {
                &&& (#[trigger] out@[f]).display@ == inputs@[f].display@
                &&& out@[f].kind == inputs@[f].kind
                &&& items_sorted(items_view(out@[f].items@))
                &&& items_view(out@[f].items@).to_multiset() == pre_items_s(inputs@, f).to_multiset()
            },
{
    let mut froms: Vec<Vec<ParsedPair>> = Vec::new();
    let mut tos: Vec<Vec<ParsedPair>> = Vec::new();
    let mut groups: Vec<Vec<char>> = Vec::new();
    let mut i: usize = 0;
    while i < inputs.len()
        invariant
            i <= inputs.len(),
            froms@.len() == i,
            tos@.len() == i,
            groups@.len() == i,
            forall|j: int|
                0 <= j < i ==> pairs_view(#[trigger] froms@[j]@) == from_pairs_s(inputs@[j])
                    && pairs_view(tos@[j]@) == to_pairs_s(inputs@[j]) && groups@[j]@ == group_s(
                    inputs@[j],
                ),
        decreases inputs.len() - i,
    {
        let inp = &inputs[i];
        froms.push(parse(inp.from_content.as_str(), inp.kind));
        tos.push(parse(inp.to_content.as_str(), inp.kind));
        groups.push(chars_of(env_group(inp.display.as_str()).as_str()));
        i = i + 1;
    }
    let mut out: Vec<FileReport> = Vec::new();
    let mut f: usize = 0;
    while f < inputs.len()
        invariant
            f <= inputs.len(),
            tables_ok(inputs@, froms@, tos@, groups@),
            out@.len() == f,
            forall|h: int|
                0 <= h < f ==> {
                    &&& (#[trigger] out@[h]).display@ == inputs@[h].display@
                    &&& out@[h].kind == inputs@[h].kind
                    &&& items_sorted(items_view(out@[h].items@))
                    &&& items_view(out@[h].items@).to_multiset() == pre_items_s(inputs@, h).to_multiset()
                },
        decreases inputs.len() - f,
    {
        let items = sort_items(report_items(inputs, &froms, &tos, &groups, f));
        out.push(FileReport { display: inputs[f].display.clone(), kind: inputs[f].kind, items });
        f = f + 1;
    }
    out
}


// ---------------------------------------------------------------------------
// Labels
// ---------------------------------------------------------------------------

/// Embedded newlines written as `\n` so a value stays on one line.
pub open spec fn esc_nl_s(v: Seq<char>) -> Seq<char>
    decreases v.len(),
{
    if v.len() == 0 {
        seq![]
    } else {
        esc_nl_s(v.drop_last()) + if v.last() == '\n' {
            seq!['\\', 'n']
        } else {
            seq![v.last()]
        }
    }
}

/// Replace embedded newlines so multiline values stay on one output line.
pub fn escape_newlines(value: &Vec<char>) -> (r: Vec<char>)
    ensures
        r@ == esc_nl_s(value@),
{
    let mut out: Vec<char> = Vec::new();
    let mut i: usize = 0;
    while i < value.len()
        invariant
            i <= value.len(),
            out@ == esc_nl_s(value@.take(i as int)),
        decreases value.len() - i,
    {
        assert(value@.take(i + 1).drop_last() =~= value@.take(i as int));
        if value[i] == '\n' {
            out.push('\\');
            out.push('n');
        } else {
            out.push(value[i]);
        }
        i = i + 1;
    }
    assert(value@.take(value@.len() as int) =~= value@);
    out
}

/// The annotation suffix: a space and the note, or nothing.
pub open spec fn note_suffix_s(note: Seq<char>) -> Seq<char> {
    if note.len() == 0 {
        seq![]
    } else {
        seq![' '] + note
    }
}

/// The annotation suffix appended to an item label, e.g. ` (from secret)`.
pub fn note_suffix(note: &str) -> (r: String)
    ensures
        r@ == note_suffix_s(note@),
{
    let n = chars_of(note);
    if n.len() == 0 {
        String::new()
    } else {
        let mut out: Vec<char> = Vec::new();
        out.push(' ');
        append(&mut out, n.as_slice());
        string_of(&out)
    }
}

/// The shown value with its annotation, or nothing when redacted.
pub open spec fn value_part_s(it: ItemView) -> Seq<char> {
    match it.value {
        Some(v) => esc_nl_s(v) + note_suffix_s(it.note),
        None => seq![],
    }
}

/// The value portion of a created/updated label (with annotations), or an
/// empty string when the value is redacted.
pub fn value_part(item: &Item) -> (r: String)
    ensures
        r@ == value_part_s(item@),
{
    match &item.value {
        Some(v) => {
            let mut out = escape_newlines(&chars_of(v.as_str()));
            append(&mut out, chars_of(note_suffix(item.note.as_str()).as_str()).as_slice());
            string_of(&out)
        },
        None => String::new(),
    }
}

/// The escaped old value of an item, or nothing.
pub open spec fn old_value_part_s(it: ItemView) -> Seq<char> {
    match it.old_value {
        Some(v) => esc_nl_s(v),
        None => seq![],
    }
}

/// The escaped old value for an Updated item's `- KEY = old` line (empty
/// when there is none).
pub fn old_value_part(item: &Item) -> (r: String)
    ensures
        r@ == old_value_part_s(item@),
{
    match &item.old_value {
        Some(v) => string_of(&escape_newlines(&chars_of(v.as_str()))),
        None => String::new(),
    }
}

/// One markdown bullet (without the leading `- `). Configmap bullets always
/// read `KEY: value` (a bare `KEY:` when there is nothing to show); secret
/// bullets are bare unless a moved-in value is shown; deletions are bare.
pub open spec fn markdown_label_s(it: ItemView) -> Seq<char> {
    if it.change == ChangeKind::Deleted {
        it.key
    } else if it.kind == FileKind::ConfigMap {
        let value = match it.value {
            Some(v) => esc_nl_s(v),
            None => seq![],
        };
        let body = if value.len() == 0 {
            it.note
        } else if it.note.len() == 0 {
            value
        } else {
            value + seq![' '] + it.note
        };
        if body.len() == 0 {
            it.key + seq![':']
        } else {
            it.key + seq![':', ' '] + body
        }
    } else {
        let part = value_part_s(it);
        if part.len() == 0 {
            it.key
        } else {
            it.key + seq![':', ' '] + part
        }
    }
}

/// Render one item as a markdown bullet (without the leading `- `).
pub fn markdown_label(item: &Item) -> (r: Vec<char>)
    ensures
        r@ == markdown_label_s(item@),
{
    let key = chars_of(item.key.as_str());
    if item.change == ChangeKind::Deleted {
        return key;
    }
    if item.kind == FileKind::ConfigMap {
        let value = match &item.value {
            Some(v) => escape_newlines(&chars_of(v.as_str())),
            None => Vec::new(),
        };
        let note = chars_of(item.note.as_str());
        let mut body: Vec<char> = Vec::new();
        if value.len() == 0 {
            append(&mut body, note.as_slice());
        } else if note.len() == 0 {
            append(&mut body, value.as_slice());
        } else {
            append(&mut body, value.as_slice());
            body.push(' ');
            append(&mut body, note.as_slice());
        }
        let mut out = key;
        if body.len() == 0 {
            out.push(':');
        } else {
            out.push(':');
            out.push(' ');
            append(&mut out, body.as_slice());
        }
        out
    } else {
        let part = chars_of(value_part(item).as_str());
        let mut out = key;
        if part.len() > 0 {
            out.push(':');
            out.push(' ');
            append(&mut out, part.as_slice());
        }
        out
    }
}

/// The section label for a file kind in the markdown report.
pub open spec fn kind_label_s(kind: FileKind) -> Seq<char> {
    if kind == FileKind::ConfigMap {
        "configmap"@
    } else if kind == FileKind::Secret {
        "secrets"@
    } else {
        "other"@
    }
}

/// The human-readable section label for a file kind in the markdown report.
pub fn kind_label(kind: FileKind) -> (r: &'static str)
    ensures
        r@ == kind_label_s(kind),
{
    match kind {
        FileKind::ConfigMap => "configmap",
        FileKind::Secret => "secrets",
        _ => "other",
    }
}

// ---------------------------------------------------------------------------
// Environments in the markdown report
// ---------------------------------------------------------------------------

/// Folder names that are containers rather than environment names.
pub open spec fn is_wrapper_dir(seg: Seq<char>) -> bool {
    seg == "deploy"@ || seg == "kubernetes"@ || seg == "k8s"@ || seg == "manifests"@ || seg
        == "config"@ || seg == "configs"@ || seg == "configmap"@ || seg == "configmaps"@ || seg
        == "secret"@ || seg == "secrets"@ || seg == "env"@ || seg == "environments"@ || seg
        == "environment"@
}

/// The first segment from index `i` on that names an environment.
pub open spec fn first_env_seg(segs: Seq<Seq<char>>, i: int) -> Option<Seq<char>>
    decreases segs.len() - i,
{
    if i < 0 || i >= segs.len() {
        None
    } else if segs[i].len() > 0 && !is_wrapper_dir(segs[i]) {
        Some(segs[i])
    } else {
        first_env_seg(segs, i + 1)
    }
}

/// A short environment name from a file's parent path: the first path
/// segment that is neither empty nor a container folder.
pub open spec fn env_name_s(group: Seq<char>) -> Option<Seq<char>> {
    first_env_seg(split_s(group, '/'), 0)
}

/// The container folder names of deployment trees, written out.
pub open spec fn container_folder(c: Seq<char>) -> bool {
    ||| c == "deploy"@
    ||| c == "kubernetes"@
    ||| c == "k8s"@
    ||| c == "manifests"@
    ||| c == "config"@
    ||| c == "configs"@
    ||| c == "configmap"@
    ||| c == "configmaps"@
    ||| c == "secret"@
    ||| c == "secrets"@
    ||| c == "env"@
    ||| c == "environments"@
    ||| c == "environment"@
}

/// A text without `/` is a single path segment.
proof fn lemma_split_one(e: Seq<char>)
    requires
        forall|j: int| 0 <= j < e.len() ==> #[trigger] e[j] != '/',
    ensures
        split_s(e, '/') == seq![e],
{
    crate::text::lemma_char_pos_is(e, '/', 0, e.len() as int);
}

/// Two segments joined by `/` split back into those segments.
proof fn lemma_split_two(c: Seq<char>, e: Seq<char>)
    requires
        forall|j: int| 0 <= j < c.len() ==> #[trigger] c[j] != '/',
        forall|j: int| 0 <= j < e.len() ==> #[trigger] e[j] != '/',
    ensures
        split_s(c + "/"@ + e, '/') == seq![c, e],
{
    reveal_strlit("/");
    let s = c + "/"@ + e;
    let n = c.len() as int;
    assert forall|j: int| 0 <= j < n implies s[j] != '/' by {
        assert(s[j] == c[j]);
    }
    assert(s[n] == '/');
    crate::text::lemma_char_pos_is(s, '/', 0, n);
    assert(s.take(n) =~= c);
    assert(s.skip(n + 1) =~= e);
    lemma_split_one(e);
    assert(seq![c] + seq![e] =~= seq![c, e]);
}

/// The container names hold no `/` and are not empty.
proof fn lemma_container_segment(c: Seq<char>)
    requires
        container_folder(c),
    ensures
        c.len() > 0,
        forall|j: int| 0 <= j < c.len() ==> #[trigger] c[j] != '/',
{
    reveal_strlit("deploy");
    reveal_strlit("kubernetes");
    reveal_strlit("k8s");
    reveal_strlit("manifests");
    reveal_strlit("config");
    reveal_strlit("configs");
    reveal_strlit("configmap");
    reveal_strlit("configmaps");
    reveal_strlit("secret");
    reveal_strlit("secrets");
    reveal_strlit("env");
    reveal_strlit("environments");
    reveal_strlit("environment");
}

/// A container folder is never taken for an environment: under any of
/// `deploy`, `kubernetes`, `k8s`, `manifests`, `config`, `configs`,
/// `configmap`, `configmaps`, `secret`, `secrets`, `env`, `environments`
/// or `environment`, the environment is the folder inside it; a container
/// alone names none; and a folder that is no container names itself.
pub proof fn law_containers_are_skipped(c: Seq<char>, e: Seq<char>)
    requires
        container_folder(c),
        e.len() > 0,
        forall|j: int| 0 <= j < e.len() ==> #[trigger] e[j] != '/',
        !container_folder(e),
    ensures
        env_name_s(c + "/"@ + e) == Some(e),
        env_name_s(c) is None,
        env_name_s(e) == Some(e),
{
    lemma_container_segment(c);
    lemma_split_two(c, e);
    lemma_split_one(c);
    lemma_split_one(e);
    let s2 = seq![c, e];
    assert(is_wrapper_dir(c));
    assert(!is_wrapper_dir(e));
    assert(first_env_seg(s2, 2) is None);
    assert(first_env_seg(s2, 1) == Some(e));
    assert(first_env_seg(seq![c], 1) is None);
    assert(first_env_seg(seq![e], 0) == Some(e));
}

fn is_wrapper(seg: &Vec<char>) -> (r: bool)
    ensures
        r == is_wrapper_dir(seg@),
{
    eq_chars(seg, &chars_of("deploy")) || eq_chars(seg, &chars_of("kubernetes")) || eq_chars(
        seg,
        &chars_of("k8s"),
    ) || eq_chars(seg, &chars_of("manifests")) || eq_chars(seg, &chars_of("config")) || eq_chars(
        seg,
        &chars_of("configs"),
    ) || eq_chars(seg, &chars_of("configmap")) || eq_chars(seg, &chars_of("configmaps"))
        || eq_chars(seg, &chars_of("secret")) || eq_chars(seg, &chars_of("secrets")) || eq_chars(
        seg,
        &chars_of("env"),
    ) || eq_chars(seg, &chars_of("environments")) || eq_chars(seg, &chars_of("environment"))
}

/// Extract a short environment name from a file's parent path, e.g. `dev`
/// from `deploy/dev/kubernetes`; `None` when every segment is a container.
pub fn env_name(group: &str) -> (r: Option<String>)
    ensures
        match r {
            Some(n) => env_name_s(group@) == Some(n@),
            None => env_name_s(group@) is None,
        },
{
    let segs = split_char(&chars_of(group), '/');
    let ghost sv = lines_view(segs@);
    let mut i: usize = 0;
    while i < segs.len()
        invariant
            i <= segs.len(),
            sv == lines_view(segs@),
            sv == split_s(group@, '/'),
            first_env_seg(sv, 0) == first_env_seg(sv, i as int),
        decreases segs.len() - i,
    {
        assert(sv[i as int] == segs@[i as int]@);
        if segs[i].len() > 0 && !is_wrapper(&segs[i]) {
            return Some(string_of(&segs[i]));
        }
        i = i + 1;
    }
    None
}

/// True when a file's display path has a segment equal to `env`.
pub fn in_environment(display: &str, env: &str) -> (r: bool)
    ensures
        r == split_s(display@, '/').contains(env@),
{
    let segs = split_char(&chars_of(display), '/');
    let e = chars_of(env);
    let ghost sv = lines_view(segs@);
    let mut i: usize = 0;
    while i < segs.len()
        invariant
            i <= segs.len(),
            sv == lines_view(segs@),
            sv == split_s(display@, '/'),
            e@ == env@,
            forall|j: int| 0 <= j < i ==> sv[j] != env@,
        decreases segs.len() - i,
    {
        assert(sv[i as int] == segs@[i as int]@);
        if eq_chars(&segs[i], &e) {
            return true;
        }
        i = i + 1;
    }
    false
}


// ---------------------------------------------------------------------------
// Markdown
// ---------------------------------------------------------------------------

/// The green `(No changes)` marker.
pub open spec fn marker_s() -> Seq<char> {
    colorize_s("(No changes)"@, AnsiColor::Green, true)
}

/// The `(No changes)` marker rendered in green next to an empty label.
pub fn no_changes_marker() -> (r: Vec<char>)
    ensures
        r@ == marker_s(),
{
    paint(&chars_of("(No changes)"), AnsiColor::Green, true)
}

/// The first `n` items as `- label` bullets, one per line.
pub open spec fn bullets_s(items: Seq<ItemView>, n: int) -> Seq<char>
    decreases n,
{
    if n <= 0 {
        seq![]
    } else {
        bullets_s(items, n - 1) + "- "@ + markdown_label_s(items[n - 1]) + "\n"@
    }
}

/// A `<strong>` subsection: its label, the marker when it is empty, then
/// its bullets, without trailing whitespace.
pub open spec fn subsection_s(label: Seq<char>, items: Seq<ItemView>) -> Seq<char> {
    trim_end_s(
        "<strong>"@ + label + "</strong>"@ + (if items.len() == 0 {
            " "@ + marker_s()
        } else {
            seq![]
        }) + "\n\n"@ + bullets_s(items, items.len() as int),
    )
}

/// Render one `<strong>` subsection: the label, the `(No changes)` marker in
/// green when the section is empty, then the item bullets.
pub fn render_subsection(label: &str, items: &Vec<Item>) -> (r: Vec<char>)
    ensures
        r@ == subsection_s(label@, items_view(items@)),
{
    let ghost iv = items_view(items@);
    let mut out = chars_of("<strong>");
    append(&mut out, chars_of(label).as_slice());
    append(&mut out, chars_of("</strong>").as_slice());
    let ghost h0 = out@;
    if items.len() == 0 {
        append(&mut out, chars_of(" ").as_slice());
        append(&mut out, no_changes_marker().as_slice());
    }
    let ghost mk: Seq<char> = if items.len() == 0 {
        " "@ + marker_s()
    } else {
        seq![]
    };
    assert(out@ =~= h0 + mk);
    append(&mut out, chars_of("\n\n").as_slice());
    let ghost head = out@;
    assert(head =~= "<strong>"@ + label@ + "</strong>"@ + mk + "\n\n"@);
    let mut i: usize = 0;
    while i < items.len()
        invariant
            i <= items.len(),
            iv == items_view(items@),
            out@ == head + bullets_s(iv, i as int),
        decreases items.len() - i,
    {
        let ghost prev = out@;
        append(&mut out, chars_of("- ").as_slice());
        append(&mut out, markdown_label(&items[i]).as_slice());
        append(&mut out, chars_of("\n").as_slice());
        assert(out@ =~= head + bullets_s(iv, i + 1));
        i = i + 1;
    }
    assert(out@ =~= "<strong>"@ + label@ + "</strong>"@ + mk + "\n\n"@ + bullets_s(iv, iv.len() as int));
    trim_end(&out)
}

/// Where `x` goes among items sorted by key: after every item whose key
/// does not sort after its own.
pub open spec fn after_pos(s: Seq<ItemView>, x: ItemView, i: int) -> int
    decreases s.len() - i,
{
    if i < 0 || i >= s.len() {
        s.len() as int
    } else if lex_lt(x.key, s[i].key) {
        i
    } else {
        after_pos(s, x, i + 1)
    }
}

proof fn lemma_after_pos_range(s: Seq<ItemView>, x: ItemView, i: int)
    requires
        0 <= i <= s.len(),
    ensures
        i <= after_pos(s, x, i) <= s.len(),
    decreases s.len() - i,
{
    if i < s.len() && !lex_lt(x.key, s[i].key) {
        lemma_after_pos_range(s, x, i + 1);
    }
}

/// The items stably sorted by key: equal keys keep their order.
pub open spec fn by_key(s: Seq<ItemView>) -> Seq<ItemView>
    decreases s.len(),
{
    if s.len() == 0 {
        seq![]
    } else {
        let t = by_key(s.drop_last());
        t.insert(after_pos(t, s.last(), 0), s.last())
    }
}

proof fn lemma_by_key_len(s: Seq<ItemView>)
    ensures
        by_key(s).len() == s.len(),
    decreases s.len(),
{
    if s.len() > 0 {
        lemma_by_key_len(s.drop_last());
        lemma_after_pos_range(by_key(s.drop_last()), s.last(), 0);
    }
}

/// The items stably sorted by key.
fn sort_by_key(v: &Vec<Item>) -> (out: Vec<Item>)
    ensures
        items_view(out@) == by_key(items_view(v@)),
{
    let ghost iv = items_view(v@);
    let mut out: Vec<Item> = Vec::new();
    let mut i: usize = 0;
    while i < v.len()
        invariant
            i <= v.len(),
            iv == items_view(v@),
            items_view(out@) == by_key(iv.take(i as int)),
        decreases v.len() - i,
    {
        let x = copy_item(&v[i]);
        let xk = chars_of(x.key.as_str());
        let ghost t = items_view(out@);
        let mut p: usize = 0;
        proof {
            lemma_by_key_len(iv.take(i as int));
        }
        while p < out.len() && !lex_less(&xk, &chars_of(out[p].key.as_str()))
            invariant
                p <= out.len(),
                t == items_view(out@),
                xk@ == x@.key,
                after_pos(t, x@, 0) == after_pos(t, x@, p as int),
            decreases out.len() - p,
        {
            p = p + 1;
        }
        let ghost xv = x@;
        out.insert(p, x);
        proof {
            assert(iv.take(i + 1).drop_last() =~= iv.take(i as int));
            assert(iv.take(i + 1).last() == iv[i as int]);
            assert(items_view(out@) =~= t.insert(p as int, xv));
        }
        i = i + 1;
    }
    assert(iv.take(v@.len() as int) =~= iv);
    out
}

/// The title of a report's environment section: the environment named by
/// its folder, else the `--from` branch.
pub open spec fn title_s(r: ReportView, from: Seq<char>) -> Seq<char> {
    match env_name_s(env_group_s(r.0)) {
        Some(n) => n,
        None => from,
    }
}

/// The items of the first `n` reports in environment `e` of the given kind,
/// in file order.
pub open spec fn kind_items(fv: Seq<ReportView>, e: Seq<char>, from: Seq<char>, kind: FileKind, n: int) -> Seq<ItemView>
    decreases n,
{
    if n <= 0 {
        seq![]
    } else {
        kind_items(fv, e, from, kind, n - 1) + if title_s(fv[n - 1], from) == e && fv[n - 1].1 == kind {
            fv[n - 1].2
        } else {
            seq![]
        }
    }
}

/// The number of items of the first `n` reports in environment `e`.
pub open spec fn env_total(fv: Seq<ReportView>, e: Seq<char>, from: Seq<char>, n: int) -> int
    decreases n,
{
    if n <= 0 {
        0
    } else {
        env_total(fv, e, from, n - 1) + if title_s(fv[n - 1], from) == e {
            fv[n - 1].2.len() as int
        } else {
            0
        }
    }
}

/// The items of a given change.
pub open spec fn with_change(items: Seq<ItemView>, c: ChangeKind) -> Seq<ItemView> {
    items.filter(|it: ItemView| it.change == c)
}

/// One kind's block of an environment section: the `###` label with the
/// marker when the kind has no items; otherwise the label, a rule, and the
/// "Updated" (created, plus updated for a configmap) and "Deleted"
/// subsections, each by key.
pub open spec fn kind_block_s(fv: Seq<ReportView>, e: Seq<char>, from: Seq<char>, kind: FileKind) -> Seq<char> {
    let items = kind_items(fv, e, from, kind, fv.len() as int);
    if items.len() == 0 {
        "### "@ + kind_label_s(kind) + " "@ + marker_s()
    } else {
        let upd = if kind == FileKind::ConfigMap {
            by_key(with_change(items, ChangeKind::Created) + with_change(items, ChangeKind::Updated))
        } else {
            by_key(with_change(items, ChangeKind::Created))
        };
        let del = by_key(with_change(items, ChangeKind::Deleted));
        trim_end_s(
            "### "@ + kind_label_s(kind) + "\n---\n"@ + subsection_s("Updated"@, upd) + "\n\n"@
                + subsection_s("Deleted"@, del) + "\n\n"@,
        )
    }
}

/// One environment's block: its header with the marker when it has no
/// changes, else the header and the configmap and secrets blocks.
pub open spec fn env_section_s(fv: Seq<ReportView>, e: Seq<char>, from: Seq<char>) -> Seq<char> {
    if env_total(fv, e, from, fv.len() as int) == 0 {
        "## "@ + e + " "@ + marker_s()
    } else {
        "## "@ + e + "\n\n"@ + kind_block_s(fv, e, from, FileKind::ConfigMap) + "\n\n"@ + kind_block_s(
            fv,
            e,
            from,
            FileKind::Secret,
        )
    }
}

/// The items of environment `e` and the given kind, in file order.
fn collect_kind_items(files: &Vec<FileReport>, titles: &Vec<Vec<char>>, e: &Vec<char>, from: &str, kind: FileKind) -> (out: Vec<Item>)
    requires
        titles@.len() == files@.len(),
        forall|i: int| 0 <= i < files@.len() ==> (#[trigger] titles@[i])@ == title_s(files@[i]@, from@),
    ensures
        items_view(out@) == kind_items(reports_view(files@), e@, from@, kind, files@.len() as int),
{
    let ghost fv = reports_view(files@);
    let mut out: Vec<Item> = Vec::new();
    let mut i: usize = 0;
    while i < files.len()
        invariant
            i <= files.len(),
            fv == reports_view(files@),
            titles@.len() == files@.len(),
            forall|i: int| 0 <= i < files@.len() ==> (#[trigger] titles@[i])@ == title_s(files@[i]@, from@),
            items_view(out@) == kind_items(fv, e@, from@, kind, i as int),
        decreases files.len() - i,
    {
        assert(titles@[i as int]@ == title_s(fv[i as int], from@));
        if eq_chars(&titles[i], e) && files[i].kind == kind {
            let its = &files[i].items;
            let ghost base = items_view(out@);
            let mut j: usize = 0;
            while j < its.len()
                invariant
                    j <= its.len(),
                    items_view(out@) == base + items_view(its@.take(j as int)),
                decreases its.len() - j,
            {
                let c = copy_item(&its[j]);
                let ghost before = out@;
                out.push(c);
                assert(items_view(out@) =~= items_view(before).push(c@));
                assert(its@.take(j + 1) =~= its@.take(j as int).push(its@[j as int]));
                assert(items_view(its@.take(j + 1)) =~= items_view(its@.take(j as int)).push(its@[j as int]@));
                assert(items_view(out@) =~= base + items_view(its@.take(j + 1)));
                j = j + 1;
            }
            assert(its@.take(its@.len() as int) =~= its@);
        }
        i = i + 1;
    }
    out
}

/// The items of a given change, in order.
fn select_change(items: &Vec<Item>, c: ChangeKind, out: &mut Vec<Item>)
    ensures
        items_view(final(out)@) == items_view(old(out)@) + with_change(items_view(items@), c),
{
    let ghost iv = items_view(items@);
    let ghost base = items_view(out@);
    let ghost p = |it: ItemView| it.change == c;
    let ghost id = |it: ItemView| it;
    let mut i: usize = 0;
    assert(iv.take(0).filter(p).map_values(id) =~= seq![]);
    while i < items.len()
        invariant
            i <= items.len(),
            iv == items_view(items@),
            p == (|it: ItemView| it.change == c),
            id == (|it: ItemView| it),
            items_view(out@) == base + iv.take(i as int).filter(p).map_values(id),
        decreases items.len() - i,
    {
        proof {
            lemma_filter_map_step(iv, i as int, p, id);
        }
        if items[i].change == c {
            let ghost before = items_view(out@);
            out.push(copy_item(&items[i]));
            assert(items_view(out@) =~= before.push(iv[i as int]));
        }
        i = i + 1;
    }
    assert(iv.take(iv.len() as int) =~= iv);
    assert(iv.filter(p).map_values(id) =~= iv.filter(p));
}

fn kind_block(files: &Vec<FileReport>, titles: &Vec<Vec<char>>, e: &Vec<char>, from: &str, kind: FileKind) -> (out: Vec<char>)
    requires
        titles@.len() == files@.len(),
        forall|i: int| 0 <= i < files@.len() ==> (#[trigger] titles@[i])@ == title_s(files@[i]@, from@),
    ensures
        out@ == kind_block_s(reports_view(files@), e@, from@, kind),
{
    let items = collect_kind_items(files, titles, e, from, kind);
    let mut out = chars_of("### ");
    append(&mut out, chars_of(kind_label(kind)).as_slice());
    if items.len() == 0 {
        append(&mut out, chars_of(" ").as_slice());
        append(&mut out, no_changes_marker().as_slice());
        return out;
    }
    let mut upd: Vec<Item> = Vec::new();
    select_change(&items, ChangeKind::Created, &mut upd);
    if kind == FileKind::ConfigMap {
        select_change(&items, ChangeKind::Updated, &mut upd);
    }
    let mut del: Vec<Item> = Vec::new();
    select_change(&items, ChangeKind::Deleted, &mut del);
    let upd = sort_by_key(&upd);
    let del = sort_by_key(&del);
    append(&mut out, chars_of("\n---\n").as_slice());
    append(&mut out, render_subsection("Updated", &upd).as_slice());
    append(&mut out, chars_of("\n\n").as_slice());
    append(&mut out, render_subsection("Deleted", &del).as_slice());
    append(&mut out, chars_of("\n\n").as_slice());
    assert(seq![] + with_change(items_view(items@), ChangeKind::Created) =~= with_change(items_view(items@), ChangeKind::Created));
    assert(seq![] + with_change(items_view(items@), ChangeKind::Deleted) =~= with_change(items_view(items@), ChangeKind::Deleted));
    trim_end(&out)
}

/// Render one environment's block of the markdown report.
fn render_env_section(files: &Vec<FileReport>, titles: &Vec<Vec<char>>, e: &Vec<char>, from: &str) -> (out: Vec<char>)
    requires
        titles@.len() == files@.len(),
        forall|i: int| 0 <= i < files@.len() ==> (#[trigger] titles@[i])@ == title_s(files@[i]@, from@),
    ensures
        out@ == env_section_s(reports_view(files@), e@, from@),
{
    let ghost fv = reports_view(files@);
    let mut any = false;
    let mut i: usize = 0;
    while i < files.len()
        invariant
            i <= files.len(),
            fv == reports_view(files@),
            titles@.len() == files@.len(),
            forall|i: int| 0 <= i < files@.len() ==> (#[trigger] titles@[i])@ == title_s(files@[i]@, from@),
            env_total(fv, e@, from@, i as int) >= 0,
            any == (env_total(fv, e@, from@, i as int) > 0),
        decreases files.len() - i,
    {
        assert(titles@[i as int]@ == title_s(fv[i as int], from@));
        if eq_chars(&titles[i], e) && files[i].items.len() > 0 {
            any = true;
        }
        i = i + 1;
    }
    let mut out = chars_of("## ");
    append(&mut out, e.as_slice());
    if !any {
        append(&mut out, chars_of(" ").as_slice());
        append(&mut out, no_changes_marker().as_slice());
        return out;
    }
    append(&mut out, chars_of("\n\n").as_slice());
    append(&mut out, kind_block(files, titles, e, from, FileKind::ConfigMap).as_slice());
    append(&mut out, chars_of("\n\n").as_slice());
    append(&mut out, kind_block(files, titles, e, from, FileKind::Secret).as_slice());
    out
}

/// Drop every trailing `'\n'`.
pub open spec fn strip_newlines(s: Seq<char>) -> Seq<char>
    decreases s.len(),
{
    if s.len() > 0 && s.last() == '\n' {
        strip_newlines(s.drop_last())
    } else {
        s
    }
}

/// The markdown report: the `# Comparing branches: <from> → <to>` header,
/// then one section per environment in sorted order (files outside any
/// environment folder fall under the `--from` branch name), ending in
/// exactly one newline.
pub open spec fn markdown_s(fv: Seq<ReportView>, from: Seq<char>, to: Seq<char>) -> Seq<char> {
    let envs = sorted_list(fv.map_values(|r: ReportView| title_s(r, from)).to_set());
    let sections = envs.map_values(|e: Seq<char>| env_section_s(fv, e, from));
    strip_newlines(
        "# Comparing branches: "@ + from + " → "@ + to + "\n\n"@ + join_s(sections, "\n\n"@),
    ) + "\n"@
}

fn title_of(r: &FileReport, from: &str) -> (t: Vec<char>)
    ensures
        t@ == title_s(r@, from@),
{
    match env_name(env_group(r.display.as_str()).as_str()) {
        Some(n) => chars_of(n.as_str()),
        None => chars_of(from),
    }
}

/// Render the markdown report of `files` between `from_branch` and
/// `to_branch`.
pub fn render_markdown(files: &Vec<FileReport>, from_branch: &str, to_branch: &str) -> (r: String)
    ensures
        r@ == markdown_s(reports_view(files@), from_branch@, to_branch@),
{
    let ghost fv = reports_view(files@);
    let ghost tv = fv.map_values(|r: ReportView| title_s(r, from_branch@));
    let mut titles: Vec<Vec<char>> = Vec::new();
    let mut envs: Vec<Vec<char>> = Vec::new();
    let mut i: usize = 0;
    assert(keys_view(envs@).to_set() =~= tv.take(0).to_set());
    while i < files.len()
        invariant
            i <= files.len(),
            fv == reports_view(files@),
            tv == fv.map_values(|r: ReportView| title_s(r, from_branch@)),
            titles@.len() == i,
            forall|j: int| 0 <= j < i ==> (#[trigger] titles@[j])@ == title_s(files@[j]@, from_branch@),
            strictly_sorted(keys_view(envs@)),
            keys_view(envs@).to_set() == tv.take(i as int).to_set(),
        decreases files.len() - i,
    {
        let t = title_of(&files[i], from_branch);
        let t2 = chars_of(string_of(&t).as_str());
        titles.push(t);
        insert_sorted(&mut envs, t2);
        proof {
            assert(tv.take(i + 1) =~= tv.take(i as int).push(tv[i as int]));
            tv.take(i as int).lemma_push_to_set_commute(tv[i as int]);
        }
        i = i + 1;
    }
    assert(tv.take(files.len() as int) =~= tv);
    proof {
        lemma_sorted_list_is(keys_view(envs@), tv.to_set());
    }
    let ghost ev = keys_view(envs@);
    let mut sections: Vec<Vec<char>> = Vec::new();
    let mut k: usize = 0;
    while k < envs.len()
        invariant
            k <= envs.len(),
            ev == keys_view(envs@),
            fv == reports_view(files@),
            titles@.len() == files@.len(),
            forall|j: int| 0 <= j < files@.len() ==> (#[trigger] titles@[j])@ == title_s(files@[j]@, from_branch@),
            lines_view(sections@) == ev.take(k as int).map_values(|e: Seq<char>| env_section_s(fv, e, from_branch@)),
        decreases envs.len() - k,
    {
        let sec = render_env_section(files, &titles, &envs[k], from_branch);
        let ghost before = lines_view(sections@);
        sections.push(sec);
        assert(lines_view(sections@) =~= before.push(sec@));
        assert(ev.take(k + 1) =~= ev.take(k as int).push(ev[k as int]));
        assert(ev.take(k + 1).map_values(|e: Seq<char>| env_section_s(fv, e, from_branch@)) =~= ev.take(k as int).map_values(|e: Seq<char>| env_section_s(fv, e, from_branch@)).push(env_section_s(fv, ev[k as int], from_branch@)));
        k = k + 1;
    }
    assert(ev.take(envs.len() as int) =~= ev);
    let ghost secs = ev.map_values(|e: Seq<char>| env_section_s(fv, e, from_branch@));
    assert(lines_view(sections@) == secs);
    assert(ev == sorted_list(fv.map_values(|r: ReportView| title_s(r, from_branch@)).to_set()));
    let mut out = chars_of("# Comparing branches: ");
    append(&mut out, chars_of(from_branch).as_slice());
    append(&mut out, chars_of(" → ").as_slice());
    append(&mut out, chars_of(to_branch).as_slice());
    append(&mut out, chars_of("\n\n").as_slice());
    append(&mut out, join(&sections, chars_of("\n\n").as_slice()).as_slice());
    let ghost full = out@;
    assert(full =~= "# Comparing branches: "@ + from_branch@ + " → "@ + to_branch@ + "\n\n"@ + join_s(secs, "\n\n"@));
    while out.len() > 0 && out[out.len() - 1] == '\n'
        invariant
            strip_newlines(full) == strip_newlines(out@),
        decreases out.len(),
    {
        let ghost before = out@;
        out.pop();
        assert(out@ =~= before.drop_last());
    }
    assert(strip_newlines(out@) == out@);
    let ghost stripped = out@;
    out.push('\n');
    assert(out@ =~= stripped + "\n"@) by {
        reveal_strlit("\n");
    }
    string_of(&out)
}


// ---------------------------------------------------------------------------
// Terminal tree
// ---------------------------------------------------------------------------

/// A tree label `prefix KEY`, followed by ` = value` (the value in the
/// value color when coloring) when there is a value.
pub open spec fn tree_label_s(
    prefix: Seq<char>,
    key: Seq<char>,
    value: Seq<char>,
    prefix_color: AnsiColor,
    colors: ColorConfig,
    uc: bool,
) -> Seq<char> {
    let head = colorize_s(prefix, prefix_color, uc) + " "@ + key;
    if value.len() == 0 {
        head
    } else if uc {
        head + " = "@ + crate::color::code_s(colors.value) + value + crate::color::code_s(AnsiColor::Reset)
    } else {
        head + " = "@ + value
    }
}

/// Build one terminal tree item label: `+ KEY = value (note)` (or `- KEY`
/// / `- KEY = old`).
pub fn tree_label(
    prefix: &str,
    key: &str,
    value: &str,
    prefix_color: AnsiColor,
    colors: &ColorConfig,
    use_color: bool,
) -> (r: String)
    ensures
        r@ == tree_label_s(prefix@, key@, value@, prefix_color, *colors, use_color),
{
    let mut out = paint(&chars_of(prefix), prefix_color, use_color);
    out.push(' ');
    append(&mut out, chars_of(key).as_slice());
    let ghost head = out@;
    assert(head =~= colorize_s(prefix@, prefix_color, use_color) + " "@ + key@) by {
        reveal_strlit(" ");
    }
    let v = chars_of(value);
    if v.len() == 0 {
        return string_of(&out);
    }
    append(&mut out, chars_of(" = ").as_slice());
    if use_color {
        append(&mut out, chars_of(colors.value.code()).as_slice());
        append(&mut out, v.as_slice());
        append(&mut out, chars_of(AnsiColor::Reset.code()).as_slice());
    } else {
        append(&mut out, v.as_slice());
    }
    string_of(&out)
}

/// The view of tree items: label and color.
pub open spec fn tree_items_view(v: Seq<TreeItem>) -> Seq<(Seq<char>, AnsiColor)> {
    v.map_values(|t: TreeItem| (t.label@, t.color))
}

/// The tree lines of one item: `+ KEY = value` for Created, `- KEY` for
/// Deleted, and `- KEY = old` then `+ KEY = new` for Updated.
pub open spec fn item_tree_s(it: ItemView, colors: ColorConfig, uc: bool) -> Seq<(Seq<char>, AnsiColor)> {
    let minus = (tree_label_s("-"@, it.key, seq![], colors.removed, colors, uc), colors.removed);
    let plus = (
        tree_label_s("+"@, it.key, value_part_s(it), colors.added, colors, uc),
        colors.added,
    );
    match it.change {
        ChangeKind::Deleted => seq![minus],
        ChangeKind::Created => seq![plus],
        ChangeKind::Updated => seq![
            (tree_label_s("-"@, it.key, old_value_part_s(it), colors.removed, colors, uc), colors.removed),
            plus,
        ],
    }
}

/// The tree lines of the first `n` items.
pub open spec fn file_tree_s(items: Seq<ItemView>, n: int, colors: ColorConfig, uc: bool) -> Seq<(Seq<char>, AnsiColor)>
    decreases n,
{
    if n <= 0 {
        seq![]
    } else {
        file_tree_s(items, n - 1, colors, uc) + item_tree_s(items[n - 1], colors, uc)
    }
}

/// The terminal tree items for one file's report.
pub fn file_tree_items(file: &FileReport, colors: &ColorConfig, use_color: bool) -> (out: Vec<TreeItem>)
    ensures
        tree_items_view(out@) == file_tree_s(items_view(file.items@), file.items@.len() as int, *colors, use_color),
{
    let ghost iv = items_view(file.items@);
    let mut out: Vec<TreeItem> = Vec::new();
    let mut i: usize = 0;
    while i < file.items.len()
        invariant
            i <= file.items.len(),
            iv == items_view(file.items@),
            tree_items_view(out@) == file_tree_s(iv, i as int, *colors, use_color),
        decreases file.items.len() - i,
    {
        let item = &file.items[i];
        let ghost before = tree_items_view(out@);
        match item.change {
            ChangeKind::Deleted => {
                let t = TreeItem {
                    label: tree_label("-", item.key.as_str(), "", colors.removed, colors, use_color),
                    color: colors.removed,
                };
                out.push(t);
            },
            ChangeKind::Created => {
                let vp = value_part(item);
                let t = TreeItem {
                    label: tree_label("+", item.key.as_str(), vp.as_str(), colors.added, colors, use_color),
                    color: colors.added,
                };
                out.push(t);
            },
            ChangeKind::Updated => {
                let op = old_value_part(item);
                let t1 = TreeItem {
                    label: tree_label("-", item.key.as_str(), op.as_str(), colors.removed, colors, use_color),
                    color: colors.removed,
                };
                out.push(t1);
                let vp = value_part(item);
                let t2 = TreeItem {
                    label: tree_label("+", item.key.as_str(), vp.as_str(), colors.added, colors, use_color),
                    color: colors.added,
                };
                out.push(t2);
            },
        }
        proof {
            reveal_strlit("");
        }
        assert(tree_items_view(out@) =~= before + item_tree_s(iv[i as int], *colors, use_color));
        i = i + 1;
    }
    out
}

/// The sum of the files' item counts.
pub open spec fn report_count(files: Seq<FileReport>, n: int) -> int
    decreases n,
{
    if n <= 0 {
        0
    } else {
        report_count(files, n - 1) + files[n - 1].items@.len()
    }
}

/// The terminal tree of a service's report: one service node counting
/// every item, one file node per report in order, counting its items and
/// holding its diff lines.
pub fn report_tree(service_name: &str, files: &Vec<FileReport>, colors: &ColorConfig, use_color: bool) -> (r: Option<crate::display::TreeService>)
    ensures
        report_count(files@, files@.len() as int) <= usize::MAX ==> (r matches Some(t) && {
            &&& t.name@ == service_name@
            &&& t.count == report_count(files@, files@.len() as int)
            &&& t.files@.len() == files@.len()
            &&& forall|i: int| 0 <= i < files@.len() ==> {
                let f = #[trigger] t.files@[i];
                &&& f.name@ == files@[i].display@
                &&& f.count == files@[i].items@.len()
                &&& tree_items_view(f.items@) == file_tree_s(items_view(files@[i].items@), files@[i].items@.len() as int, *colors, use_color)
            }
        }),
        report_count(files@, files@.len() as int) > usize::MAX ==> r is None,
{
    let mut out: Vec<crate::display::TreeFile> = Vec::new();
    let mut count: usize = 0;
    let mut overflow = false;
    let mut i: usize = 0;
    while i < files.len()
        invariant
            i <= files.len(),
            out@.len() == i,
            !overflow ==> count == report_count(files@, i as int),
            overflow ==> report_count(files@, i as int) > usize::MAX,
            forall|j: int| 0 <= j < i ==> {
                let f = #[trigger] out@[j];
                &&& f.name@ == files@[j].display@
                &&& f.count == files@[j].items@.len()
                &&& tree_items_view(f.items@) == file_tree_s(items_view(files@[j].items@), files@[j].items@.len() as int, *colors, use_color)
            },
        decreases files.len() - i,
    {
        let f = &files[i];
        let items = file_tree_items(f, colors, use_color);
        out.push(crate::display::TreeFile { name: f.display.clone(), count: f.items.len(), items });
        if !overflow {
            if count <= usize::MAX - f.items.len() {
                count = count + f.items.len();
            } else {
                overflow = true;
            }
        }
        i = i + 1;
    }
    if overflow {
        None
    } else {
        Some(crate::display::TreeService { name: crate::text::string_of(&chars_of(service_name)), count, files: out })
    }
}

/// Why no single service could be selected.
#[derive(Debug, PartialEq, Eq)]
pub enum SelectError {
    /// `--all` was given, or not exactly one `--service`.
    NotExactlyOne,
    /// No service has the given name.
    NotFound(String),
}

/// Resolve the service named by exactly one `--service` flag: fails when
/// `all` is set or the names are not exactly one, or when no service has
/// that name; otherwise the first service with that name.
pub fn selected_service<'a>(all: bool, names: &Vec<String>, services: &'a Vec<crate::model::Service>) -> (r: Result<&'a crate::model::Service, SelectError>)
    ensures
        (all || names@.len() != 1) ==> r == Err::<&crate::model::Service, SelectError>(SelectError::NotExactlyOne),
        !(all || names@.len() != 1) ==> match r {
            Ok(s) => exists|i: int| 0 <= i < services@.len() && *s == services@[i]
                && services@[i].name@ == names@[0]@
                && forall|j: int| 0 <= j < i ==> (#[trigger] services@[j]).name@ != names@[0]@,
            Err(SelectError::NotFound(n)) => n@ == names@[0]@ && forall|j: int|
                0 <= j < services@.len() ==> (#[trigger] services@[j]).name@ != names@[0]@,
            Err(SelectError::NotExactlyOne) => false,
        },
{
    if all || names.len() != 1 {
        return Err(SelectError::NotExactlyOne);
    }
    let name = &names[0];
    let mut i: usize = 0;
    while i < services.len()
        invariant
            i <= services@.len(),
            !all,
            names@.len() == 1,
            *name == names@[0],
            forall|j: int| 0 <= j < i ==> (#[trigger] services@[j]).name@ != names@[0]@,
        decreases services.len() - i,
    {
        if eq_chars(&chars_of(services[i].name.as_str()), &chars_of(name.as_str())) {
            return Ok(&services[i]);
        }
        i = i + 1;
    }
    Err(SelectError::NotFound(name.clone()))
}

} // verus!
