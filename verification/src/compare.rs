//! Comparing an env file against the other files of the same kind: which
//! keys one side has and the other lacks, and (optionally) which values
//! differ.

use vstd::prelude::*;

use crate::changes::{has_key, keys_view, last_val, last_value, lemma_filter_map_step, pair_keys, sorted_keys};
use crate::color::{code_s, colorize_s, paint, AnsiColor, ColorConfig};
use crate::display::{render_tree, tree_s, TreeEntry, TreeFile, TreeItem, TreeService};
use crate::model::{FileKind, Service};
use crate::order::sorted_list;
use crate::parser::{pairs_view, strings_view, ParsedPair};
use crate::text::{append, chars_of, eq_chars, string_of};

verus! {

/// The kinds a base file of `kind` is compared against.
pub open spec fn peer_kinds_s(kind: FileKind) -> Seq<FileKind> {
    match kind {
        FileKind::Dotenv | FileKind::DotenvExample => seq![FileKind::Dotenv, FileKind::DotenvExample],
        FileKind::ConfigMap => seq![FileKind::ConfigMap],
        FileKind::Secret => seq![FileKind::Secret],
    }
}

/// The file kinds that a base file of `kind` is compared against: the two
/// dotenv kinds with each other, configmaps and secrets with their own kind.
pub fn peer_kinds(kind: FileKind) -> (r: Vec<FileKind>)
    ensures
        r@ == peer_kinds_s(kind),
{
    let mut v: Vec<FileKind> = Vec::new();
    match kind {
        FileKind::Dotenv | FileKind::DotenvExample => {
            v.push(FileKind::Dotenv);
            v.push(FileKind::DotenvExample);
        },
        FileKind::ConfigMap => v.push(FileKind::ConfigMap),
        FileKind::Secret => v.push(FileKind::Secret),
    }
    assert(v@ =~= peer_kinds_s(kind));
    v
}

/// A difference between the base file and a peer file.
#[derive(Debug)]
pub enum DiffItem {
    /// Key present in the base but absent in the peer.
    Missing { key: String, value: String },
    /// Key absent in the base but present in the peer.
    Extra { key: String, value: String },
    /// Key in both with different values (only when comparing values).
    Different { key: String, base_value: String, peer_value: String },
}

/// The mathematical content of a [`DiffItem`].
pub enum DiffView {
    Missing(Seq<char>, Seq<char>),
    Extra(Seq<char>, Seq<char>),
    Different(Seq<char>, Seq<char>, Seq<char>),
}

impl View for DiffItem {
    type V = DiffView;

    open spec fn view(&self) -> DiffView {
        match self {
            DiffItem::Missing { key, value } => DiffView::Missing(key@, value@),
            DiffItem::Extra { key, value } => DiffView::Extra(key@, value@),
            DiffItem::Different { key, base_value, peer_value } => DiffView::Different(
                key@,
                base_value@,
                peer_value@,
            ),
        }
    }
}

/// The view of a list of differences.
pub open spec fn diffs_view(s: Seq<DiffItem>) -> Seq<DiffView> {
    s.map_values(|d: DiffItem| d@)
}

/// The differences between two lists of pairs (a key listed twice counts
/// with its last value): base keys the peer lacks (Missing) and, when
/// comparing values, base keys whose values differ (Different), in key
/// order; then peer keys the base lacks (Extra), in key order.
pub open spec fn diff_pairs_s(
    base: Seq<(Seq<char>, Seq<char>)>,
    peer: Seq<(Seq<char>, Seq<char>)>,
    compare_values: bool,
) -> Seq<DiffView> {
    let bk = pair_keys(base);
    let pk = pair_keys(peer);
    sorted_list(bk).filter(
        |k: Seq<char>| !pk.contains(k) || (compare_values && last_val(base, k) != last_val(peer, k)),
    ).map_values(
        |k: Seq<char>|
            if !pk.contains(k) {
                DiffView::Missing(k, last_val(base, k))
            } else {
                DiffView::Different(k, last_val(base, k), last_val(peer, k))
            },
    ) + sorted_list(pk).filter(|k: Seq<char>| !bk.contains(k)).map_values(
        |k: Seq<char>| DiffView::Extra(k, last_val(peer, k)),
    )
}

/// The differences between the base pairs and a peer's pairs. When
/// `compare_values` is false only key presence is compared.
pub fn diff_pairs(base: &Vec<ParsedPair>, peer: &Vec<ParsedPair>, compare_values: bool) -> (out: Vec<DiffItem>)
    ensures
        diffs_view(out@) == diff_pairs_s(pairs_view(base@), pairs_view(peer@), compare_values),
{
    let ghost bv = pairs_view(base@);
    let ghost pv = pairs_view(peer@);
    let ghost bk = pair_keys(bv);
    let ghost pk = pair_keys(pv);
    let bkeys = sorted_keys(base);
    let pkeys = sorted_keys(peer);
    let ghost bl = keys_view(bkeys@);
    let ghost pl = keys_view(pkeys@);
    let ghost p1 = |k: Seq<char>| !pk.contains(k) || (compare_values && last_val(bv, k) != last_val(pv, k));
    let ghost m1 = |k: Seq<char>|
        if !pk.contains(k) {
            DiffView::Missing(k, last_val(bv, k))
        } else {
            DiffView::Different(k, last_val(bv, k), last_val(pv, k))
        };
    let mut out: Vec<DiffItem> = Vec::new();
    let mut i: usize = 0;
    assert(diffs_view(out@) =~= bl.take(0).filter(p1).map_values(m1));
    while i < bkeys.len()
        invariant
            i <= bkeys.len(),
            bv == pairs_view(base@),
            pv == pairs_view(peer@),
            pk == pair_keys(pv),
            bl == keys_view(bkeys@),
            p1 == (|k: Seq<char>| !pk.contains(k) || (compare_values && last_val(bv, k) != last_val(pv, k))),
            m1 == (|k: Seq<char>|
                if !pk.contains(k) {
                    DiffView::Missing(k, last_val(bv, k))
                } else {
                    DiffView::Different(k, last_val(bv, k), last_val(pv, k))
                }),
            diffs_view(out@) == bl.take(i as int).filter(p1).map_values(m1),
        decreases bkeys.len() - i,
    {
        let k = &bkeys[i];
        proof {
            lemma_filter_map_step(bl, i as int, p1, m1);
        }
        let val = last_value(base, k);
        if !has_key(peer, k) {
            let d = DiffItem::Missing { key: string_of(k), value: string_of(&val) };
            let ghost before = out@;
            out.push(d);
            assert(diffs_view(out@) =~= diffs_view(before).push(d@));
        } else if compare_values {
            let pval = last_value(peer, k);
            if !eq_chars(&val, &pval) {
                let d = DiffItem::Different {
                    key: string_of(k),
                    base_value: string_of(&val),
                    peer_value: string_of(&pval),
                };
                let ghost before = out@;
                out.push(d);
                assert(diffs_view(out@) =~= diffs_view(before).push(d@));
            }
        }
        i = i + 1;
    }
    assert(bl.take(bl.len() as int) =~= bl);
    let ghost first = diffs_view(out@);
    let ghost p2 = |k: Seq<char>| !bk.contains(k);
    let ghost m2 = |k: Seq<char>| DiffView::Extra(k, last_val(pv, k));
    let mut j: usize = 0;
    assert(diffs_view(out@) =~= first + pl.take(0).filter(p2).map_values(m2));
    while j < pkeys.len()
        invariant
            j <= pkeys.len(),
            bk == pair_keys(pairs_view(base@)),
            pv == pairs_view(peer@),
            pl == keys_view(pkeys@),
            p2 == (|k: Seq<char>| !bk.contains(k)),
            m2 == (|k: Seq<char>| DiffView::Extra(k, last_val(pv, k))),
            diffs_view(out@) == first + pl.take(j as int).filter(p2).map_values(m2),
        decreases pkeys.len() - j,
    {
        let k = &pkeys[j];
        proof {
            lemma_filter_map_step(pl, j as int, p2, m2);
        }
        if !has_key(base, k) {
            let d = DiffItem::Extra { key: string_of(k), value: string_of(&last_value(peer, k)) };
            let ghost before = out@;
            out.push(d);
            assert(diffs_view(out@) =~= diffs_view(before).push(d@));
        }
        j = j + 1;
    }
    assert(pl.take(pl.len() as int) =~= pl);
    out
}

/// A diff line `prefix KEY = value`; when coloring, the prefix in its color
/// and the value in the value color.
pub open spec fn diff_label_s(
    prefix: Seq<char>,
    key: Seq<char>,
    value: Seq<char>,
    prefix_color: AnsiColor,
    colors: ColorConfig,
    uc: bool,
) -> Seq<char> {
    if uc {
        colorize_s(prefix, prefix_color, uc) + " "@ + key + " = "@ + code_s(colors.value) + value
            + code_s(AnsiColor::Reset)
    } else {
        prefix + " "@ + key + " = "@ + value
    }
}

/// Build the label for a diff line.
pub fn diff_label(
    prefix: &str,
    key: &str,
    value: &str,
    prefix_color: AnsiColor,
    colors: &ColorConfig,
    use_color: bool,
) -> (r: String)
    ensures
        r@ == diff_label_s(prefix@, key@, value@, prefix_color, *colors, use_color),
{
    let mut out = if use_color {
        paint(&chars_of(prefix), prefix_color, use_color)
    } else {
        chars_of(prefix)
    };
    append(&mut out, chars_of(" ").as_slice());
    append(&mut out, chars_of(key).as_slice());
    append(&mut out, chars_of(" = ").as_slice());
    if use_color {
        append(&mut out, chars_of(colors.value.code()).as_slice());
        append(&mut out, chars_of(value).as_slice());
        append(&mut out, chars_of(AnsiColor::Reset.code()).as_slice());
    } else {
        append(&mut out, chars_of(value).as_slice());
    }
    string_of(&out)
}

/// The tree lines of one difference: `- KEY = value` for Missing, `+ KEY =
/// value` for Extra, and both (base then peer value) for Different.
pub open spec fn diff_lines_s(d: DiffView, colors: ColorConfig, uc: bool) -> Seq<(Seq<char>, AnsiColor)> {
    match d {
        DiffView::Missing(k, v) => seq![(diff_label_s("-"@, k, v, colors.removed, colors, uc), colors.removed)],
        DiffView::Extra(k, v) => seq![(diff_label_s("+"@, k, v, colors.added, colors, uc), colors.added)],
        DiffView::Different(k, b, p) => seq![
            (diff_label_s("-"@, k, b, colors.removed, colors, uc), colors.removed),
            (diff_label_s("+"@, k, p, colors.added, colors, uc), colors.added),
        ],
    }
}

/// The tree lines of the first `n` differences.
pub open spec fn diff_tree_s(ds: Seq<DiffView>, n: int, colors: ColorConfig, uc: bool) -> Seq<(Seq<char>, AnsiColor)>
    decreases n,
{
    if n <= 0 {
        seq![]
    } else {
        diff_tree_s(ds, n - 1, colors, uc) + diff_lines_s(ds[n - 1], colors, uc)
    }
}

/// The tree items showing a peer file's differences.
pub fn diff_tree_items(diffs: &Vec<DiffItem>, colors: &ColorConfig, use_color: bool) -> (out: Vec<TreeItem>)
    ensures
        crate::changes::tree_items_view(out@) == diff_tree_s(diffs_view(diffs@), diffs@.len() as int, *colors, use_color),
{
    let ghost dv = diffs_view(diffs@);
    let mut out: Vec<TreeItem> = Vec::new();
    let mut i: usize = 0;
    while i < diffs.len()
        invariant
            i <= diffs.len(),
            dv == diffs_view(diffs@),
            crate::changes::tree_items_view(out@) == diff_tree_s(dv, i as int, *colors, use_color),
        decreases diffs.len() - i,
    {
        let ghost before = crate::changes::tree_items_view(out@);
        match &diffs[i] {
            DiffItem::Missing { key, value } => {
                out.push(TreeItem {
                    label: diff_label("-", key.as_str(), value.as_str(), colors.removed, colors, use_color),
                    color: colors.removed,
                });
            },
            DiffItem::Extra { key, value } => {
                out.push(TreeItem {
                    label: diff_label("+", key.as_str(), value.as_str(), colors.added, colors, use_color),
                    color: colors.added,
                });
            },
            DiffItem::Different { key, base_value, peer_value } => {
                out.push(TreeItem {
                    label: diff_label("-", key.as_str(), base_value.as_str(), colors.removed, colors, use_color),
                    color: colors.removed,
                });
                out.push(TreeItem {
                    label: diff_label("+", key.as_str(), peer_value.as_str(), colors.added, colors, use_color),
                    color: colors.added,
                });
            },
        }
        assert(crate::changes::tree_items_view(out@) =~= before + diff_lines_s(dv[i as int], *colors, use_color));
        i = i + 1;
    }
    out
}

/// Whether a service passes a service filter (an empty filter passes all).
pub open spec fn passes_filter(name: Seq<char>, filter: Seq<Seq<char>>) -> bool {
    filter.len() == 0 || filter.contains(name)
}

/// The listing of the services' files shown when a base file is not found:
/// every service with files (that passes the filter), its file count, and
/// its files' display paths without counts or items.
pub open spec fn listing_ok(services: Seq<Service>, filter: Seq<Seq<char>>, ts: Seq<TreeService>) -> bool {
    let kept = services.filter(|s: Service| s.files@.len() > 0 && passes_filter(s.name@, filter));
    &&& ts.len() == kept.len()
    &&& forall|i: int|
        0 <= i < ts.len() ==> {
            &&& (#[trigger] ts[i]).name@ == kept[i].name@
            &&& ts[i].count == kept[i].files@.len()
            &&& ts[i].files@.len() == kept[i].files@.len()
            &&& forall|j: int|
                0 <= j < ts[i].files@.len() ==> (#[trigger] ts[i].files@[j]).name@
                    == kept[i].files@[j].display@ && ts[i].files@[j].count == 0
                    && ts[i].files@[j].items@.len() == 0
        }
}

fn listing_entry(s: &Service) -> (t: TreeService)
    ensures
        t.name@ == s.name@,
        t.count == s.files@.len(),
        t.files@.len() == s.files@.len(),
        forall|j: int|
            0 <= j < t.files@.len() ==> (#[trigger] t.files@[j]).name@ == s.files@[j].display@
                && t.files@[j].count == 0 && t.files@[j].items@.len() == 0,
{
    let mut files: Vec<TreeFile> = Vec::new();
    let mut j: usize = 0;
    while j < s.files.len()
        invariant
            j <= s.files.len(),
            files@.len() == j,
            forall|q: int|
                0 <= q < j ==> (#[trigger] files@[q]).name@ == s.files@[q].display@ && files@[q].count
                    == 0 && files@[q].items@.len() == 0,
        decreases s.files.len() - j,
    {
        files.push(TreeFile { name: s.files[j].display.clone(), count: 0, items: Vec::new() });
        j = j + 1;
    }
    TreeService { name: s.name.clone(), count: s.files.len(), files }
}

/// The available-files listing in the tree format, as text: the services
/// with files (restricted to `service_filter` when it is not empty), each
/// file by its display path.
pub fn available_files_tree(
    services: &Vec<Service>,
    service_filter: &Vec<String>,
    colors: &ColorConfig,
    use_color: bool,
) -> (r: String)
    ensures
        exists|ts: Seq<TreeService>|
            listing_ok(services@, strings_view(service_filter@), ts) && r@ == tree_s(
                ts,
                ts.len() as int,
                *colors,
                use_color,
                false,
            ),
{
    let ghost fv = strings_view(service_filter@);
    let ghost p = |s: Service| s.files@.len() > 0 && passes_filter(s.name@, fv);
    let mut trees: Vec<TreeService> = Vec::new();
    let mut i: usize = 0;
    while i < services.len()
        invariant
            i <= services.len(),
            fv == strings_view(service_filter@),
            p == (|s: Service| s.files@.len() > 0 && passes_filter(s.name@, fv)),
            listing_ok(services@.take(i as int), fv, trees@),
        decreases services.len() - i,
    {
        let s = &services[i];
        let keep = s.files.len() > 0 && (service_filter.len() == 0 || crate::context::has_string(
            service_filter,
            s.name.as_str(),
        ));
        proof {
            assert(services@.take(i + 1) =~= services@.take(i as int).push(services@[i as int]));
            services@.take(i as int).lemma_filter_push(services@[i as int], p);
        }
        if keep {
            let t = listing_entry(s);
            trees.push(t);
        }
        i = i + 1;
    }
    assert(services@.take(services@.len() as int) =~= services@);
    render_tree(&trees, colors, use_color, false)
}


/// The differences found in one peer file of a service.
pub struct PeerDiffs {
    pub service: String,
    pub file: String,
    pub diffs: Vec<DiffItem>,
}

/// The view of tree entries: service, file, label, color, counted.
pub open spec fn entries_view(v: Seq<TreeEntry>) -> Seq<(Seq<char>, Seq<char>, Seq<char>, AnsiColor, bool)> {
    v.map_values(|e: TreeEntry| (e.service@, e.file@, e.label@, e.color, e.counted))
}

/// The entries of one difference: one line per side, the first counted.
pub open spec fn diff_entry_s(s: Seq<char>, f: Seq<char>, d: DiffView, colors: ColorConfig, uc: bool) -> Seq<(Seq<char>, Seq<char>, Seq<char>, AnsiColor, bool)> {
    let ls = diff_lines_s(d, colors, uc);
    Seq::new(ls.len(), |i: int| (s, f, ls[i].0, ls[i].1, i == 0))
}

/// The entries of the first `n` differences of a file.
pub open spec fn file_entries_s(s: Seq<char>, f: Seq<char>, ds: Seq<DiffView>, n: int, colors: ColorConfig, uc: bool) -> Seq<(Seq<char>, Seq<char>, Seq<char>, AnsiColor, bool)>
    decreases n,
{
    if n <= 0 {
        seq![]
    } else {
        file_entries_s(s, f, ds, n - 1, colors, uc) + diff_entry_s(s, f, ds[n - 1], colors, uc)
    }
}

/// The entries of the first `n` compared files.
pub open spec fn comparison_entries_s(cs: Seq<PeerDiffs>, n: int, colors: ColorConfig, uc: bool) -> Seq<(Seq<char>, Seq<char>, Seq<char>, AnsiColor, bool)>
    decreases n,
{
    if n <= 0 {
        seq![]
    } else {
        let c = cs[n - 1];
        comparison_entries_s(cs, n - 1, colors, uc) + file_entries_s(
            c.service@,
            c.file@,
            diffs_view(c.diffs@),
            c.diffs@.len() as int,
            colors,
            uc,
        )
    }
}

/// The tree entries showing every compared file's differences (a
/// difference counts once, even when it shows two lines).
pub fn comparison_entries(cs: &Vec<PeerDiffs>, colors: &ColorConfig, use_color: bool) -> (r: Vec<TreeEntry>)
    ensures
        entries_view(r@) == comparison_entries_s(cs@, cs@.len() as int, *colors, use_color),
{
    let mut out: Vec<TreeEntry> = Vec::new();
    let mut k: usize = 0;
    while k < cs.len()
        invariant
            k <= cs.len(),
            entries_view(out@) == comparison_entries_s(cs@, k as int, *colors, use_color),
        decreases cs.len() - k,
    {
        let c = &cs[k];
        let ghost dv = diffs_view(c.diffs@);
        let ghost base = entries_view(out@);
        let mut i: usize = 0;
        while i < c.diffs.len()
            invariant
                i <= c.diffs.len(),
                dv == diffs_view(c.diffs@),
                entries_view(out@) == base + file_entries_s(c.service@, c.file@, dv, i as int, *colors, use_color),
            decreases c.diffs.len() - i,
        {
            let one = vec_of_one(&c.diffs[i]);
            assert(diffs_view(one@).len() == one@.len());
            assert(dv[i as int] == c.diffs@[i as int]@);
            let items = diff_tree_items(&one, colors, use_color);
            let ghost before = entries_view(out@);
            let mut j: usize = 0;
            let ghost ls = diff_lines_s(dv[i as int], *colors, use_color);
            assert(crate::changes::tree_items_view(items@) == ls) by {
                assert(diff_tree_s(seq![dv[i as int]], 0, *colors, use_color) =~= seq![]);
                assert(diff_tree_s(seq![dv[i as int]], 1, *colors, use_color) =~= diff_lines_s(dv[i as int], *colors, use_color));
            }
            while j < items.len()
                invariant
                    j <= items.len(),
                    crate::changes::tree_items_view(items@) == ls,
                    entries_view(out@) == before + Seq::new(j as nat, |q: int| (c.service@, c.file@, ls[q].0, ls[q].1, q == 0)),
                decreases items.len() - j,
            {
                let ghost pre = entries_view(out@);
                out.push(TreeEntry {
                    service: c.service.clone(),
                    file: c.file.clone(),
                    label: items[j].label.clone(),
                    color: items[j].color,
                    counted: j == 0,
                });
                assert(crate::changes::tree_items_view(items@)[j as int] == (items@[j as int].label@, items@[j as int].color));
                assert(entries_view(out@) =~= pre.push((c.service@, c.file@, ls[j as int].0, ls[j as int].1, j == 0)));
                assert(entries_view(out@) =~= before + Seq::new((j + 1) as nat, |q: int| (c.service@, c.file@, ls[q].0, ls[q].1, q == 0)));
                j = j + 1;
            }
            assert(entries_view(out@) =~= base + file_entries_s(c.service@, c.file@, dv, i + 1, *colors, use_color));
            i = i + 1;
        }
        k = k + 1;
    }
    out
}

/// A list holding a copy of one difference.
fn vec_of_one(d: &DiffItem) -> (r: Vec<DiffItem>)
    ensures
        diffs_view(r@) == seq![d@],
{
    let c = match d {
        DiffItem::Missing { key, value } => DiffItem::Missing { key: key.clone(), value: value.clone() },
        DiffItem::Extra { key, value } => DiffItem::Extra { key: key.clone(), value: value.clone() },
        DiffItem::Different { key, base_value, peer_value } => DiffItem::Different {
            key: key.clone(),
            base_value: base_value.clone(),
            peer_value: peer_value.clone(),
        },
    };
    let mut v: Vec<DiffItem> = Vec::new();
    v.push(c);
    assert(diffs_view(v@) =~= seq![d@]);
    v
}

/// Why the base file of a comparison could not be chosen.
#[derive(Debug, PartialEq, Eq)]
pub enum BaseError {
    /// No service (passing the filter) has a file with that display path.
    NotFound,
    /// Several services have it; their names, in order.
    Ambiguous(Vec<String>),
}

/// Whether service `s` has a file shown as `path`.
pub open spec fn has_file(s: Service, path: Seq<char>) -> bool {
    exists|j: int| 0 <= j < s.files@.len() && (#[trigger] s.files@[j]).display@ == path
}

/// The positions of the services (passing the filter) that have the file.
pub open spec fn holders(services: Seq<Service>, filter: Seq<Seq<char>>, path: Seq<char>, n: int) -> Seq<int>
    decreases n,
{
    if n <= 0 {
        seq![]
    } else if passes_filter(services[n - 1].name@, filter) && has_file(services[n - 1], path) {
        holders(services, filter, path, n - 1).push(n - 1)
    } else {
        holders(services, filter, path, n - 1)
    }
}

proof fn lemma_holders_range(services: Seq<Service>, filter: Seq<Seq<char>>, path: Seq<char>, n: int)
    requires
        0 <= n <= services.len(),
    ensures
        forall|k: int| 0 <= k < holders(services, filter, path, n).len() ==> 0 <= #[trigger] holders(services, filter, path, n)[k] < n
            && has_file(services[holders(services, filter, path, n)[k]], path),
    decreases n,
{
    if n > 0 {
        lemma_holders_range(services, filter, path, n - 1);
        let h0 = holders(services, filter, path, n - 1);
        let h = holders(services, filter, path, n);
        assert forall|k: int| 0 <= k < h.len() implies 0 <= #[trigger] h[k] < n && has_file(services[h[k]], path) by {
            if k < h0.len() {
                assert(h[k] == h0[k]);
            }
        }
    }
}

/// The first file of `s` shown as `path`.
fn file_position(s: &Service, path: &str) -> (r: Option<usize>)
    ensures
        r matches Some(j) ==> j < s.files@.len() && s.files@[j as int].display@ == path@
            && forall|q: int| 0 <= q < j ==> (#[trigger] s.files@[q]).display@ != path@,
        r is None ==> !has_file(*s, path@),
{
    let p = chars_of(path);
    let mut j: usize = 0;
    while j < s.files.len()
        invariant
            j <= s.files.len(),
            p@ == path@,
            forall|q: int| 0 <= q < j ==> (#[trigger] s.files@[q]).display@ != path@,
        decreases s.files.len() - j,
    {
        if eq_chars(&chars_of(s.files[j].display.as_str()), &p) {
            return Some(j);
        }
        j = j + 1;
    }
    None
}

/// The base file of a comparison: the only service (passing the filter)
/// with a file shown as `path`, and that file's position in it. No such
/// service, or several, is an error; the latter names them.
pub fn find_base(services: &Vec<Service>, filter: &Vec<String>, path: &str) -> (r: Result<(usize, usize), BaseError>)
    ensures
        ({
            let h = holders(services@, strings_view(filter@), path@, services@.len() as int);
            &&& h.len() == 0 ==> r == Err::<(usize, usize), BaseError>(BaseError::NotFound)
            &&& h.len() > 1 ==> (r matches Err(BaseError::Ambiguous(names)) && strings_view(names@) == h.map_values(
                |i: int| services@[i].name@,
            ))
            &&& h.len() == 1 ==> (r matches Ok((i, j)) && i == h[0] && j < services@[i as int].files@.len()
                && services@[i as int].files@[j as int].display@ == path@
                && forall|q: int| 0 <= q < j ==> (#[trigger] services@[i as int].files@[q]).display@ != path@)
        }),
{
    let ghost fv = strings_view(filter@);
    let mut found: Vec<usize> = Vec::new();
    let mut names: Vec<String> = Vec::new();
    let mut i: usize = 0;
    while i < services.len()
        invariant
            i <= services.len(),
            fv == strings_view(filter@),
            found@.map_values(|x: usize| x as int) == holders(services@, fv, path@, i as int),
            strings_view(names@) == holders(services@, fv, path@, i as int).map_values(|k: int| services@[k].name@),
        decreases services.len() - i,
    {
        let s = &services[i];
        let passes = filter.len() == 0 || crate::context::has_string(filter, s.name.as_str());
        let at = file_position(s, path);
        proof {
            match at {
                Some(j) => {
                    assert(s.files@[j as int].display@ == path@);
                    assert(has_file(*s, path@));
                },
                None => {},
            }
        }
        if passes && at.is_some() {
            let ghost before = found@;
            let ghost nb = strings_view(names@);
            found.push(i);
            names.push(s.name.clone());
            proof {
                assert(found@.map_values(|x: usize| x as int) =~= before.map_values(|x: usize| x as int).push(i as int));
                assert(strings_view(names@) =~= nb.push(s.name@));
                assert(holders(services@, fv, path@, i + 1) == holders(services@, fv, path@, i as int).push(i as int));
                assert(holders(services@, fv, path@, i + 1).map_values(|k: int| services@[k].name@) =~= holders(
                    services@,
                    fv,
                    path@,
                    i as int,
                ).map_values(|k: int| services@[k].name@).push(s.name@));
            }
        }
        i = i + 1;
    }
    let ghost h = holders(services@, fv, path@, services@.len() as int);
    assert(found@.len() == h.len()) by {
        assert(found@.map_values(|x: usize| x as int).len() == found@.len());
    }
    if found.len() == 0 {
        return Err(BaseError::NotFound);
    }
    if found.len() > 1 {
        return Err(BaseError::Ambiguous(names));
    }
    let bi = found[0];
    assert(found@.map_values(|x: usize| x as int)[0] == bi as int);
    proof {
        lemma_holders_range(services@, fv, path@, services@.len() as int);
    }
    let j = file_position(&services[bi], path);
    match j {
        Some(j) => Ok((bi, j)),
        None => {
            proof {
                assert(has_file(services@[bi as int], path@));
            }
            Err(BaseError::NotFound)
        },
    }
}

/// Whether a file of a service is compared with the base: of a peer kind,
/// not the base file itself, and not skipped.
pub fn is_peer(kinds: &Vec<FileKind>, kind: FileKind, is_base: bool, skipped: bool) -> (r: bool)
    ensures
        r == (kinds@.contains(kind) && !is_base && !skipped),
{
    let mut i: usize = 0;
    let mut found = false;
    while i < kinds.len()
        invariant
            i <= kinds.len(),
            found == exists|q: int| 0 <= q < i && kinds@[q] == kind,
        decreases kinds.len() - i,
    {
        if kinds[i] == kind {
            found = true;
        }
        i = i + 1;
    }
    found && !is_base && !skipped
}

} // verus!
