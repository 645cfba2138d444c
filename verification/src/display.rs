//! The hierarchical `├──` / `└──` / `│` tree shared by every command that
//! shows grouped results (leaks, fake secrets, duplicates, find, unused,
//! diffs). The text is built here; writing it out is the caller's part.

use vstd::prelude::*;

use crate::color::{colorize_s, paint, AnsiColor, ColorConfig};
use crate::order::{insert_sorted, lemma_sorted_list_is, sorted_list, strictly_sorted};
use crate::text::{append, chars_of, dec_s, decimal, eq_chars, string_of};

verus! {

/// A leaf of the tree.
pub struct TreeItem {
    pub label: String,
    pub color: AnsiColor,
}

/// A file node and its items.
pub struct TreeFile {
    pub name: String,
    pub count: usize,
    pub items: Vec<TreeItem>,
}

/// A service node and its files.
pub struct TreeService {
    pub name: String,
    pub count: usize,
    pub files: Vec<TreeFile>,
}

/// The branch drawn before a node: the corner for the last child.
pub open spec fn branch_s(last: bool) -> Seq<char> {
    if last {
        "└── "@
    } else {
        "├── "@
    }
}

/// The indentation drawn under a file: a rail unless it is the last file.
pub open spec fn pipe_s(last: bool) -> Seq<char> {
    if last {
        "    "@
    } else {
        "│   "@
    }
}

/// A count in parentheses.
pub open spec fn paren_s(n: nat) -> Seq<char> {
    "("@ + dec_s(n) + ")"@
}

/// `name/ (count)` for a service.
pub open spec fn service_line_s(s: TreeService, colors: ColorConfig, uc: bool) -> Seq<char> {
    colorize_s(s.name@ + "/"@, colors.service_root, uc) + " "@ + colorize_s(
        paren_s(s.count as nat),
        colors.service_root,
        uc,
    ) + "\n"@
}

/// The line of a file, with its count when `counts` is set.
pub open spec fn file_line_s(f: TreeFile, last: bool, colors: ColorConfig, uc: bool, counts: bool) -> Seq<char> {
    colorize_s(branch_s(last), colors.service_root, uc) + colorize_s(f.name@, colors.file, uc) + (
    if counts {
        " "@ + colorize_s(paren_s(f.count as nat), colors.file, uc)
    } else {
        seq![]
    }) + "\n"@
}

/// The line of an item under a file.
pub open spec fn item_line_s(it: TreeItem, last_file: bool, last: bool, colors: ColorConfig, uc: bool) -> Seq<char> {
    colorize_s(pipe_s(last_file), colors.service_root, uc) + colorize_s(branch_s(last), colors.file, uc)
        + colorize_s(it.label@, it.color, uc) + "\n"@
}

/// The lines of the first `n` items of a file.
pub open spec fn items_s(items: Seq<TreeItem>, n: int, last_file: bool, colors: ColorConfig, uc: bool) -> Seq<char>
    decreases n,
{
    if n <= 0 {
        seq![]
    } else {
        items_s(items, n - 1, last_file, colors, uc) + item_line_s(
            items[n - 1],
            last_file,
            n == items.len(),
            colors,
            uc,
        )
    }
}

/// The lines of the first `n` files of a service.
pub open spec fn files_s(files: Seq<TreeFile>, n: int, colors: ColorConfig, uc: bool, counts: bool) -> Seq<char>
    decreases n,
{
    if n <= 0 {
        seq![]
    } else {
        let f = files[n - 1];
        let last = n == files.len();
        files_s(files, n - 1, colors, uc, counts) + file_line_s(f, last, colors, uc, counts) + items_s(
            f.items@,
            f.items@.len() as int,
            last,
            colors,
            uc,
        )
    }
}

/// The tree of the first `n` services.
pub open spec fn tree_s(services: Seq<TreeService>, n: int, colors: ColorConfig, uc: bool, counts: bool) -> Seq<char>
    decreases n,
{
    if n <= 0 {
        seq![]
    } else {
        let s = services[n - 1];
        tree_s(services, n - 1, colors, uc, counts) + service_line_s(s, colors, uc) + files_s(
            s.files@,
            s.files@.len() as int,
            colors,
            uc,
            counts,
        )
    }
}

/// The summary printed after a tree: a blank line, then the message.
pub open spec fn summary_s(message: Seq<char>, colors: ColorConfig, uc: bool) -> Seq<char> {
    "\n"@ + colorize_s(message, colors.service_root, uc) + "\n"@
}

fn branch_text(last: bool) -> (r: Vec<char>)
    ensures
        r@ == branch_s(last),
{
    if last {
        chars_of("└── ")
    } else {
        chars_of("├── ")
    }
}

fn pipe_text(last: bool) -> (r: Vec<char>)
    ensures
        r@ == pipe_s(last),
{
    if last {
        chars_of("    ")
    } else {
        chars_of("│   ")
    }
}

fn paren_text(n: usize) -> (r: Vec<char>)
    ensures
        r@ == paren_s(n as nat),
{
    let mut r = chars_of("(");
    append(&mut r, decimal(n).as_slice());
    append(&mut r, chars_of(")").as_slice());
    r
}

fn item_line(item: &TreeItem, last_file: bool, last: bool, colors: &ColorConfig, uc: bool) -> (r: Vec<char>)
    ensures
        r@ == item_line_s(*item, last_file, last, *colors, uc),
{
    let mut line = paint(&pipe_text(last_file), colors.service_root, uc);
    append(&mut line, paint(&branch_text(last), colors.file, uc).as_slice());
    append(&mut line, paint(&chars_of(item.label.as_str()), item.color, uc).as_slice());
    append(&mut line, chars_of("\n").as_slice());
    line
}

fn items_text(items: &Vec<TreeItem>, last_file: bool, colors: &ColorConfig, uc: bool, out: &mut Vec<char>)
    ensures
        final(out)@ == old(out)@ + items_s(items@, items@.len() as int, last_file, *colors, uc),
{
    let ghost base = out@;
    let mut j: usize = 0;
    while j < items.len()
        invariant
            j <= items.len(),
            out@ == base + items_s(items@, j as int, last_file, *colors, uc),
        decreases items.len() - j,
    {
        let line = item_line(&items[j], last_file, j + 1 == items.len(), colors, uc);
        let ghost prev = items_s(items@, j as int, last_file, *colors, uc);
        append(out, line.as_slice());
        assert(items_s(items@, j + 1, last_file, *colors, uc) == prev + line@);
        assert(out@ =~= base + (prev + line@));
        j = j + 1;
    }
}

fn file_line(file: &TreeFile, last: bool, colors: &ColorConfig, uc: bool, counts: bool) -> (r: Vec<char>)
    ensures
        r@ == file_line_s(*file, last, *colors, uc, counts),
{
    let mut line = paint(&branch_text(last), colors.service_root, uc);
    append(&mut line, paint(&chars_of(file.name.as_str()), colors.file, uc).as_slice());
    let ghost head = line@;
    if counts {
        append(&mut line, chars_of(" ").as_slice());
        append(&mut line, paint(&paren_text(file.count), colors.file, uc).as_slice());
    }
    let ghost mid = line@;
    append(&mut line, chars_of("\n").as_slice());
    assert(line@ =~= head + (mid.skip(head.len() as int)) + "\n"@);
    line
}

fn files_text(files: &Vec<TreeFile>, colors: &ColorConfig, uc: bool, counts: bool, out: &mut Vec<char>)
    ensures
        final(out)@ == old(out)@ + files_s(files@, files@.len() as int, *colors, uc, counts),
{
    let ghost base = out@;
    let mut i: usize = 0;
    while i < files.len()
        invariant
            i <= files.len(),
            out@ == base + files_s(files@, i as int, *colors, uc, counts),
        decreases files.len() - i,
    {
        let file = &files[i];
        let last = i + 1 == files.len();
        let ghost prev = files_s(files@, i as int, *colors, uc, counts);
        let line = file_line(file, last, colors, uc, counts);
        append(out, line.as_slice());
        let ghost mid = out@;
        items_text(&file.items, last, colors, uc, out);
        let ghost its = items_s(file.items@, file.items@.len() as int, last, *colors, uc);
        assert(files_s(files@, i + 1, *colors, uc, counts) == prev + line@ + its);
        assert(out@ =~= base + (prev + line@ + its));
        i = i + 1;
    }
}

fn service_line(s: &TreeService, colors: &ColorConfig, uc: bool) -> (r: Vec<char>)
    ensures
        r@ == service_line_s(*s, *colors, uc),
{
    let mut name = chars_of(s.name.as_str());
    name.push('/');
    assert(name@ =~= s.name@ + "/"@) by {
        reveal_strlit("/");
    }
    let mut line = paint(&name, colors.service_root, uc);
    append(&mut line, chars_of(" ").as_slice());
    append(&mut line, paint(&paren_text(s.count), colors.service_root, uc).as_slice());
    append(&mut line, chars_of("\n").as_slice());
    line
}

/// The tree text for `services`: each service line, its file lines (with
/// their counts when `show_file_counts` is set) and the items under each
/// file, with the last child of each node drawn with a corner.
pub fn render_tree(
    services: &Vec<TreeService>,
    colors: &ColorConfig,
    use_color: bool,
    show_file_counts: bool,
) -> (r: String)
    ensures
        r@ == tree_s(services@, services@.len() as int, *colors, use_color, show_file_counts),
{
    let mut out: Vec<char> = Vec::new();
    let mut i: usize = 0;
    while i < services.len()
        invariant
            i <= services.len(),
            out@ == tree_s(services@, i as int, *colors, use_color, show_file_counts),
        decreases services.len() - i,
    {
        let s = &services[i];
        let ghost prev = out@;
        let line = service_line(s, colors, use_color);
        append(&mut out, line.as_slice());
        files_text(&s.files, colors, use_color, show_file_counts, &mut out);
        let ghost fs = files_s(s.files@, s.files@.len() as int, *colors, use_color, show_file_counts);
        assert(tree_s(services@, i + 1, *colors, use_color, show_file_counts) == prev + line@ + fs);
        assert(out@ =~= prev + line@ + fs);
        i = i + 1;
    }
    string_of(&out)
}

/// The summary text after a tree: a blank line, then `message` in the
/// service color.
pub fn render_summary(message: &str, colors: &ColorConfig, use_color: bool) -> (r: String)
    ensures
        r@ == summary_s(message@, *colors, use_color),
{
    let mut out = chars_of("\n");
    append(&mut out, paint(&chars_of(message), colors.service_root, use_color).as_slice());
    append(&mut out, chars_of("\n").as_slice());
    string_of(&out)
}


// ---------------------------------------------------------------------------
// Grouping results into a tree
// ---------------------------------------------------------------------------

/// One result line to group: its service, its file, its label and color,
/// and whether it counts toward the service's total.
pub struct TreeEntry {
    pub service: String,
    pub file: String,
    pub label: String,
    pub color: AnsiColor,
    pub counted: bool,
}

/// The services of the entries, sorted.
pub open spec fn entry_services(es: Seq<TreeEntry>) -> Seq<Seq<char>> {
    sorted_list(es.map_values(|e: TreeEntry| e.service@).to_set())
}

/// The files of service `s`, sorted.
pub open spec fn entry_files(es: Seq<TreeEntry>, s: Seq<char>) -> Seq<Seq<char>> {
    sorted_list(es.filter(|e: TreeEntry| e.service@ == s).map_values(|e: TreeEntry| e.file@).to_set())
}

/// The items of file `f` of service `s`, in entry order.
pub open spec fn entry_items(es: Seq<TreeEntry>, s: Seq<char>, f: Seq<char>) -> Seq<(Seq<char>, AnsiColor)> {
    es.filter(|e: TreeEntry| e.service@ == s && e.file@ == f).map_values(|e: TreeEntry| (e.label@, e.color))
}

/// The number of counted entries of service `s`.
pub open spec fn entry_count(es: Seq<TreeEntry>, s: Seq<char>) -> nat {
    es.filter(|e: TreeEntry| e.service@ == s && e.counted).len()
}

/// The tree grouping `es`: services in name order, each with its files in
/// name order, each file with its entries in order and their number; a
/// service counts its files when `count_files` is set, else its counted
/// entries.
pub open spec fn grouped_ok(es: Seq<TreeEntry>, count_files: bool, ts: Seq<TreeService>) -> bool {
    let svcs = entry_services(es);
    &&& ts.len() == svcs.len()
    &&& forall|i: int|
        0 <= i < ts.len() ==> {
            let t = #[trigger] ts[i];
            let fs = entry_files(es, svcs[i]);
            &&& t.name@ == svcs[i]
            &&& t.count == if count_files { fs.len() } else { entry_count(es, svcs[i]) }
            &&& t.files@.len() == fs.len()
            &&& forall|j: int|
                0 <= j < fs.len() ==> {
                    let f = #[trigger] t.files@[j];
                    &&& f.name@ == fs[j]
                    &&& f.items@.map_values(|it: TreeItem| (it.label@, it.color)) == entry_items(es, svcs[i], fs[j])
                    &&& f.count == f.items@.len()
                }
        }
}

fn sorted_services(es: &Vec<TreeEntry>) -> (r: Vec<Vec<char>>)
    ensures
        r@.map_values(|x: Vec<char>| x@) == entry_services(es@),
{
    let ghost sv = es@.map_values(|e: TreeEntry| e.service@);
    let mut out: Vec<Vec<char>> = Vec::new();
    let mut i: usize = 0;
    assert(out@.map_values(|x: Vec<char>| x@).to_set() =~= sv.take(0).to_set());
    while i < es.len()
        invariant
            i <= es.len(),
            sv == es@.map_values(|e: TreeEntry| e.service@),
            strictly_sorted(out@.map_values(|x: Vec<char>| x@)),
            out@.map_values(|x: Vec<char>| x@).to_set() == sv.take(i as int).to_set(),
        decreases es.len() - i,
    {
        insert_sorted(&mut out, chars_of(es[i].service.as_str()));
        proof {
            assert(sv.take(i + 1) =~= sv.take(i as int).push(sv[i as int]));
            sv.take(i as int).lemma_push_to_set_commute(sv[i as int]);
        }
        i = i + 1;
    }
    assert(sv.take(es.len() as int) =~= sv);
    proof {
        lemma_sorted_list_is(out@.map_values(|x: Vec<char>| x@), sv.to_set());
    }
    out
}

fn sorted_files(es: &Vec<TreeEntry>, s: &Vec<char>) -> (r: Vec<Vec<char>>)
    ensures
        r@.map_values(|x: Vec<char>| x@) == entry_files(es@, s@),
{
    let ghost p = |e: TreeEntry| e.service@ == s@;
    let ghost m = |e: TreeEntry| e.file@;
    let mut out: Vec<Vec<char>> = Vec::new();
    let mut i: usize = 0;
    assert(out@.map_values(|x: Vec<char>| x@).to_set() =~= es@.take(0).filter(p).map_values(m).to_set());
    while i < es.len()
        invariant
            i <= es.len(),
            p == (|e: TreeEntry| e.service@ == s@),
            m == (|e: TreeEntry| e.file@),
            strictly_sorted(out@.map_values(|x: Vec<char>| x@)),
            out@.map_values(|x: Vec<char>| x@).to_set() == es@.take(i as int).filter(p).map_values(m).to_set(),
        decreases es.len() - i,
    {
        proof {
            crate::changes::lemma_filter_map_step(es@, i as int, p, m);
            es@.take(i as int).filter(p).map_values(m).lemma_push_to_set_commute(m(es@[i as int]));
        }
        if eq_chars(&chars_of(es[i].service.as_str()), s) {
            insert_sorted(&mut out, chars_of(es[i].file.as_str()));
            assert(es@.take(i as int).filter(p).map_values(m) + seq![m(es@[i as int])] =~= es@.take(i as int).filter(p).map_values(m).push(m(es@[i as int])));
        } else {
            assert(es@.take(i as int).filter(p).map_values(m) + seq![] =~= es@.take(i as int).filter(p).map_values(m));
        }
        i = i + 1;
    }
    assert(es@.take(es.len() as int) =~= es@);
    proof {
        lemma_sorted_list_is(out@.map_values(|x: Vec<char>| x@), es@.filter(p).map_values(m).to_set());
    }
    out
}

fn file_node(es: &Vec<TreeEntry>, s: &Vec<char>, f: &Vec<char>) -> (r: TreeFile)
    ensures
        r.name@ == f@,
        r.items@.map_values(|it: TreeItem| (it.label@, it.color)) == entry_items(es@, s@, f@),
        r.count == r.items@.len(),
{
    let ghost p = |e: TreeEntry| e.service@ == s@ && e.file@ == f@;
    let ghost m = |e: TreeEntry| (e.label@, e.color);
    let mut items: Vec<TreeItem> = Vec::new();
    let mut i: usize = 0;
    while i < es.len()
        invariant
            i <= es.len(),
            p == (|e: TreeEntry| e.service@ == s@ && e.file@ == f@),
            m == (|e: TreeEntry| (e.label@, e.color)),
            items@.map_values(|it: TreeItem| (it.label@, it.color)) == es@.take(i as int).filter(p).map_values(m),
        decreases es.len() - i,
    {
        proof {
            crate::changes::lemma_filter_map_step(es@, i as int, p, m);
        }
        let e = &es[i];
        if eq_chars(&chars_of(e.service.as_str()), s) && eq_chars(&chars_of(e.file.as_str()), f) {
            let ghost before = items@;
            items.push(TreeItem { label: e.label.clone(), color: e.color });
            assert(items@.map_values(|it: TreeItem| (it.label@, it.color)) =~= before.map_values(|it: TreeItem| (it.label@, it.color)).push(m(es@[i as int])));
        }
        i = i + 1;
    }
    assert(es@.take(es.len() as int) =~= es@);
    let n = items.len();
    TreeFile { name: string_of(f), count: n, items }
}

fn counted_in(es: &Vec<TreeEntry>, s: &Vec<char>) -> (r: usize)
    ensures
        r == entry_count(es@, s@),
{
    let ghost p = |e: TreeEntry| e.service@ == s@ && e.counted;
    let mut n: usize = 0;
    let mut i: usize = 0;
    while i < es.len()
        invariant
            i <= es.len(),
            p == (|e: TreeEntry| e.service@ == s@ && e.counted),
            n == es@.take(i as int).filter(p).len(),
            n <= i,
        decreases es.len() - i,
    {
        proof {
            assert(es@.take(i + 1) =~= es@.take(i as int).push(es@[i as int]));
            es@.take(i as int).lemma_filter_push(es@[i as int], p);
        }
        if es[i].counted && eq_chars(&chars_of(es[i].service.as_str()), s) {
            n = n + 1;
        }
        i = i + 1;
    }
    assert(es@.take(es.len() as int) =~= es@);
    n
}

/// Group result entries into the tree of services and files.
pub fn grouped_tree(es: &Vec<TreeEntry>, count_files: bool) -> (r: Vec<TreeService>)
    ensures
        grouped_ok(es@, count_files, r@),
{
    let svcs = sorted_services(es);
    let ghost sv = svcs@.map_values(|x: Vec<char>| x@);
    let mut out: Vec<TreeService> = Vec::new();
    let mut i: usize = 0;
    while i < svcs.len()
        invariant
            i <= svcs.len(),
            sv == svcs@.map_values(|x: Vec<char>| x@),
            sv == entry_services(es@),
            out@.len() == i,
            forall|k: int|
                0 <= k < i ==> {
                    let t = #[trigger] out@[k];
                    let fs = entry_files(es@, sv[k]);
                    &&& t.name@ == sv[k]
                    &&& t.count == if count_files { fs.len() } else { entry_count(es@, sv[k]) }
                    &&& t.files@.len() == fs.len()
                    &&& forall|j: int|
                        0 <= j < fs.len() ==> {
                            let f = #[trigger] t.files@[j];
                            &&& f.name@ == fs[j]
                            &&& f.items@.map_values(|it: TreeItem| (it.label@, it.color)) == entry_items(es@, sv[k], fs[j])
                            &&& f.count == f.items@.len()
                        }
                },
        decreases svcs.len() - i,
    {
        let s = &svcs[i];
        assert(sv[i as int] == s@);
        let files = sorted_files(es, s);
        let ghost fv = files@.map_values(|x: Vec<char>| x@);
        let mut nodes: Vec<TreeFile> = Vec::new();
        let mut j: usize = 0;
        while j < files.len()
            invariant
                j <= files.len(),
                fv == files@.map_values(|x: Vec<char>| x@),
                fv == entry_files(es@, s@),
                nodes@.len() == j,
                forall|q: int|
                    0 <= q < j ==> {
                        let f = #[trigger] nodes@[q];
                        &&& f.name@ == fv[q]
                        &&& f.items@.map_values(|it: TreeItem| (it.label@, it.color)) == entry_items(es@, s@, fv[q])
                        &&& f.count == f.items@.len()
                    },
            decreases files.len() - j,
        {
            assert(fv[j as int] == files@[j as int]@);
            nodes.push(file_node(es, s, &files[j]));
            j = j + 1;
        }
        let count = if count_files {
            files.len()
        } else {
            counted_in(es, s)
        };
        out.push(TreeService { name: string_of(s), count, files: nodes });
        i = i + 1;
    }
    out
}

/// A count followed by its noun, singular for one.
pub open spec fn counted_s(n: nat, one: Seq<char>, many: Seq<char>) -> Seq<char> {
    dec_s(n) + " "@ + if n == 1 { one } else { many }
}

/// The line printed when a scan ends: `Scanned F file(s) in D folder(s).`,
/// with ` for K key(s)` before the period when keys were counted.
pub open spec fn scan_summary_s(files: nat, dirs: nat, keys: Option<usize>) -> Seq<char> {
    "Scanned "@ + counted_s(files, "file"@, "files"@) + " in "@ + counted_s(dirs, "folder"@, "folders"@) + match keys {
        Some(k) => " for "@ + counted_s(k as nat, "key"@, "keys"@),
        None => seq![],
    } + "."@
}

fn counted(n: usize, one: &str, many: &str) -> (r: Vec<char>)
    ensures
        r@ == counted_s(n as nat, one@, many@),
{
    let mut out = decimal(n);
    out.push(' ');
    if n == 1 {
        append(&mut out, chars_of(one).as_slice());
    } else {
        append(&mut out, chars_of(many).as_slice());
    }
    proof {
        reveal_strlit(" ");
    }
    out
}

/// The summary line of a finished scan.
pub fn scan_summary(files: usize, dirs: usize, keys: Option<usize>) -> (r: String)
    ensures
        r@ == scan_summary_s(files as nat, dirs as nat, keys),
{
    let mut out = chars_of("Scanned ");
    append(&mut out, counted(files, "file", "files").as_slice());
    append(&mut out, chars_of(" in ").as_slice());
    append(&mut out, counted(dirs, "folder", "folders").as_slice());
    match keys {
        Some(k) => {
            append(&mut out, chars_of(" for ").as_slice());
            append(&mut out, counted(k, "key", "keys").as_slice());
        },
        None => {},
    }
    append(&mut out, chars_of(".").as_slice());
    string_of(&out)
}

} // verus!
