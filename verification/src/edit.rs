//! Building and previewing a set of file edits. Edits are full old/new file
//! contents, so they can be shown as a diff and confirmed before anything is
//! written (writing is the caller's part).

use std::path::PathBuf;

use vstd::prelude::*;

use crate::changes::{env_group, env_group_s, last_pos, strip_newlines};
use crate::color::{colorize_s, paint, ColorConfig};
use crate::model::{EnvFile, FileKind, Service};
use crate::order::{insert_sorted, lemma_sorted_list_is, sorted_list, strictly_sorted};
use crate::parser::{set_kind_s, set_value, strings_view};
use crate::text::{append, chars_of, eq_chars, string_of};

verus! {

/// A file an operation works on.
#[derive(Debug)]
pub struct Target {
    pub service: String,
    pub file: EnvFile,
}

/// The content of a target: service, kind, path, display path.
pub open spec fn target_view(t: Target) -> (Seq<char>, FileKind, PathBuf, Seq<char>) {
    (t.service@, t.file.kind, t.file.path, t.file.display@)
}

/// Whether a name passes a filter (an empty filter passes everything).
pub open spec fn in_filter<T>(x: T, filter: Seq<T>) -> bool {
    filter.len() == 0 || filter.contains(x)
}

/// The targets of the first `n` services.
pub open spec fn targets_s(services: Seq<Service>, sf: Seq<Seq<char>>, kf: Seq<FileKind>, n: int) -> Seq<(Seq<char>, FileKind, PathBuf, Seq<char>)>
    decreases n,
{
    if n <= 0 {
        seq![]
    } else {
        let s = services[n - 1];
        targets_s(services, sf, kf, n - 1) + if in_filter(s.name@, sf) {
            s.files@.filter(|f: EnvFile| in_filter(f.kind, kf)).map_values(
                |f: EnvFile| (s.name@, f.kind, f.path, f.display@),
            )
        } else {
            seq![]
        }
    }
}

fn kind_in(v: &Vec<FileKind>, k: FileKind) -> (r: bool)
    ensures
        r == v@.contains(k),
{
    let mut i: usize = 0;
    while i < v.len()
        invariant
            i <= v.len(),
            forall|j: int| 0 <= j < i ==> v@[j] != k,
        decreases v.len() - i,
    {
        if v[i] == k {
            assert(v@[i as int] == k);
            return true;
        }
        i = i + 1;
    }
    false
}

/// The files of `services` to work on, service by service and file by
/// file, keeping the services named in `service_filter` and the kinds in
/// `kind_filter`; an empty filter keeps everything.
pub fn collect_targets(services: &Vec<Service>, service_filter: &Vec<String>, kind_filter: &Vec<FileKind>) -> (r: Vec<Target>)
    ensures
        r@.map_values(|t: Target| target_view(t)) == targets_s(
            services@,
            strings_view(service_filter@),
            kind_filter@,
            services@.len() as int,
        ),
{
    let ghost sf = strings_view(service_filter@);
    let mut out: Vec<Target> = Vec::new();
    let mut i: usize = 0;
    while i < services.len()
        invariant
            i <= services.len(),
            sf == strings_view(service_filter@),
            out@.map_values(|t: Target| target_view(t)) == targets_s(services@, sf, kind_filter@, i as int),
        decreases services.len() - i,
    {
        let s = &services[i];
        let ghost base = out@.map_values(|t: Target| target_view(t));
        if service_filter.len() == 0 || crate::context::has_string(service_filter, s.name.as_str()) {
            let ghost p = |f: EnvFile| in_filter(f.kind, kind_filter@);
            let ghost m = |f: EnvFile| (s.name@, f.kind, f.path, f.display@);
            let mut j: usize = 0;
            while j < s.files.len()
                invariant
                    j <= s.files.len(),
                    p == (|f: EnvFile| in_filter(f.kind, kind_filter@)),
                    m == (|f: EnvFile| (s.name@, f.kind, f.path, f.display@)),
                    out@.map_values(|t: Target| target_view(t)) == base + s.files@.take(j as int).filter(p).map_values(m),
                decreases s.files.len() - j,
            {
                let f = &s.files[j];
                proof {
                    crate::changes::lemma_filter_map_step(s.files@, j as int, p, m);
                }
                if kind_filter.len() == 0 || kind_in(kind_filter, f.kind) {
                    let t = Target { service: s.name.clone(), file: f.duplicate() };
                    let ghost before = out@;
                    out.push(t);
                    assert(out@.map_values(|t: Target| target_view(t)) =~= before.map_values(|t: Target| target_view(t)).push(target_view(t)));
                }
                j = j + 1;
            }
            assert(s.files@.take(s.files@.len() as int) =~= s.files@);
        }
        i = i + 1;
    }
    out
}

/// A computed edit to one file: what it says now and what it will say.
#[derive(Debug)]
pub struct FileChange {
    pub service: String,
    pub display: String,
    pub path: PathBuf,
    pub kind: FileKind,
    /// The key being written.
    pub key: String,
    /// The value actually written.
    pub value: String,
    pub old_content: String,
    pub new_content: String,
}

/// Whether a change leaves its file as it was.
pub open spec fn noop_s(c: FileChange) -> bool {
    c.old_content@ == c.new_content@
}

impl FileChange {
    /// Whether this change leaves the file as it is.
    pub fn is_noop(&self) -> (r: bool)
        ensures
            r == noop_s(*self),
    {
        eq_chars(&chars_of(self.old_content.as_str()), &chars_of(self.new_content.as_str()))
    }
}

/// A collection of pending file changes.
#[derive(Debug)]
pub struct ChangeSet {
    pub changes: Vec<FileChange>,
}

/// The changes that modify their file, in order.
pub open spec fn effective_s(cs: Seq<FileChange>) -> Seq<FileChange> {
    cs.filter(|c: FileChange| !noop_s(c))
}

impl ChangeSet {
    /// An empty change set.
    pub fn new() -> (r: ChangeSet)
        ensures
            r.changes@.len() == 0,
    {
        ChangeSet { changes: Vec::new() }
    }

    /// A change set that sets `key` in each target: target `i` gets
    /// `values[i]`, applied to its current content `old_contents[i]` (the
    /// empty text for a missing file).
    pub fn build(targets: &Vec<Target>, key: &str, values: &Vec<String>, old_contents: &Vec<String>) -> (r: ChangeSet)
        requires
            values@.len() == targets@.len(),
            old_contents@.len() == targets@.len(),
        ensures
            r.changes@.len() == targets@.len(),
            forall|i: int|
                0 <= i < targets@.len() ==> {
                    let c = #[trigger] r.changes@[i];
                    let t = targets@[i];
                    &&& c.service@ == t.service@
                    &&& c.display@ == t.file.display@
                    &&& c.path == t.file.path
                    &&& c.kind == t.file.kind
                    &&& c.key@ == key@
                    &&& c.value@ == values@[i]@
                    &&& c.old_content@ == old_contents@[i]@
                    &&& c.new_content@ == set_kind_s(old_contents@[i]@, t.file.kind, key@, values@[i]@)
                },
    {
        let mut changes: Vec<FileChange> = Vec::new();
        let mut i: usize = 0;
        while i < targets.len()
            invariant
                i <= targets.len(),
                values@.len() == targets@.len(),
                old_contents@.len() == targets@.len(),
                changes@.len() == i,
                forall|j: int|
                    0 <= j < i ==> {
                        let c = #[trigger] changes@[j];
                        let t = targets@[j];
                        &&& c.service@ == t.service@
                        &&& c.display@ == t.file.display@
                        &&& c.path == t.file.path
                        &&& c.kind == t.file.kind
                        &&& c.key@ == key@
                        &&& c.value@ == values@[j]@
                        &&& c.old_content@ == old_contents@[j]@
                        &&& c.new_content@ == set_kind_s(old_contents@[j]@, t.file.kind, key@, values@[j]@)
                    },
            decreases targets.len() - i,
        {
            let t = &targets[i];
            let new_content = set_value(old_contents[i].as_str(), t.file.kind, key, values[i].as_str());
            changes.push(FileChange {
                service: t.service.clone(),
                display: t.file.display.clone(),
                path: t.file.path.clone(),
                kind: t.file.kind,
                key: key.to_owned(),
                value: values[i].clone(),
                old_content: old_contents[i].clone(),
                new_content,
            });
            i = i + 1;
        }
        ChangeSet { changes }
    }

    /// The changes that actually modify a file.
    pub fn effective(&self) -> (r: Vec<&FileChange>)
        ensures
            r@.map_values(|c: &FileChange| *c) == effective_s(self.changes@),
    {
        let ghost p = |c: FileChange| !noop_s(c);
        let mut out: Vec<&FileChange> = Vec::new();
        let mut i: usize = 0;
        while i < self.changes.len()
            invariant
                i <= self.changes.len(),
                p == (|c: FileChange| !noop_s(c)),
                out@.map_values(|c: &FileChange| *c) == self.changes@.take(i as int).filter(p),
            decreases self.changes.len() - i,
        {
            let c = &self.changes[i];
            proof {
                assert(self.changes@.take(i + 1) =~= self.changes@.take(i as int).push(self.changes@[i as int]));
                self.changes@.take(i as int).lemma_filter_push(self.changes@[i as int], p);
            }
            let ghost before = out@;
            if !c.is_noop() {
                out.push(c);
                assert(out@.map_values(|c: &FileChange| *c) =~= before.map_values(|c: &FileChange| *c).push(*c));
            }
            i = i + 1;
        }
        assert(self.changes@.take(self.changes@.len() as int) =~= self.changes@);
        out
    }

    /// Whether there is nothing to write.
    pub fn is_empty(&self) -> (r: bool)
        ensures
            r == (effective_s(self.changes@).len() == 0),
    {
        self.effective().len() == 0
    }
}


// ---------------------------------------------------------------------------
// The diff preview
// ---------------------------------------------------------------------------

/// What happened to a line between two texts.
#[derive(Debug, Clone, Copy, PartialEq, Eq, Structural)]
pub enum LineTag {
    Delete,
    Insert,
    Equal,
}

/// The line-by-line changes from `old` to `new` as `similar::TextDiff::
/// from_lines` computes them (Myers, no deadline): each line with its tag,
/// its text including the line ending.
pub uninterp spec fn text_diff(old: Seq<char>, new: Seq<char>) -> Seq<(LineTag, Seq<char>)>;

/// The view of diff lines.
pub open spec fn ops_view(v: Seq<(LineTag, String)>) -> Seq<(LineTag, Seq<char>)> {
    v.map_values(|o: (LineTag, String)| (o.0, o.1@))
}

/// `similar::TextDiff::from_lines(old, new).iter_all_changes()`, each change
/// as its tag and line text. Trusted: the crate's line diff of these two
/// texts, in its order.
#[verifier::external_body]
fn diff_lines(old: &str, new: &str) -> (r: Vec<(LineTag, String)>)
    ensures
        ops_view(r@) == text_diff(old@, new@),
{
    similar::TextDiff::from_lines(old, new).iter_all_changes().map(|c| (match c.tag() {
        similar::ChangeTag::Delete => LineTag::Delete,
        similar::ChangeTag::Insert => LineTag::Insert,
        similar::ChangeTag::Equal => LineTag::Equal,
    }, c.value().to_owned())).collect()
}

/// The concatenation of a list of texts.
pub open spec fn concat_s(parts: Seq<Seq<char>>) -> Seq<char>
    decreases parts.len(),
{
    if parts.len() == 0 {
        seq![]
    } else {
        concat_s(parts.drop_last()) + parts.last()
    }
}

proof fn lemma_concat_push(a: Seq<Seq<char>>, x: Seq<char>)
    ensures
        concat_s(a.push(x)) == concat_s(a) + x,
{
    assert(a.push(x).drop_last() =~= a);
}

proof fn lemma_concat_filter_step<A>(s: Seq<A>, i: int, p: spec_fn(A) -> bool, f: spec_fn(A) -> Seq<char>)
    requires
        0 <= i < s.len(),
    ensures
        concat_s(s.take(i + 1).filter(p).map_values(f)) == concat_s(s.take(i).filter(p).map_values(f))
            + if p(s[i]) {
            f(s[i])
        } else {
            seq![]
        },
{
    crate::changes::lemma_filter_map_step(s, i, p, f);
    if p(s[i]) {
        assert(s.take(i).filter(p).map_values(f) + seq![f(s[i])] =~= s.take(i).filter(p).map_values(f).push(f(s[i])));
        lemma_concat_push(s.take(i).filter(p).map_values(f), f(s[i]));
    } else {
        assert(s.take(i).filter(p).map_values(f) + seq![] =~= s.take(i).filter(p).map_values(f));
        assert(concat_s(s.take(i).filter(p).map_values(f)) + seq![] =~= concat_s(s.take(i).filter(p).map_values(f)));
    }
}

/// The file name: what follows the last `/`.
pub open spec fn name_of_s(d: Seq<char>) -> Seq<char> {
    let j = last_pos(d, '/', d.len() as int);
    if j < 0 {
        d
    } else {
        d.skip(j + 1)
    }
}

pub(crate) fn name_of(d: &Vec<char>) -> (r: Vec<char>)
    ensures
        r@ == name_of_s(d@),
{
    let mut n: usize = d.len();
    while n > 0
        invariant
            n <= d.len(),
            last_pos(d@, '/', d@.len() as int) == last_pos(d@, '/', n as int),
        decreases n,
    {
        if d[n - 1] == '/' {
            return crate::text::slice(d, n, d.len());
        }
        n = n - 1;
    }
    crate::text::slice(d, 0, d.len())
}

/// The preview line of one changed line: `-` or `+`, then the line without
/// its line endings, in the removed or added color; nothing for an
/// unchanged line.
pub open spec fn op_line_s(op: (LineTag, Seq<char>), ind: Seq<char>, colors: ColorConfig, uc: bool) -> Seq<char> {
    match op.0 {
        LineTag::Equal => seq![],
        LineTag::Delete => ind + "- "@ + colorize_s(strip_newlines(op.1), colors.removed, uc) + "\n"@,
        LineTag::Insert => ind + "+ "@ + colorize_s(strip_newlines(op.1), colors.added, uc) + "\n"@,
    }
}

/// The preview of one file: its name, then its changed lines.
pub open spec fn change_block_s(c: FileChange, top: bool, colors: ColorConfig, uc: bool) -> Seq<char> {
    let ind: Seq<char> = if top { "    "@ } else { "      "@ };
    (if top { "  "@ } else { "    "@ }) + colorize_s(name_of_s(c.display@), colors.file, uc) + "\n"@ + concat_s(
        text_diff(c.old_content@, c.new_content@).map_values(
            |op: (LineTag, Seq<char>)| op_line_s(op, ind, colors, uc),
        ),
    )
}

/// The changes of service `svc` in folder `f`.
pub open spec fn in_folder(c: FileChange, svc: Seq<char>, f: Seq<char>) -> bool {
    c.service@ == svc && env_group_s(c.display@) == f
}

/// The preview of one folder of a service: its heading (unless it is the
/// service root), then its files.
pub open spec fn folder_block_s(eff: Seq<FileChange>, svc: Seq<char>, f: Seq<char>, colors: ColorConfig, uc: bool) -> Seq<char> {
    (if f.len() > 0 {
        "  "@ + colorize_s(f + "/"@, colors.subfolder, uc) + "\n"@
    } else {
        seq![]
    }) + concat_s(
        eff.filter(|c: FileChange| in_folder(c, svc, f)).map_values(
            |c: FileChange| change_block_s(c, f.len() == 0, colors, uc),
        ),
    )
}

/// The folders holding changes of service `svc`.
pub open spec fn folders_s(eff: Seq<FileChange>, svc: Seq<char>) -> Set<Seq<char>> {
    eff.filter(|c: FileChange| c.service@ == svc).map_values(|c: FileChange| env_group_s(c.display@)).to_set()
}

/// The preview of one service: its heading, then its folders in order.
pub open spec fn service_block_s(eff: Seq<FileChange>, svc: Seq<char>, colors: ColorConfig, uc: bool) -> Seq<char> {
    colorize_s(svc + "/"@, colors.service_root, uc) + "\n"@ + concat_s(
        sorted_list(folders_s(eff, svc)).map_values(
            |f: Seq<char>| folder_block_s(eff, svc, f, colors, uc),
        ),
    )
}

/// The preview of a change set: the effective changes grouped by service
/// (in name order) and folder (in name order), each file with its removed
/// (`-`) and added (`+`) lines.
pub open spec fn render_diff_s(cs: Seq<FileChange>, colors: ColorConfig, uc: bool) -> Seq<char> {
    let eff = effective_s(cs);
    concat_s(
        sorted_list(eff.map_values(|c: FileChange| c.service@).to_set()).map_values(
            |s: Seq<char>| service_block_s(eff, s, colors, uc),
        ),
    )
}

fn strip_nl(v: &Vec<char>) -> (r: Vec<char>)
    ensures
        r@ == strip_newlines(v@),
{
    let mut out = crate::text::slice(v, 0, v.len());
    assert(out@ =~= v@);
    while out.len() > 0 && out[out.len() - 1] == '\n'
        invariant
            strip_newlines(v@) == strip_newlines(out@),
        decreases out.len(),
    {
        let ghost before = out@;
        out.pop();
        assert(out@ =~= before.drop_last());
    }
    out
}

fn change_block(c: &FileChange, top: bool, colors: &ColorConfig, uc: bool) -> (r: Vec<char>)
    ensures
        r@ == change_block_s(*c, top, *colors, uc),
{
    let ind = if top {
        chars_of("    ")
    } else {
        chars_of("      ")
    };
    let mut out = if top {
        chars_of("  ")
    } else {
        chars_of("    ")
    };
    append(&mut out, paint(&name_of(&chars_of(c.display.as_str())), colors.file, uc).as_slice());
    append(&mut out, chars_of("\n").as_slice());
    let head = out;
    let ops = diff_lines(c.old_content.as_str(), c.new_content.as_str());
    let ghost ov = ops_view(ops@);
    let ghost g = |op: (LineTag, Seq<char>)| op_line_s(op, ind@, *colors, uc);
    let mut body: Vec<char> = Vec::new();
    let mut i: usize = 0;
    assert(ov.take(0).map_values(g) =~= seq![]);
    while i < ops.len()
        invariant
            i <= ops.len(),
            ov == ops_view(ops@),
            g == (|op: (LineTag, Seq<char>)| op_line_s(op, ind@, *colors, uc)),
            body@ == concat_s(ov.take(i as int).map_values(g)),
        decreases ops.len() - i,
    {
        proof {
            assert(ov.take(i + 1).map_values(g) =~= ov.take(i as int).map_values(g).push(g(ov[i as int])));
            lemma_concat_push(ov.take(i as int).map_values(g), g(ov[i as int]));
        }
        let op = &ops[i];
        let ghost before = body@;
        match op.0 {
            LineTag::Equal => {},
            LineTag::Delete => {
                append(&mut body, ind.as_slice());
                append(&mut body, chars_of("- ").as_slice());
                append(&mut body, paint(&strip_nl(&chars_of(op.1.as_str())), colors.removed, uc).as_slice());
                append(&mut body, chars_of("\n").as_slice());
            },
            LineTag::Insert => {
                append(&mut body, ind.as_slice());
                append(&mut body, chars_of("+ ").as_slice());
                append(&mut body, paint(&strip_nl(&chars_of(op.1.as_str())), colors.added, uc).as_slice());
                append(&mut body, chars_of("\n").as_slice());
            },
        }
        assert(body@ =~= before + g(ov[i as int]));
        i = i + 1;
    }
    assert(ov.take(ov.len() as int) =~= ov);
    let mut out = head;
    append(&mut out, body.as_slice());
    out
}

impl ChangeSet {
    /// The colored preview of all effective changes, grouped by service and
    /// folder.
    pub fn render_diff(&self, colors: &ColorConfig, use_color: bool) -> (r: String)
        ensures
            r@ == render_diff_s(self.changes@, *colors, use_color),
    {
        let eff = self.effective();
        let ghost ev = effective_s(self.changes@);
        assert(eff@.map_values(|c: &FileChange| *c) == ev);
        let ghost sv = ev.map_values(|c: FileChange| c.service@);
        // Services, sorted.
        let mut svcs: Vec<Vec<char>> = Vec::new();
        let mut i: usize = 0;
        assert(svcs@.map_values(|x: Vec<char>| x@).to_set() =~= sv.take(0).to_set());
        while i < eff.len()
            invariant
                i <= eff.len(),
                eff@.map_values(|c: &FileChange| *c) == ev,
                sv == ev.map_values(|c: FileChange| c.service@),
                strictly_sorted(svcs@.map_values(|x: Vec<char>| x@)),
                svcs@.map_values(|x: Vec<char>| x@).to_set() == sv.take(i as int).to_set(),
            decreases eff.len() - i,
        {
            assert(ev[i as int] == *eff@[i as int]);
            insert_sorted(&mut svcs, chars_of(eff[i].service.as_str()));
            proof {
                assert(sv.take(i + 1) =~= sv.take(i as int).push(sv[i as int]));
                sv.take(i as int).lemma_push_to_set_commute(sv[i as int]);
            }
            i = i + 1;
        }
        assert(sv.take(eff.len() as int) =~= sv);
        proof {
            lemma_sorted_list_is(svcs@.map_values(|x: Vec<char>| x@), sv.to_set());
        }
        let ghost svl = svcs@.map_values(|x: Vec<char>| x@);
        let ghost sb = |s: Seq<char>| service_block_s(ev, s, *colors, use_color);
        let mut out: Vec<char> = Vec::new();
        let mut k: usize = 0;
        while k < svcs.len()
            invariant
                k <= svcs.len(),
                eff@.map_values(|c: &FileChange| *c) == ev,
                svl == svcs@.map_values(|x: Vec<char>| x@),
                sb == (|s: Seq<char>| service_block_s(ev, s, *colors, use_color)),
                out@ == concat_s(svl.take(k as int).map_values(sb)),
            decreases svcs.len() - k,
        {
            let block = self.service_block(&eff, &svcs[k], colors, use_color);
            let ghost before = out@;
            append(&mut out, block.as_slice());
            proof {
                assert(svl.take(k + 1).map_values(sb) =~= svl.take(k as int).map_values(sb).push(sb(svl[k as int])));
                lemma_concat_push(svl.take(k as int).map_values(sb), sb(svl[k as int]));
            }
            k = k + 1;
        }
        assert(svl.take(svcs.len() as int) =~= svl);
        string_of(&out)
    }

    fn service_block(&self, eff: &Vec<&FileChange>, svc: &Vec<char>, colors: &ColorConfig, uc: bool) -> (r: Vec<char>)
        ensures
            r@ == service_block_s(eff@.map_values(|c: &FileChange| *c), svc@, *colors, uc),
    {
        let ghost ev = eff@.map_values(|c: &FileChange| *c);
        let mut head = svc.clone();
        head.push('/');
        assert(head@ =~= svc@ + "/"@) by {
            reveal_strlit("/");
        }
        let mut out = paint(&head, colors.service_root, uc);
        append(&mut out, chars_of("\n").as_slice());
        // Folders of this service, sorted.
        let ghost ps = |c: FileChange| c.service@ == svc@;
        let ghost mf = |c: FileChange| env_group_s(c.display@);
        let mut folders: Vec<Vec<char>> = Vec::new();
        let mut i: usize = 0;
        assert(folders@.map_values(|x: Vec<char>| x@).to_set() =~= ev.take(0).filter(ps).map_values(mf).to_set());
        while i < eff.len()
            invariant
                i <= eff.len(),
                ev == eff@.map_values(|c: &FileChange| *c),
                ps == (|c: FileChange| c.service@ == svc@),
                mf == (|c: FileChange| env_group_s(c.display@)),
                strictly_sorted(folders@.map_values(|x: Vec<char>| x@)),
                folders@.map_values(|x: Vec<char>| x@).to_set() == ev.take(i as int).filter(ps).map_values(mf).to_set(),
            decreases eff.len() - i,
        {
            let c = eff[i];
            assert(ev[i as int] == *c);
            proof {
                crate::changes::lemma_filter_map_step(ev, i as int, ps, mf);
                ev.take(i as int).filter(ps).map_values(mf).lemma_push_to_set_commute(mf(ev[i as int]));
            }
            if eq_chars(&chars_of(c.service.as_str()), svc) {
                insert_sorted(&mut folders, chars_of(env_group(c.display.as_str()).as_str()));
                assert(ev.take(i as int).filter(ps).map_values(mf) + seq![mf(ev[i as int])] =~= ev.take(i as int).filter(ps).map_values(mf).push(mf(ev[i as int])));
            } else {
                assert(ev.take(i as int).filter(ps).map_values(mf) + seq![] =~= ev.take(i as int).filter(ps).map_values(mf));
            }
            i = i + 1;
        }
        assert(ev.take(eff.len() as int) =~= ev);
        proof {
            lemma_sorted_list_is(folders@.map_values(|x: Vec<char>| x@), folders_s(ev, svc@));
        }
        let ghost fl = folders@.map_values(|x: Vec<char>| x@);
        let ghost fb = |f: Seq<char>| folder_block_s(ev, svc@, f, *colors, uc);
        let ghost base = out@;
        let mut k: usize = 0;
        while k < folders.len()
            invariant
                k <= folders.len(),
                ev == eff@.map_values(|c: &FileChange| *c),
                fl == folders@.map_values(|x: Vec<char>| x@),
                fb == (|f: Seq<char>| folder_block_s(ev, svc@, f, *colors, uc)),
                out@ == base + concat_s(fl.take(k as int).map_values(fb)),
            decreases folders.len() - k,
        {
            let block = folder_block(eff, svc, &folders[k], colors, uc);
            append(&mut out, block.as_slice());
            proof {
                assert(fl.take(k + 1).map_values(fb) =~= fl.take(k as int).map_values(fb).push(fb(fl[k as int])));
                lemma_concat_push(fl.take(k as int).map_values(fb), fb(fl[k as int]));
            }
            k = k + 1;
        }
        assert(fl.take(folders.len() as int) =~= fl);
        out
    }
}

fn folder_block(eff: &Vec<&FileChange>, svc: &Vec<char>, f: &Vec<char>, colors: &ColorConfig, uc: bool) -> (r: Vec<char>)
    ensures
        r@ == folder_block_s(eff@.map_values(|c: &FileChange| *c), svc@, f@, *colors, uc),
{
    let ghost ev = eff@.map_values(|c: &FileChange| *c);
    let mut out: Vec<char> = Vec::new();
    if f.len() > 0 {
        let mut h = f.clone();
        h.push('/');
        assert(h@ =~= f@ + "/"@) by {
            reveal_strlit("/");
        }
        append(&mut out, chars_of("  ").as_slice());
        append(&mut out, paint(&h, colors.subfolder, uc).as_slice());
        append(&mut out, chars_of("\n").as_slice());
    }
    let ghost base = out@;
    let top = f.len() == 0;
    let ghost p = |c: FileChange| in_folder(c, svc@, f@);
    let ghost g = |c: FileChange| change_block_s(c, f@.len() == 0, *colors, uc);
    let mut i: usize = 0;
    assert(ev.take(0).filter(p).map_values(g) =~= seq![]);
    while i < eff.len()
        invariant
            i <= eff.len(),
            ev == eff@.map_values(|c: &FileChange| *c),
            top == (f@.len() == 0),
            p == (|c: FileChange| in_folder(c, svc@, f@)),
            g == (|c: FileChange| change_block_s(c, f@.len() == 0, *colors, uc)),
            out@ == base + concat_s(ev.take(i as int).filter(p).map_values(g)),
        decreases eff.len() - i,
    {
        let c = eff[i];
        assert(ev[i as int] == *c);
        proof {
            lemma_concat_filter_step(ev, i as int, p, g);
        }
        if eq_chars(&chars_of(c.service.as_str()), svc) && eq_chars(&chars_of(env_group(c.display.as_str()).as_str()), f) {
            let block = change_block(c, top, colors, uc);
            append(&mut out, block.as_slice());
        }
        i = i + 1;
    }
    assert(ev.take(eff.len() as int) =~= ev);
    out
}

} // verus!
