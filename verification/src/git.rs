//! Paths inside a git repository.
//!
//! A path is taken as the list of its components, as `Path::components`
//! yields them; the repository-relative path of a file is what follows the
//! repository root's components, its names joined with `/`.

use vstd::prelude::*;

use crate::text::{chars_of, eq_str, join_s, lemma_join_push, string_of};

verus! {

/// One component of a path.
#[derive(Debug, Clone, PartialEq, Eq)]
pub enum PathPart {
    /// A Windows prefix such as `C:`, by its text.
    Prefix(String),
    /// The root directory.
    RootDir,
    /// `.`
    CurDir,
    /// `..`
    ParentDir,
    /// A plain name.
    Normal(String),
}

impl View for PathPart {
    /// The kind of component (0 prefix, 1 root, 2 `.`, 3 `..`, 4 name) and
    /// its text.
    type V = (int, Seq<char>);

    open spec fn view(&self) -> (int, Seq<char>) {
        match self {
            PathPart::Prefix(s) => (0, s@),
            PathPart::RootDir => (1, seq![]),
            PathPart::CurDir => (2, seq![]),
            PathPart::ParentDir => (3, seq![]),
            PathPart::Normal(s) => (4, s@),
        }
    }
}

/// The components of a path, each by its view.
pub open spec fn parts_view(v: Seq<PathPart>) -> Seq<(int, Seq<char>)> {
    v.map_values(|p: PathPart| p@)
}

/// The texts of the plain names among the components, in order.
pub open spec fn names_s(parts: Seq<(int, Seq<char>)>) -> Seq<Seq<char>>
    decreases parts.len(),
{
    if parts.len() == 0 {
        seq![]
    } else {
        let rest = names_s(parts.drop_last());
        if parts.last().0 == 4 {
            rest.push(parts.last().1)
        } else {
            rest
        }
    }
}

/// The forward-slash path made of the plain names among the components.
pub open spec fn slash_path_s(parts: Seq<(int, Seq<char>)>) -> Seq<char> {
    join_s(names_s(parts), "/"@)
}

/// Whether the components `base` begin the components `path`, whole
/// component by whole component.
pub open spec fn parts_prefix(base: Seq<(int, Seq<char>)>, path: Seq<(int, Seq<char>)>) -> bool {
    base.len() <= path.len() && path.take(base.len() as int) == base
}

/// Why a path has no place relative to the repository.
#[derive(Debug, Clone, Copy, PartialEq, Eq, Structural)]
pub enum RepoPathError {
    /// The file is not inside the git repository.
    OutsideRepo,
}

/// Whether two components are the same.
fn same_part(a: &PathPart, b: &PathPart) -> (r: bool)
    ensures
        r == (a@ == b@),
{
    match (a, b) {
        (PathPart::Prefix(x), PathPart::Prefix(y)) => eq_str(x.as_str(), y.as_str()),
        (PathPart::RootDir, PathPart::RootDir) => true,
        (PathPart::CurDir, PathPart::CurDir) => true,
        (PathPart::ParentDir, PathPart::ParentDir) => true,
        (PathPart::Normal(x), PathPart::Normal(y)) => eq_str(x.as_str(), y.as_str()),
        _ => false,
    }
}

/// Join the plain names among `parts[from..]` with `/`, skipping the other
/// components (`.`, `..`, roots and prefixes).
pub fn slash_path(parts: &Vec<PathPart>, from: usize) -> (r: String)
    requires
        from <= parts.len(),
    ensures
        r@ == slash_path_s(parts_view(parts@).skip(from as int)),
{
    let ghost pv = parts_view(parts@);
    let mut out: Vec<char> = Vec::new();
    let mut k: usize = from;
    let mut any = false;
    while k < parts.len()
        invariant
            from <= k <= parts.len(),
            pv == parts_view(parts@),
            out@ == slash_path_s(pv.subrange(from as int, k as int)),
            any == (names_s(pv.subrange(from as int, k as int)).len() > 0),
        decreases parts.len() - k,
    {
        let ghost before = pv.subrange(from as int, k as int);
        assert(pv.subrange(from as int, k + 1).drop_last() =~= before);
        assert(pv.subrange(from as int, k + 1).last() == parts@[k as int]@);
        match &parts[k] {
            PathPart::Normal(p) => {
                proof {
                    lemma_join_push(names_s(before), "/"@, p@);
                }
                if any {
                    crate::text::append(&mut out, chars_of("/").as_slice());
                }
                crate::text::append(&mut out, chars_of(p.as_str()).as_slice());
                any = true;
            },
            _ => {},
        }
        k = k + 1;
    }
    assert(pv.subrange(from as int, parts@.len() as int) =~= pv.skip(from as int));
    string_of(&out)
}

/// The forward-slash path of the file with components `abs` relative to
/// the repository root with components `repo`, as `git show
/// <branch>:<path>` expects it; an error when the root's components do not
/// begin the file's.
pub fn rel_to_repo(repo: &Vec<PathPart>, abs: &Vec<PathPart>) -> (r: Result<String, RepoPathError>)
    ensures
        parts_prefix(parts_view(repo@), parts_view(abs@)) ==> (r matches Ok(s) && s@ == slash_path_s(
            parts_view(abs@).skip(repo@.len() as int),
        )),
        !parts_prefix(parts_view(repo@), parts_view(abs@)) ==> r == Err::<String, RepoPathError>(
            RepoPathError::OutsideRepo,
        ),
{
    let ghost rv = parts_view(repo@);
    let ghost av = parts_view(abs@);
    if repo.len() > abs.len() {
        return Err(RepoPathError::OutsideRepo);
    }
    let mut i: usize = 0;
    while i < repo.len()
        invariant
            i <= repo.len() <= abs.len(),
            rv == parts_view(repo@),
            av == parts_view(abs@),
            av.take(i as int) == rv.take(i as int),
        decreases repo.len() - i,
    {
        if !same_part(&repo[i], &abs[i]) {
            assert(av.take(rv.len() as int)[i as int] != rv[i as int]);
            return Err(RepoPathError::OutsideRepo);
        }
        assert(av.take(i + 1) =~= av.take(i as int).push(av[i as int]));
        assert(rv.take(i + 1) =~= rv.take(i as int).push(rv[i as int]));
        i = i + 1;
    }
    assert(rv.take(rv.len() as int) =~= rv);
    Ok(slash_path(abs, repo.len()))
}

} // verus!
