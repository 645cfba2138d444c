use nv::git::{rel_to_repo, slash_path, PathPart, RepoPathError};

fn parts(path: &str) -> Vec<PathPart> {
    let mut out = Vec::new();
    if path.starts_with('/') {
        out.push(PathPart::RootDir);
    }
    for name in path.split('/').filter(|n| !n.is_empty()) {
        out.push(match name {
            "." => PathPart::CurDir,
            ".." => PathPart::ParentDir,
            _ => PathPart::Normal(name.to_string()),
        });
    }
    out
}

#[test]
fn rel_to_repo_strips_repo_root() {
    let repo = parts("/work/repo");
    let abs = parts("/work/repo/deploy/secrets.yml");
    assert_eq!(rel_to_repo(&repo, &abs).unwrap(), "deploy/secrets.yml");
}

#[test]
fn path_outside_the_repository_is_refused() {
    assert_eq!(rel_to_repo(&parts("/r"), &parts("/x/a.yml")), Err(RepoPathError::OutsideRepo));
    assert_eq!(rel_to_repo(&parts("/work/repo"), &parts("/work/rep")), Err(RepoPathError::OutsideRepo));
    assert_eq!(rel_to_repo(&parts("/work/repo"), &parts("/work/repository/a")), Err(RepoPathError::OutsideRepo));
}

#[test]
fn file_at_the_repository_root_is_the_empty_path() {
    assert_eq!(rel_to_repo(&parts("/r"), &parts("/r")).unwrap(), "");
}

#[test]
fn slash_path_skips_components_that_are_not_names() {
    let ps = vec![PathPart::CurDir, PathPart::Normal("deploy".to_string()), PathPart::ParentDir, PathPart::Normal("a.yml".to_string())];
    assert_eq!(slash_path(&ps, 0), "deploy/a.yml");
    assert_eq!(slash_path(&ps, 2), "a.yml");
    assert_eq!(slash_path(&Vec::new(), 0), "");
}
