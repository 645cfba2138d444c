use std::path::PathBuf;

use nv::edit::{ChangeSet, Target};
use nv::model::{EnvFile, FileKind};

fn target(display: &str, kind: FileKind) -> Target {
    Target {
        service: "svc".to_string(),
        file: EnvFile { kind, path: PathBuf::from("/tmp/svc").join(display), display: display.to_string() },
    }
}

fn strings(v: &[&str]) -> Vec<String> {
    v.iter().map(|s| s.to_string()).collect()
}

#[test]
fn builds_and_applies_same_value_across_files() {
    let targets = vec![target(".env", FileKind::Dotenv), target("configmap.yml", FileKind::ConfigMap)];
    let olds = strings(&["KEY=old\n", "data:\n  KEY: old\n"]);
    let cs = ChangeSet::build(&targets, "KEY", &strings(&["shared", "shared"]), &olds);
    assert_eq!(cs.effective().len(), 2);
    assert_eq!(cs.changes[0].new_content, "KEY=shared\n");
    assert_eq!(cs.changes[1].new_content, "data:\n  KEY: shared\n");
}

#[test]
fn example_files_can_receive_empty_value() {
    let targets = vec![target(".env", FileKind::Dotenv), target(".env.example", FileKind::DotenvExample)];
    let olds = strings(&["TOKEN=\n", "TOKEN=\n"]);
    let cs = ChangeSet::build(&targets, "TOKEN", &strings(&["secret123", ""]), &olds);
    assert_eq!(cs.changes[0].new_content, "TOKEN=secret123\n");
    assert_eq!(cs.changes[1].new_content, "TOKEN=\n");
    assert_eq!(cs.effective().len(), 1);
}

#[test]
fn creates_missing_file() {
    let targets = vec![target(".env", FileKind::Dotenv)];
    let cs = ChangeSet::build(&targets, "NEW", &strings(&["v"]), &strings(&[""]));
    assert_eq!(cs.changes[0].new_content, "NEW=v\n");
    assert!(!cs.is_empty());
}
