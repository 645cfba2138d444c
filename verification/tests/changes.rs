use nv::changes::{
    branch_diff, build_report, env_group, has_real_value, render_markdown, ChangeKind, FileInput,
    FileReport, Item,
};
use nv::model::FileKind;
use nv::parser::ParsedPair;

fn pair(key: &str, value: &str) -> ParsedPair {
    ParsedPair { key: key.into(), value: value.into() }
}

fn input(kind: FileKind, display: &str, from: &str, to: &str) -> FileInput {
    FileInput {
        kind,
        display: display.into(),
        from_content: from.into(),
        to_content: to.into(),
    }
}

fn item(kind: FileKind, change: ChangeKind, key: &str) -> Item {
    Item { kind, change, key: key.into(), value: None, old_value: None, note: String::new() }
}

#[test]
fn branch_diff_configmap_created_updated_deleted() {
    let from = vec![pair("B", "2"), pair("A", "1"), pair("C", "3")];
    let to = vec![pair("B", "2"), pair("A", "9"), pair("D", "4")];
    let items = branch_diff(&from, &to, FileKind::ConfigMap);
    let kinds: Vec<ChangeKind> = items.iter().map(|i| i.change).collect();
    assert_eq!(kinds, vec![ChangeKind::Created, ChangeKind::Updated, ChangeKind::Deleted]);
    let created = items.iter().find(|i| i.change == ChangeKind::Created).unwrap();
    assert_eq!(created.key, "C");
    assert_eq!(created.value.as_deref(), Some("3"));
    let updated = items.iter().find(|i| i.change == ChangeKind::Updated).unwrap();
    assert_eq!(updated.key, "A");
    assert_eq!(updated.old_value.as_deref(), Some("9"));
    assert_eq!(updated.value.as_deref(), Some("1"));
    let deleted = items.iter().find(|i| i.change == ChangeKind::Deleted).unwrap();
    assert_eq!(deleted.key, "D");
    assert_eq!(deleted.value, None);
}

#[test]
fn branch_diff_secrets_redacts_values_and_no_updated() {
    let from = vec![pair("A", "v1"), pair("B", "x")];
    let to = vec![pair("A", "v2"), pair("C", "y")];
    let items = branch_diff(&from, &to, FileKind::Secret);
    assert!(
        !items.iter().any(|i| i.change == ChangeKind::Updated),
        "secrets must not produce Updated items"
    );
    let created = items.iter().find(|i| i.change == ChangeKind::Created).unwrap();
    assert_eq!(created.key, "B");
    assert_eq!(created.value, None, "secret values are redacted");
    let deleted = items.iter().find(|i| i.change == ChangeKind::Deleted).unwrap();
    assert_eq!(deleted.key, "C");
}

#[test]
fn build_report_annotates_moves_between_kinds() {
    let inputs = vec![
        input(
            FileKind::ConfigMap,
            "configmap.yml",
            "moved_from_secrets: newval\nupdated_cm: new\ncreated_cm: value\n",
            "moved_from_configmap: plainvalue\nupdated_cm: old\ngone_cm: x\n",
        ),
        input(
            FileKind::Secret,
            "secrets.yml",
            "moved_from_configmap: secretval\ncreated_s: s\n",
            "moved_from_secrets: old\ngone_s: g\n",
        ),
    ];
    let files = build_report(&inputs);

    let cm = &files[0];
    let moved_to_cm = cm
        .items
        .iter()
        .find(|i| i.key == "moved_from_secrets" && i.change == ChangeKind::Created)
        .unwrap();
    assert_eq!(moved_to_cm.note, "(from secret)");
    assert_eq!(moved_to_cm.value.as_deref(), Some("newval"));

    let plain = cm.items.iter().find(|i| i.key == "created_cm").unwrap();
    assert_eq!(plain.note, "", "unrelated keys get no annotation");

    let sec = &files[1];
    let moved_to_secrets = sec
        .items
        .iter()
        .find(|i| i.key == "moved_from_configmap" && i.change == ChangeKind::Created)
        .unwrap();
    assert_eq!(moved_to_secrets.note, "(from configmap)");
    assert_eq!(
        moved_to_secrets.value.as_deref(),
        Some("plainvalue"),
        "plain text value comes from the --to branch configmap"
    );

    let redacted = sec.items.iter().find(|i| i.key == "created_s").unwrap();
    assert_eq!(redacted.value, None);
    assert_eq!(redacted.note, "");
}

#[test]
fn build_report_skips_placeholder_configmap_moves() {
    let inputs = vec![
        input(
            FileKind::ConfigMap,
            "configmap.yml",
            "other_cm: new\n",
            "PLACEHOLDER_MOVED: xxxxxxxxxxxxxxxxx\nREAL_MOVED: realvalue\nother_cm: old\n",
        ),
        input(
            FileKind::Secret,
            "secrets.yml",
            "PLACEHOLDER_MOVED: placeholder-secret\nREAL_MOVED: real-secret\n",
            "other_s: g\n",
        ),
    ];
    let files = build_report(&inputs);
    let sec = &files[1];

    let placeholder = sec
        .items
        .iter()
        .find(|i| i.key == "PLACEHOLDER_MOVED" && i.change == ChangeKind::Created)
        .unwrap();
    assert_eq!(placeholder.note, "", "placeholder has no real value to show");
    assert_eq!(placeholder.value, None);

    let real = sec
        .items
        .iter()
        .find(|i| i.key == "REAL_MOVED" && i.change == ChangeKind::Created)
        .unwrap();
    assert_eq!(real.note, "(from configmap)");
    assert_eq!(real.value.as_deref(), Some("realvalue"));
}

#[test]
fn build_report_lists_unchanged_value_move_from_secrets() {
    let inputs = vec![
        input(
            FileKind::ConfigMap,
            "configmap.yml",
            "MOVED_IN: same\nKEPT: same\n",
            "MOVED_IN: same\nKEPT: same\n",
        ),
        input(FileKind::Secret, "secrets.yml", "KEPT: s\n", "MOVED_IN: old\nKEPT: s\n"),
    ];
    let files = build_report(&inputs);
    let cm = &files[0];
    let moved = cm.items.iter().find(|i| i.key == "MOVED_IN").unwrap();
    assert_eq!(moved.change, ChangeKind::Updated);
    assert_eq!(moved.note, "(from secret)");
    assert_eq!(moved.value.as_deref(), Some("same"));
    assert_eq!(moved.old_value, None);
    assert!(
        !cm.items.iter().any(|i| i.key == "KEPT"),
        "an unchanged, never-moved key stays omitted"
    );
}

#[test]
fn markdown_matches_spec_layout() {
    let files = vec![
        FileReport {
            display: "configmap.yml".into(),
            kind: FileKind::ConfigMap,
            items: vec![
                Item {
                    kind: FileKind::ConfigMap,
                    change: ChangeKind::Created,
                    key: "key".into(),
                    value: Some("value".into()),
                    old_value: None,
                    note: String::new(),
                },
                Item {
                    kind: FileKind::ConfigMap,
                    change: ChangeKind::Created,
                    key: "key2".into(),
                    value: Some("value2".into()),
                    old_value: None,
                    note: "(from secret)".into(),
                },
                Item {
                    kind: FileKind::ConfigMap,
                    change: ChangeKind::Updated,
                    key: "key".into(),
                    value: Some("value".into()),
                    old_value: Some("oldvalue".into()),
                    note: String::new(),
                },
                Item {
                    kind: FileKind::ConfigMap,
                    change: ChangeKind::Deleted,
                    key: "Key".into(),
                    value: None,
                    old_value: None,
                    note: String::new(),
                },
            ],
        },
        FileReport {
            display: "secrets.yml".into(),
            kind: FileKind::Secret,
            items: vec![
                Item {
                    kind: FileKind::Secret,
                    change: ChangeKind::Created,
                    key: "key".into(),
                    value: None,
                    old_value: None,
                    note: String::new(),
                },
                Item {
                    kind: FileKind::Secret,
                    change: ChangeKind::Created,
                    key: "key2".into(),
                    value: Some("value2".into()),
                    old_value: None,
                    note: "(from configmap)".into(),
                },
                Item {
                    kind: FileKind::Secret,
                    change: ChangeKind::Deleted,
                    key: "Key".into(),
                    value: None,
                    old_value: None,
                    note: String::new(),
                },
            ],
        },
    ];
    let expected = "\
# Comparing branches: dev → master

## dev

### configmap
---
<strong>Updated</strong>

- key: value
- key: value
- key2: value2 (from secret)

<strong>Deleted</strong>

- Key

### secrets
---
<strong>Updated</strong>

- key
- key2: value2 (from configmap)

<strong>Deleted</strong>

- Key
";
    assert_eq!(render_markdown(&files, "dev", "master"), expected);
}

#[test]
fn markdown_marks_empty_labels_no_changes() {
    let files = vec![FileReport {
        display: "secrets.yml".into(),
        kind: FileKind::Secret,
        items: vec![item(FileKind::Secret, ChangeKind::Deleted, "OLD")],
    }];
    let expected = "\
# Comparing branches: feature/x → master

## feature/x

### configmap \x1b[32m(No changes)\x1b[0m

### secrets
---
<strong>Updated</strong> \x1b[32m(No changes)\x1b[0m

<strong>Deleted</strong>

- OLD
";
    assert_eq!(render_markdown(&files, "feature/x", "master"), expected);
}

#[test]
fn markdown_environment_with_no_changes() {
    let files = vec![FileReport {
        display: "deploy/uat1/kubernetes/configmap.yml".into(),
        kind: FileKind::ConfigMap,
        items: vec![],
    }];
    let expected = "\
# Comparing branches: feature/x → master

## uat1 \x1b[32m(No changes)\x1b[0m
";
    assert_eq!(render_markdown(&files, "feature/x", "master"), expected);
}

#[test]
fn markdown_segments_by_environment() {
    let files = vec![
        FileReport {
            display: "deploy/qa1/kubernetes/configmap.yml".into(),
            kind: FileKind::ConfigMap,
            items: vec![item(FileKind::ConfigMap, ChangeKind::Deleted, "QA1_GONE")],
        },
        FileReport {
            display: "deploy/dev/kubernetes/configmap.yml".into(),
            kind: FileKind::ConfigMap,
            items: vec![Item {
                kind: FileKind::ConfigMap,
                change: ChangeKind::Created,
                key: "DEV_NEW".into(),
                value: Some("newvalue".into()),
                old_value: None,
                note: String::new(),
            }],
        },
        FileReport {
            display: "deploy/dev/kubernetes/secrets.yml".into(),
            kind: FileKind::Secret,
            items: vec![item(FileKind::Secret, ChangeKind::Deleted, "DEV_OLD")],
        },
    ];
    let md = render_markdown(&files, "feature/x", "master");
    let expected = "\
# Comparing branches: feature/x → master

## dev

### configmap
---
<strong>Updated</strong>

- DEV_NEW: newvalue

<strong>Deleted</strong> \x1b[32m(No changes)\x1b[0m

### secrets
---
<strong>Updated</strong> \x1b[32m(No changes)\x1b[0m

<strong>Deleted</strong>

- DEV_OLD

## qa1

### configmap
---
<strong>Updated</strong> \x1b[32m(No changes)\x1b[0m

<strong>Deleted</strong>

- QA1_GONE

### secrets \x1b[32m(No changes)\x1b[0m
";
    assert_eq!(md, expected);
}

#[test]
fn markdown_environment_falls_back_to_branch_for_root_files() {
    let files = vec![FileReport {
        display: "configmap.yml".into(),
        kind: FileKind::ConfigMap,
        items: vec![item(FileKind::ConfigMap, ChangeKind::Created, "NEW")],
    }];
    let md = render_markdown(&files, "feature/x", "master");
    assert!(
        md.starts_with("# Comparing branches: feature/x → master\n\n## feature/x\n"),
        "got:\n{md}"
    );
}

#[test]
fn markdown_escapes_multiline_values() {
    let files = vec![FileReport {
        display: "configmap.yml".into(),
        kind: FileKind::ConfigMap,
        items: vec![Item {
            kind: FileKind::ConfigMap,
            change: ChangeKind::Created,
            key: "MULTI".into(),
            value: Some("line1\nline2".into()),
            old_value: None,
            note: String::new(),
        }],
    }];
    let md = render_markdown(&files, "dev", "master");
    assert!(md.contains("- MULTI: line1\\nline2"));
}

#[test]
fn markdown_configmap_empty_value_still_renders_value() {
    let files = vec![
        FileReport {
            display: "configmap.yml".into(),
            kind: FileKind::ConfigMap,
            items: vec![
                Item {
                    kind: FileKind::ConfigMap,
                    change: ChangeKind::Created,
                    key: "EMPTY".into(),
                    value: Some(String::new()),
                    old_value: None,
                    note: String::new(),
                },
                Item {
                    kind: FileKind::ConfigMap,
                    change: ChangeKind::Updated,
                    key: "FROM_SECRET".into(),
                    value: Some(String::new()),
                    old_value: Some("old".into()),
                    note: "(from secret)".into(),
                },
            ],
        },
        FileReport {
            display: "secrets.yml".into(),
            kind: FileKind::Secret,
            items: vec![item(FileKind::Secret, ChangeKind::Created, "SECRET_ONLY")],
        },
    ];
    let md = render_markdown(&files, "dev", "master");
    assert!(md.contains("- EMPTY:"), "empty configmap value renders:\n{md}");
    assert!(md.contains("- FROM_SECRET: (from secret)"), "annotated empty configmap value renders:\n{md}");
    assert!(md.contains("- SECRET_ONLY"), "secret stays bare:\n{md}");
    assert!(!md.contains("- SECRET_ONLY:"), "secret must not gain a value:\n{md}");
}

#[test]
fn env_group_is_the_parent_folder() {
    assert_eq!(env_group("deploy/dev/kubernetes/configmap.yml"), "deploy/dev/kubernetes");
    assert_eq!(env_group("configmap.yml"), "");
}

#[test]
fn placeholder_values_are_not_real() {
    assert!(!has_real_value("xxxxxxxx"));
    assert!(!has_real_value(""));
    assert!(has_real_value("realvalue"));
}

#[test]
fn identical_branches_give_no_items() {
    let from = vec![pair("A", "1"), pair("B", "2")];
    let items = branch_diff(&from, &from.clone(), FileKind::ConfigMap);
    assert!(items.is_empty());
}
