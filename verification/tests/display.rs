use nv::color::{AnsiColor, ColorConfig};
use nv::display::{grouped_tree, render_summary, render_tree, TreeEntry, TreeFile, TreeItem, TreeService};

#[test]
fn empty_services_produces_no_output() {
    let colors = ColorConfig::default();
    let out = render_tree(&vec![], &colors, false, true);
    assert!(out.is_empty());
}

#[test]
fn single_service_single_file_single_item() {
    let services = vec![TreeService {
        name: "auth".into(),
        count: 1,
        files: vec![TreeFile {
            name: ".env".into(),
            count: 1,
            items: vec![TreeItem { label: "DB_URL = postgres://localhost".into(), color: AnsiColor::Green }],
        }],
    }];
    let colors = ColorConfig::default();
    let text = render_tree(&services, &colors, false, true);
    assert!(text.contains("auth/ (1)"));
    assert!(text.contains(".env (1)"));
    assert!(text.contains("DB_URL"));
    assert!(text.contains("└──"));
    assert!(!text.contains("├──"));
}

#[test]
fn multiple_services_multiple_files() {
    let services = vec![
        TreeService {
            name: "auth".into(),
            count: 2,
            files: vec![
                TreeFile {
                    name: ".env".into(),
                    count: 1,
                    items: vec![TreeItem { label: "KEY1".into(), color: AnsiColor::Green }],
                },
                TreeFile {
                    name: "configmap.yml".into(),
                    count: 1,
                    items: vec![TreeItem { label: "KEY2".into(), color: AnsiColor::Green }],
                },
            ],
        },
        TreeService {
            name: "billing".into(),
            count: 1,
            files: vec![TreeFile {
                name: ".env".into(),
                count: 1,
                items: vec![TreeItem { label: "KEY3".into(), color: AnsiColor::Green }],
            }],
        },
    ];
    let colors = ColorConfig::default();
    let text = render_tree(&services, &colors, false, true);
    assert!(text.contains("├── .env (1)"));
    assert!(text.contains("└── configmap.yml (1)"));
    assert!(text.contains("└── .env (1)"));
}

fn entry(service: &str, file: &str, label: &str) -> TreeEntry {
    TreeEntry {
        service: service.into(),
        file: file.into(),
        label: label.into(),
        color: AnsiColor::Green,
        counted: true,
    }
}

#[test]
fn grouped_tree_sorts_services_and_files() {
    let es = vec![
        entry("billing", ".env", "B1"),
        entry("auth", "secrets.yml", "S1"),
        entry("auth", ".env", "A1"),
        entry("auth", ".env", "A2"),
    ];
    let services = grouped_tree(&es, true);
    let names: Vec<&str> = services.iter().map(|s| s.name.as_str()).collect();
    assert_eq!(names, vec!["auth", "billing"]);
    let files: Vec<&str> = services[0].files.iter().map(|f| f.name.as_str()).collect();
    assert_eq!(files, vec![".env", "secrets.yml"]);
    let labels: Vec<&str> = services[0].files[0].items.iter().map(|i| i.label.as_str()).collect();
    assert_eq!(labels, vec!["A1", "A2"]);
    assert_eq!(services[0].files[0].count, 2);
}

#[test]
fn summary_line_is_plain_without_color() {
    let colors = ColorConfig::default();
    let s = render_summary("3 key(s) found.", &colors, false);
    assert!(s.contains("3 key(s) found."));
}
