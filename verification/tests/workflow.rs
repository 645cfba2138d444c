use std::path::PathBuf;

use nv::changes::{report_tree, selected_service, ChangeKind, FileReport, Item, SelectError};
use nv::color::ColorConfig;
use nv::compare::{find_base, is_peer, BaseError};
use nv::config::{mark_false_alarms, tidy_yaml, Config, ServiceConfig, ServiceFiles};
use nv::context::{answer_valid, answer_yes};
use nv::discovery::{configured_files, enters_dir, is_service_dir};
use nv::display::scan_summary;
use nv::findings::{fake_findings, scanned_pairs};
use nv::model::{EnvFile, FileKind, Service};
use nv::parser::ParsedPair;
use nv::search::index_file;
use nv::tui::{move_cursor, Effect, Key, Screen, TuiState};
use nv::unused::searches_dir;
use nv::wizard::{files_choice, wizard_config};

fn file(kind: FileKind, display: &str) -> EnvFile {
    EnvFile { kind, path: PathBuf::from(format!("/srv/{display}")), display: display.to_string() }
}

fn service(name: &str, displays: &[&str]) -> Service {
    Service {
        name: name.to_string(),
        path: PathBuf::from(format!("/srv/{name}")),
        files: displays.iter().map(|d| file(FileKind::Dotenv, d)).collect(),
    }
}

fn strings(v: &[&str]) -> Vec<String> {
    v.iter().map(|s| s.to_string()).collect()
}

fn pair(k: &str, v: &str) -> ParsedPair {
    ParsedPair { key: k.to_string(), value: v.to_string() }
}

#[test]
fn tidy_yaml_writes_bare_service_names() {
    let raw = "services:\n  api: null\n  web:\n    path: web-app\nname: null";
    assert_eq!(tidy_yaml(raw), "services:\n  api:\n  web:\n    path: web-app\nname: null\n");
}

#[test]
fn marking_false_alarms_counts_only_new_ones() {
    let mut cfg = Config::default();
    let pairs = vec![
        ("auth".to_string(), "DB_PASSWORD".to_string()),
        ("auth".to_string(), "API_TOKEN".to_string()),
        ("auth".to_string(), "DB_PASSWORD".to_string()),
    ];
    assert_eq!(mark_false_alarms(&mut cfg, &pairs), 2);
    assert!(cfg.is_false_alarm("auth", "DB_PASSWORD"));
    assert!(cfg.is_false_alarm("auth", "API_TOKEN"));
    assert!(!cfg.is_false_alarm("billing", "API_TOKEN"));
    assert_eq!(mark_false_alarms(&mut cfg, &pairs), 0);
}

#[test]
fn put_service_inserts_sorted_and_replaces() {
    let mut cfg = Config::default();
    cfg.put_service("web", ServiceConfig { path: None, files: None, commands: None });
    cfg.put_service("api", ServiceConfig { path: Some("api-dir".to_string()), files: None, commands: None });
    cfg.put_service("web", ServiceConfig { path: Some("w".to_string()), files: None, commands: None });
    let names: Vec<&str> = cfg.services.iter().map(|(n, _)| n.as_str()).collect();
    assert_eq!(names, vec!["api", "web"]);
    assert_eq!(cfg.services[1].1.path.as_deref(), Some("w"));
    assert_eq!(cfg.services[0].1.path.as_deref(), Some("api-dir"));
}

#[test]
fn yes_no_answers() {
    assert!(answer_valid(" Y "));
    assert!(answer_valid("no"));
    assert!(!answer_valid("maybe"));
    assert!(answer_yes("YES"));
    assert!(!answer_yes("n"));
    assert!(!answer_yes(""));
}

#[test]
fn scan_summary_counts_with_plurals() {
    assert_eq!(scan_summary(1, 2, None), "Scanned 1 file in 2 folders.");
    assert_eq!(scan_summary(3, 1, Some(1)), "Scanned 3 files in 1 folder for 1 key.");
    assert_eq!(scan_summary(0, 0, Some(7)), "Scanned 0 files in 0 folders for 7 keys.");
}

#[test]
fn discovery_skips_hidden_ignored_and_noise_folders() {
    let ignore = strings(&["legacy"]);
    assert!(is_service_dir("auth", &ignore));
    assert!(!is_service_dir(".cache", &ignore));
    assert!(!is_service_dir("legacy", &ignore));
    assert!(enters_dir("k8s"));
    assert!(!enters_dir("node_modules"));
    assert!(!enters_dir(".git"));
    assert!(searches_dir("src", &strings(&["dist"])));
    assert!(!searches_dir("dist", &strings(&["dist"])));
    assert!(!searches_dir(".venv", &Vec::new()));
}

#[test]
fn configured_files_lists_groups_in_kind_order() {
    let sel = ServiceFiles {
        dotenv: Some(strings(&[".env", ".env.local"])),
        dotenv_example: None,
        configmap: Some(strings(&["k8s/configmap.yml"])),
        secret: Some(Vec::new()),
    };
    let r = configured_files(&sel);
    let got: Vec<(FileKind, &str)> = r.iter().map(|(k, s)| (*k, s.as_str())).collect();
    assert_eq!(
        got,
        vec![
            (FileKind::Dotenv, ".env"),
            (FileKind::Dotenv, ".env.local"),
            (FileKind::ConfigMap, "k8s/configmap.yml"),
        ]
    );
}

#[test]
fn find_base_reports_missing_ambiguous_and_unique() {
    let services = vec![service("api", &[".env", ".env.local"]), service("web", &[".env"])];
    assert!(matches!(find_base(&services, &Vec::new(), ".env.prod"), Err(BaseError::NotFound)));
    match find_base(&services, &Vec::new(), ".env") {
        Err(BaseError::Ambiguous(names)) => assert_eq!(names, strings(&["api", "web"])),
        _ => panic!("expected an ambiguous base"),
    }
    assert_eq!(find_base(&services, &Vec::new(), ".env.local").ok(), Some((0, 1)));
    assert_eq!(find_base(&services, &strings(&["web"]), ".env").ok(), Some((1, 0)));
}

#[test]
fn peers_share_a_kind_and_are_neither_base_nor_skipped() {
    let kinds = vec![FileKind::Dotenv, FileKind::DotenvExample];
    assert!(is_peer(&kinds, FileKind::DotenvExample, false, false));
    assert!(!is_peer(&kinds, FileKind::Secret, false, false));
    assert!(!is_peer(&kinds, FileKind::Dotenv, true, false));
    assert!(!is_peer(&kinds, FileKind::Dotenv, false, true));
}

#[test]
fn index_file_tags_each_pair_with_its_file() {
    let f = file(FileKind::Dotenv, ".env");
    let keys = index_file("api", &f, "# c\nA=1\nexport B=\"two words\"\n");
    assert_eq!(keys.len(), 2);
    assert_eq!(keys[0].service, "api");
    assert_eq!(keys[0].file_display, ".env");
    assert_eq!(keys[0].file_kind, FileKind::Dotenv);
    assert_eq!(keys[0].file_path, PathBuf::from("/srv/.env"));
    assert_eq!((keys[0].key.as_str(), keys[0].value.as_str()), ("A", "1"));
    assert_eq!((keys[1].key.as_str(), keys[1].value.as_str()), ("B", "two words"));
}

#[test]
fn scanned_pairs_of_a_secrets_file_come_from_its_data() {
    let content = "apiVersion: v1\nkind: Secret\nstringData:\n  DB_PASSWORD: hunter2\n";
    let pairs = scanned_pairs(FileKind::Secret, content);
    assert_eq!(pairs, vec![pair("DB_PASSWORD", "hunter2")]);
}

#[test]
fn fake_findings_flag_non_secret_keys_in_secret_files() {
    let pairs = vec![pair("DB_PASSWORD", "x"), pair("LOG_LEVEL", "debug")];
    let found = fake_findings("api", "k8s/secrets.yml", FileKind::Secret, &pairs, &Vec::new(), &None);
    assert_eq!(found.len(), 1);
    assert_eq!(found[0].key, "LOG_LEVEL");
    assert_eq!(found[0].service, "api");
    assert_eq!(found[0].file_display, "k8s/secrets.yml");
    assert_eq!(found[0].value, "debug");
}

#[test]
fn report_tree_counts_items_per_file_and_service() {
    let item = |key: &str| Item {
        kind: FileKind::ConfigMap,
        change: ChangeKind::Created,
        key: key.to_string(),
        value: Some("v".to_string()),
        old_value: None,
        note: String::new(),
    };
    let files = vec![
        FileReport { display: "configmap.yml".to_string(), kind: FileKind::ConfigMap, items: vec![item("A"), item("B")] },
        FileReport { display: "other.yml".to_string(), kind: FileKind::ConfigMap, items: vec![item("C")] },
    ];
    let tree = report_tree("api", &files, &ColorConfig::default(), false).unwrap();
    assert_eq!(tree.name, "api");
    assert_eq!(tree.count, 3);
    assert_eq!(tree.files.len(), 2);
    assert_eq!(tree.files[0].count, 2);
    assert_eq!(tree.files[1].count, 1);
}

#[test]
fn wizard_keeps_every_folder_without_listing_them() {
    let names = strings(&["api", "web"]);
    let cfg = wizard_config("services", &names, &vec![0, 1], false, Vec::new());
    assert_eq!(cfg.services_root, "services");
    assert!(cfg.services.is_empty());
}

#[test]
fn wizard_lists_chosen_folders_with_their_files() {
    let names = strings(&["api", "web", "worker"]);
    let files = vec![file(FileKind::Dotenv, ".env"), file(FileKind::ConfigMap, "k8s/configmap.yml")];
    let choice = files_choice(&files, &vec![1]);
    assert!(choice.dotenv.is_none());
    assert_eq!(choice.configmap, Some(strings(&["k8s/configmap.yml"])));
    let cfg = wizard_config("svc", &names, &vec![2], true, vec![choice]);
    assert_eq!(cfg.services.len(), 1);
    assert_eq!(cfg.services[0].0, "worker");
    let sc = &cfg.services[0].1;
    assert!(sc.path.is_none());
    assert_eq!(sc.files.as_ref().unwrap().configmap, Some(strings(&["k8s/configmap.yml"])));
}

#[test]
fn cursor_wraps_around() {
    assert_eq!(move_cursor(Some(0), 3, true), Some(2));
    assert_eq!(move_cursor(Some(2), 3, false), Some(0));
    assert_eq!(move_cursor(None, 3, false), Some(1));
    assert_eq!(move_cursor(None, 0, true), None);
}

#[test]
fn tui_picks_a_key_then_steps_back_and_quits() {
    let mut st = TuiState::new(strings(&["API_KEY", "DB_URL"]), strings(&["api", "web"]), false);
    assert_eq!(st.screen, Screen::Find);
    assert_eq!(st.key_cursor, Some(0));
    assert_eq!(st.handle_key(Key::Down), Effect::Stay);
    assert_eq!(st.key_cursor, Some(1));
    assert_eq!(st.handle_key(Key::Enter), Effect::Stay);
    assert_eq!(st.screen, Screen::Services);
    assert_eq!(st.selected_key.as_deref(), Some("DB_URL"));
    assert_eq!(st.selected_service_names(), strings(&["api", "web"]));
    assert_eq!(st.handle_key(Key::Esc), Effect::Stay);
    assert_eq!(st.screen, Screen::Find);
    assert_eq!(st.handle_key(Key::Esc), Effect::Quit);
}

#[test]
fn tui_typing_narrows_the_matches() {
    let mut st = TuiState::new(strings(&["API_KEY", "DB_URL"]), Vec::new(), true);
    st.handle_key(Key::Char('d'));
    st.handle_key(Key::Char('b'));
    assert_eq!(st.query, "db");
    assert_eq!(st.matches, strings(&["DB_URL"]));
    st.handle_key(Key::Backspace);
    assert_eq!(st.query, "d");
}

#[test]
fn env_name_skips_container_folders() {
    assert_eq!(nv::changes::env_name("deploy/dev/kubernetes").as_deref(), Some("dev"));
    assert_eq!(nv::changes::env_name("k8s/staging").as_deref(), Some("staging"));
    assert_eq!(nv::changes::env_name("deploy/kubernetes"), None);
    assert_eq!(nv::changes::env_name(""), None);
}

#[test]
fn selected_service_needs_exactly_one_known_name() {
    let services = vec![service("api", &[".env"]), service("web", &[".env"])];
    assert!(matches!(selected_service(false, &strings(&["api", "web"]), &services), Err(SelectError::NotExactlyOne)));
    assert!(matches!(selected_service(true, &strings(&["api"]), &services), Err(SelectError::NotExactlyOne)));
    assert!(matches!(selected_service(false, &Vec::new(), &services), Err(SelectError::NotExactlyOne)));
    match selected_service(false, &strings(&["nope"]), &services) {
        Err(SelectError::NotFound(n)) => assert_eq!(n, "nope"),
        _ => panic!("expected an unknown service"),
    }
    assert_eq!(selected_service(false, &strings(&["web"]), &services).ok().map(|s| s.name.as_str()), Some("web"));
}
