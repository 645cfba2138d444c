use nv::config::{
    ChangesConfig, CommandsConfig, Config, FakeSecretsConfig, LeakConfig, ServiceConfig, SkipFilesConfig,
    CONFIG_FILE, DEFAULT_SECRET_LENGTH,
};

fn leaks(keys: &[&str]) -> Option<CommandsConfig> {
    Some(CommandsConfig {
        leaks: Some(LeakConfig { false_alarms: keys.iter().map(|k| k.to_string()).collect() }),
        unused: None,
        changes: None,
        find: None,
        compare: None,
        fake_secrets: None,
    })
}

#[test]
fn leaks_false_alarm_roundtrip() {
    let mut cfg = Config::default();
    assert!(!cfg.is_false_alarm("auth", "DB_PASSWORD"));
    assert!(cfg.add_false_alarm("auth", "DB_PASSWORD"));
    assert!(cfg.is_false_alarm("auth", "DB_PASSWORD"));
    assert!(!cfg.add_false_alarm("auth", "DB_PASSWORD"));
}

#[test]
fn global_false_alarm_applies_to_every_service() {
    let mut cfg = Config::default();
    cfg.commands = leaks(&["MY_OFFER_CHANNEL_ID"]);
    assert!(cfg.is_false_alarm("any-service", "MY_OFFER_CHANNEL_ID"));
    assert!(!cfg.is_false_alarm("any-service", "OTHER_KEY"));
}

#[test]
fn global_and_per_service_false_alarms_merge() {
    let mut cfg = Config::default();
    cfg.commands = leaks(&["GLOBAL_KEY"]);
    cfg.services.push((
        "auth".to_string(),
        ServiceConfig { path: None, files: None, commands: leaks(&["LOCAL_KEY"]) },
    ));
    assert!(cfg.is_false_alarm("auth", "GLOBAL_KEY"));
    assert!(cfg.is_false_alarm("auth", "LOCAL_KEY"));
    assert!(!cfg.is_false_alarm("other", "LOCAL_KEY"));
}

#[test]
fn adding_an_alarm_keeps_other_services_unchanged() {
    let mut cfg = Config::default();
    assert!(cfg.add_false_alarm("billing", "K"));
    assert!(cfg.add_false_alarm("auth", "K"));
    assert!(cfg.is_false_alarm("auth", "K"));
    assert!(cfg.is_false_alarm("billing", "K"));
    assert!(!cfg.is_false_alarm("other", "K"));
}

#[test]
fn constants() {
    assert_eq!(CONFIG_FILE, "nv.yml");
    assert_eq!(DEFAULT_SECRET_LENGTH, 32);
}

#[test]
fn missing_secret_preset_is_none() {
    let cfg = Config::default();
    assert!(cfg.secret_preset("ANY").is_none());
}

fn strings(v: &[&str]) -> Vec<String> {
    v.iter().map(|s| s.to_string()).collect()
}

fn commands(branch: Option<&str>, env: Option<&str>, skip: &[&str], special: &[&str]) -> Option<CommandsConfig> {
    Some(CommandsConfig {
        leaks: None,
        unused: None,
        changes: Some(ChangesConfig {
            master_branch: branch.map(|b| b.to_string()),
            environment: env.map(|e| e.to_string()),
            skip_files: strings(skip),
        }),
        find: Some(SkipFilesConfig { skip_files: strings(skip) }),
        compare: None,
        fake_secrets: Some(FakeSecretsConfig { special_secret_keys: strings(special) }),
    })
}

#[test]
fn changes_settings_come_from_the_service_then_the_global_section() {
    let mut cfg = Config::default();
    assert_eq!(cfg.changes_master_branch_for("auth"), None);
    cfg.commands = commands(Some("main"), Some("dev"), &["secrets.yml"], &["TOKEN"]);
    assert_eq!(cfg.changes_master_branch_for("auth"), Some("main"));
    assert_eq!(cfg.changes_environment_for("auth"), Some("dev"));
    cfg.put_service(
        "auth",
        ServiceConfig { path: None, files: None, commands: commands(Some("trunk"), None, &["a.yml"], &["PIN"]) },
    );
    assert_eq!(cfg.changes_master_branch_for("auth"), Some("trunk"));
    assert_eq!(cfg.changes_environment_for("auth"), Some("dev"));
    assert_eq!(cfg.changes_master_branch_for("billing"), Some("main"));
    assert_eq!(cfg.changes_skip_files_for("auth"), strings(&["secrets.yml", "a.yml"]));
    assert_eq!(cfg.changes_skip_files_for("billing"), strings(&["secrets.yml"]));
    assert_eq!(cfg.find_skip_files_for("auth"), strings(&["secrets.yml", "a.yml"]));
    assert!(cfg.compare_skip_files_for("auth").is_empty());
    assert_eq!(cfg.special_secret_keys_for("auth"), strings(&["TOKEN", "PIN"]));
}

#[test]
fn adding_a_false_alarm_keeps_the_other_command_sections() {
    let mut cfg = Config::default();
    cfg.put_service(
        "auth",
        ServiceConfig { path: None, files: None, commands: commands(Some("trunk"), None, &["a.yml"], &[]) },
    );
    assert!(cfg.add_false_alarm("auth", "KEY"));
    assert_eq!(cfg.changes_master_branch_for("auth"), Some("trunk"));
    assert_eq!(cfg.changes_skip_files_for("auth"), strings(&["a.yml"]));
}
