use nv::color::ColorConfig;
use nv::duplicates::{duplicate_entries, find_duplicates, KeyLocation};
use nv::parser::ParsedPair;

fn p(key: &str, value: &str) -> ParsedPair {
    ParsedPair { key: key.into(), value: value.into() }
}

#[test]
fn duplicate_key_in_same_file() {
    let locations = vec![
        KeyLocation { file_display: ".env".to_string(), value: "value1".to_string() },
        KeyLocation { file_display: ".env".to_string(), value: "value2".to_string() },
    ];
    assert_eq!(locations.len(), 2);
    assert_eq!(locations[0].file_display, locations[1].file_display);
}

#[test]
fn single_occurrence_not_duplicate() {
    let locations = vec![KeyLocation { file_display: ".env".to_string(), value: "value1".to_string() }];
    assert_eq!(locations.len(), 1);
}

#[test]
fn finds_repeated_keys_sorted_with_every_location() {
    let pairs = vec![p("B", "1"), p("A", "2"), p("B", "3"), p("C", "4"), p("A", "5"), p("B", "6")];
    let d = find_duplicates(".env", &pairs);
    let keys: Vec<&str> = d.iter().map(|x| x.key.as_str()).collect();
    assert_eq!(keys, vec!["A", "B"]);
    let vals: Vec<&str> = d[1].locations.iter().map(|l| l.value.as_str()).collect();
    assert_eq!(vals, vec!["1", "3", "6"]);
    assert!(d[0].locations.iter().all(|l| l.file_display == ".env"));
}

#[test]
fn no_repeats_no_duplicates() {
    assert!(find_duplicates(".env", &vec![p("A", "1"), p("B", "1")]).is_empty());
}

#[test]
fn duplicate_entries_show_first_value() {
    let d = find_duplicates("secrets.yml", &vec![p("K", "one"), p("K", "two")]);
    let es = duplicate_entries("auth", &d, &ColorConfig::default(), false);
    assert_eq!(es.len(), 1);
    assert_eq!(es[0].label, "K = one");
    assert_eq!(es[0].file, "secrets.yml");
    assert_eq!(es[0].service, "auth");
}
