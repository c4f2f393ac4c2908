use application_priority_setter::rules::{
    clamp_nice, config_file_path, default_version, load, sanitize, save, RulesFile, SavedRules,
};
use application_priority_setter::text::{
    chars_of, decimal_string, join_path, lines_of, parse_i32, parse_u32, parse_u64, replaced,
    trimmed, words_of,
};

fn text(v: &Vec<char>) -> String {
    v.iter().collect()
}

fn texts(v: &Vec<Vec<char>>) -> Vec<String> {
    v.iter().map(text).collect()
}

fn rules_of(pairs: &[(&str, i32)]) -> SavedRules {
    let mut rules = SavedRules::new();
    for (key, nice) in pairs {
        rules.insert((*key).to_owned(), *nice);
    }
    rules
}

#[test]
fn integers_parse_as_std_parses_them() {
    assert_eq!(parse_u32(&chars_of("+5")), Some(5));
    assert_eq!(parse_u32(&chars_of("-5")), None);
    assert_eq!(parse_u32(&chars_of("4294967295")), Some(u32::MAX));
    assert_eq!(parse_u32(&chars_of("4294967296")), None);
    assert_eq!(parse_u32(&chars_of("")), None);
    assert_eq!(parse_u32(&chars_of("+")), None);
    assert_eq!(parse_u32(&chars_of(" 1")), None);
    assert_eq!(parse_u32(&chars_of("12a")), None);
    assert_eq!(parse_i32(&chars_of("-2147483648")), Some(i32::MIN));
    assert_eq!(parse_i32(&chars_of("2147483648")), None);
    assert_eq!(parse_i32(&chars_of("-")), None);
    assert_eq!(parse_i32(&chars_of("-0")), Some(0));
    assert_eq!(parse_u64(&chars_of("18446744073709551615")), Some(u64::MAX));
    assert_eq!(parse_u64(&chars_of("18446744073709551616")), None);
    assert_eq!(parse_u64(&chars_of("007")), Some(7));
}

#[test]
fn decimal_spelling_matches_display() {
    for n in [0u64, 7, 10, 12345, u64::MAX] {
        assert_eq!(text(&decimal_string(n)), n.to_string());
    }
}

#[test]
fn lines_and_words_split_as_std_does() {
    assert_eq!(texts(&lines_of(&chars_of("a\r\nb\n\nc"))), vec!["a", "b", "", "c"]);
    assert_eq!(texts(&lines_of(&chars_of("a\n"))), vec!["a"]);
    assert!(lines_of(&chars_of("")).is_empty());
    assert_eq!(texts(&lines_of(&chars_of("x\r"))), vec!["x\r"]);
    assert_eq!(texts(&words_of(&chars_of("  a b\t\tc \n"))), vec!["a", "b", "c"]);
    assert_eq!(text(&trimmed(&chars_of("\u{a0} x y \t"))), "x y");
    assert_eq!(
        text(&replaced(&chars_of("a\\x2db\\x2d"), &chars_of("\\x2d"), &chars_of("-"))),
        "a-b-"
    );
}

#[test]
fn paths_join_like_pathbuf() {
    assert_eq!(text(&join_path(&chars_of(""), "x")), "x");
    assert_eq!(text(&join_path(&chars_of("/a/"), "b")), "/a/b");
    assert_eq!(text(&join_path(&chars_of("/a"), "b")), "/a/b");
    assert_eq!(text(&join_path(&chars_of("/a"), "/b")), "/b");
    assert_eq!(text(&chars_of("héllo")), "héllo");
}

#[test]
fn clamping_bounds_nice_values() {
    assert_eq!(clamp_nice(99), 19);
    assert_eq!(clamp_nice(-99), -20);
    assert_eq!(clamp_nice(5), 5);
    assert_eq!(clamp_nice(clamp_nice(i32::MIN)), clamp_nice(i32::MIN));
    assert_eq!(default_version(), 1);
}

#[test]
fn rule_map_reads_back_what_was_written() {
    let mut rules = SavedRules::new();
    assert!(rules.is_empty());
    rules.insert("exe:/usr/bin/b".to_owned(), 3);
    rules.insert("desktop:a".to_owned(), -4);
    rules.insert("exe:/usr/bin/b".to_owned(), 7);
    assert_eq!(rules.len(), 2);
    assert_eq!(rules.get("exe:/usr/bin/b"), Some(&7));
    assert_eq!(rules.get("desktop:a"), Some(&-4));
    assert!(!rules.contains_key("desktop:zzz"));
    let keys: Vec<&str> = rules.pairs().iter().map(|(k, _)| k.as_str()).collect();
    assert_eq!(keys, vec!["desktop:a", "exe:/usr/bin/b"]);
    assert_eq!(rules.remove("desktop:a"), Some(-4));
    assert_eq!(rules.remove("desktop:a"), None);
    assert!(!rules.contains_key("desktop:a"));
    assert_eq!(rules.len(), 1);
}

#[test]
fn cleaning_trims_keys_and_later_keys_win() {
    let rules = sanitize(&vec![
        (" a".to_owned(), 1),
        ("a ".to_owned(), 2),
        ("   ".to_owned(), 4),
        ("b".to_owned(), 40),
    ]);
    assert_eq!(rules.len(), 2);
    assert_eq!(rules.get("a"), Some(&2));
    assert_eq!(rules.get("b"), Some(&19));
    let again = sanitize(rules.pairs());
    assert_eq!(again.pairs(), rules.pairs());
}

/// The text a rules file holds: `{"version":..,"rules":{..}}`.
fn saved_text(file: &RulesFile) -> String {
    let body: std::collections::BTreeMap<String, i32> =
        file.rules.pairs().iter().cloned().collect();
    let mut object = serde_json::Map::new();
    object.insert("version".to_owned(), serde_json::Value::from(file.version));
    object.insert("rules".to_owned(), serde_json::to_value(&body).unwrap());
    serde_json::to_string_pretty(&serde_json::Value::Object(object)).unwrap()
}

/// The rules of a `{"version":..,"rules":{..}}` text, read back as JSON.
fn structured_rules(text: &str) -> SavedRules {
    let value: serde_json::Value = serde_json::from_str(text).unwrap();
    let mut rules = SavedRules::new();
    for (key, nice) in value["rules"].as_object().unwrap() {
        rules.insert(key.clone(), nice.as_i64().unwrap() as i32);
    }
    rules
}

#[test]
fn clamps_and_drops_bad_keys() {
    let rules = rules_of(&[("  ", 0), ("desktop:ok", 99), ("desktop:low", -99)]);
    let file = save(&rules);
    assert_eq!(file.version, 1);
    let text = saved_text(&file);
    let loaded = load(Some(&text), Some(&structured_rules(&text)));
    assert_eq!(loaded.get("desktop:ok"), Some(&19));
    assert_eq!(loaded.get("desktop:low"), Some(&-20));
    assert!(!loaded.contains_key("  "));
}

#[test]
fn round_trips_rules() {
    let rules = rules_of(&[("desktop:org.example.App", 10), ("exe:/usr/bin/example", -5)]);
    let file = save(&rules);
    let text = saved_text(&file);
    let loaded = load(Some(&text), Some(&structured_rules(&text)));
    assert_eq!(loaded.pairs(), rules.pairs());
}

#[test]
fn reads_legacy_flat_format() {
    let text = r#"{"desktop:org.example.App": 5}"#;
    assert_eq!(load(Some(text), None).get("desktop:org.example.App"), Some(&5));
    // A structured parse is ignored when the text names no "rules" key.
    let structured = rules_of(&[("other", 1)]);
    let loaded = load(Some(text), Some(&structured));
    assert_eq!(loaded.get("desktop:org.example.App"), Some(&5));
    assert!(!loaded.contains_key("other"));
}

#[test]
fn structured_rules_are_used_and_cleaned() {
    let structured = rules_of(&[(" desktop:x ", 50)]);
    let loaded = load(Some(r#"{"version":1,"rules":{" desktop:x ":50}}"#), Some(&structured));
    assert_eq!(loaded.get("desktop:x"), Some(&19));
    assert_eq!(loaded.len(), 1);
}

#[test]
fn unreadable_or_invalid_rules_load_empty() {
    assert!(load(Some("not json"), None).is_empty());
    assert!(load(Some(r#"{"a": "text"}"#), None).is_empty());
    assert!(load(None, Some(&rules_of(&[("x", 1)]))).is_empty());
}

#[test]
fn rules_file_location_follows_the_environment() {
    assert_eq!(
        config_file_path(Some("/cfg"), Some("/home/u")),
        "/cfg/application-priority-setter/rules.json"
    );
    assert_eq!(
        config_file_path(None, Some("/home/u")),
        "/home/u/.config/application-priority-setter/rules.json"
    );
    assert_eq!(config_file_path(None, None), "rules.json");
}
