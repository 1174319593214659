use javaver::codec::{encode_config, parse_config};
use javaver::config::{JavaverConfig, JavaverError, SDKConfig};
use javaver::switch::{
    find_path_value, join_path_value, plan_switch, split_path_value, switch_path_list, target_bin,
};

fn entry(name: &str, path: &str) -> SDKConfig {
    SDKConfig::new(&name.to_string(), &path.to_string())
}

fn sample_registry() -> JavaverConfig {
    let mut c = JavaverConfig::new();
    c.add(entry("jdk8", "C:\\Program Files\\Java\\jdk8"), true).unwrap();
    c.add(entry("jdk17", "C:\\Program Files\\Java\\jdk17"), true).unwrap();
    c
}

fn strings(v: &[&str]) -> Vec<String> {
    v.iter().map(|s| s.to_string()).collect()
}

#[test]
fn new_registry_is_empty() {
    let c = JavaverConfig::new();
    assert!(c.sdk.is_empty());
    assert!(!c.contains_name("jdk8"));
}

#[test]
fn add_then_contains() {
    let mut c = JavaverConfig::new();
    assert_eq!(c.add(entry("jdk8", "C:\\Java\\jdk8"), true), Ok(()));
    assert!(c.contains_name("jdk8"));
    assert!(!c.contains_name("JDK8"));
    assert!(!c.contains_name("jdk17"));
}

#[test]
fn duplicate_add_is_rejected_and_changes_nothing() {
    let mut c = sample_registry();
    let before: Vec<(String, String)> =
        c.sdk.iter().map(|e| (e.name.clone(), e.path.clone())).collect();
    let r = c.add(entry("jdk8", "D:\\elsewhere"), true);
    assert_eq!(r, Err(JavaverError::DuplicateName));
    let after: Vec<(String, String)> =
        c.sdk.iter().map(|e| (e.name.clone(), e.path.clone())).collect();
    assert_eq!(before, after);
}

#[test]
fn invalid_path_is_rejected_before_the_registry_changes() {
    let mut c = sample_registry();
    let persisted_before = encode_config(&c);
    let r = c.add(entry("jdk21", "C:\\not-a-jdk"), false);
    assert_eq!(r, Err(JavaverError::InvalidSdkPath));
    assert_eq!(c.sdk.len(), 2);
    assert!(!c.contains_name("jdk21"));
    assert_eq!(encode_config(&c), persisted_before);
}

#[test]
fn remove_unknown_name_fails() {
    let mut c = sample_registry();
    assert_eq!(c.remove("jdk21"), Err(JavaverError::UnknownSdk));
    assert_eq!(c.sdk.len(), 2);
}

#[test]
fn remove_then_select_fails_and_plans_no_change() {
    let mut c = sample_registry();
    assert_eq!(c.remove("jdk8"), Ok(()));
    assert!(!c.contains_name("jdk8"));
    let path = strings(&["C:\\Windows", "C:\\Windows\\System32"]);
    let r = plan_switch(&c, "jdk8", &path);
    assert!(matches!(r, Err(JavaverError::UnknownSdk)));
}

#[test]
fn round_trip_of_a_built_registry() {
    let mut c = sample_registry();
    c.add(entry("odd \"name\"", "C:\\with\\backslashes\\and \"quotes\""), true).unwrap();
    c.remove("jdk8").unwrap();
    let text = encode_config(&c);
    let back = parse_config(&text).unwrap();
    assert_eq!(back.sdk.len(), c.sdk.len());
    for (a, b) in c.sdk.iter().zip(back.sdk.iter()) {
        assert_eq!(a.name, b.name);
        assert_eq!(a.path, b.path);
    }
}

#[test]
fn encoding_has_the_documented_form() {
    let mut c = JavaverConfig::new();
    c.add(entry("jdk17", "C:\\Java\\jdk17"), true).unwrap();
    assert_eq!(
        encode_config(&c),
        "{\"sdk\":[{\"name\":\"jdk17\",\"path\":\"C:\\\\Java\\\\jdk17\"}]}"
    );
}

#[test]
fn empty_registry_round_trip() {
    let c = JavaverConfig::new();
    let text = encode_config(&c);
    assert_eq!(text, "{\"sdk\":[]}");
    let back = parse_config(&text).unwrap();
    assert!(back.sdk.is_empty());
}

#[test]
fn malformed_registry_text_is_a_deserialize_error() {
    for bad in [
        "",
        "garbage",
        "{\"sdk\":[",
        "{\"sdk\":[]} trailing",
        "{\"sdk\":[{\"name\":\"a\"}]}",
        "{\"sdk\":[{\"name\":\"a\",\"path\":\"b\"},]}",
    ] {
        assert_eq!(parse_config(bad).unwrap_err(), JavaverError::Deserialize);
    }
}

#[test]
fn switch_moves_existing_entry_to_front() {
    let path = strings(&["A", "B", "C:\\Java\\jdk17\\bin", "C"]);
    let out = switch_path_list(&path, "C:\\Java\\jdk17\\bin");
    assert_eq!(out, strings(&["C:\\Java\\jdk17\\bin", "A", "B", "C"]));
}

#[test]
fn switch_without_a_match_prepends() {
    let path = strings(&["A", "B", "C"]);
    let out = switch_path_list(&path, "C:\\Java\\jdk17\\bin");
    assert_eq!(out, strings(&["C:\\Java\\jdk17\\bin", "A", "B", "C"]));
}

#[test]
fn switch_dedup_is_case_insensitive() {
    let path = strings(&["A", "c:\\JAVA\\JDK17\\BIN", "B"]);
    let out = switch_path_list(&path, "C:\\Java\\jdk17\\bin");
    assert_eq!(out, strings(&["C:\\Java\\jdk17\\bin", "A", "B"]));
}

#[test]
fn switch_twice_changes_nothing_more() {
    let path = strings(&["A", "C:\\Java\\jdk17\\bin", "B"]);
    let once = switch_path_list(&path, "C:\\Java\\jdk17\\bin");
    let twice = switch_path_list(&once, "C:\\Java\\jdk17\\bin");
    assert_eq!(once, twice);
    assert_eq!(twice[0], "C:\\Java\\jdk17\\bin");
    assert_eq!(
        twice.iter().filter(|e| e.to_lowercase() == "c:\\java\\jdk17\\bin").count(),
        1
    );
}

#[test]
fn switch_removes_only_the_first_occurrence() {
    let path = strings(&["X", "C:\\j\\bin", "Y", "C:\\J\\BIN"]);
    let out = switch_path_list(&path, "c:\\j\\bin");
    assert_eq!(out, strings(&["c:\\j\\bin", "X", "Y", "C:\\J\\BIN"]));
}

#[test]
fn switch_on_empty_path_list() {
    let path: Vec<String> = Vec::new();
    let out = switch_path_list(&path, "C:\\Java\\jdk17\\bin");
    assert_eq!(out, strings(&["C:\\Java\\jdk17\\bin"]));
}

#[test]
fn plan_switch_builds_path_and_java_home() {
    let c = sample_registry();
    let path = strings(&["A", "C:\\Program Files\\Java\\jdk17\\bin", "B"]);
    let plan = plan_switch(&c, "jdk17", &path).unwrap();
    assert_eq!(plan.java_home, "C:\\Program Files\\Java\\jdk17");
    assert_eq!(
        plan.path_entries,
        strings(&["C:\\Program Files\\Java\\jdk17\\bin", "A", "B"])
    );
}

#[test]
fn target_bin_appends_the_bin_directory() {
    assert_eq!(target_bin("C:\\Java\\jdk17"), "C:\\Java\\jdk17\\bin");
}

#[test]
fn split_and_join_path_values() {
    let v = split_path_value("C:\\Windows;C:\\Windows\\System32;C:\\Java\\bin");
    assert_eq!(v, strings(&["C:\\Windows", "C:\\Windows\\System32", "C:\\Java\\bin"]));
    assert_eq!(join_path_value(&v), "C:\\Windows;C:\\Windows\\System32;C:\\Java\\bin");
    assert_eq!(split_path_value(""), strings(&[""]));
    assert_eq!(split_path_value("a;;b"), strings(&["a", "", "b"]));
    assert_eq!(join_path_value(&Vec::new()), "");
}

#[test]
fn find_path_value_matches_key_case_insensitively() {
    let vars = vec![
        ("ComSpec".to_string(), "C:\\Windows\\system32\\cmd.exe".to_string()),
        ("Path".to_string(), "C:\\Windows;C:\\Java\\bin".to_string()),
        ("TEMP".to_string(), "C:\\Temp".to_string()),
    ];
    assert_eq!(find_path_value(&vars), Some("C:\\Windows;C:\\Java\\bin".to_string()));
    let none = vec![("TEMP".to_string(), "C:\\Temp".to_string())];
    assert_eq!(find_path_value(&none), None);
}

#[test]
fn error_messages_name_each_kind() {
    let kinds = [
        JavaverError::DuplicateName,
        JavaverError::UnknownSdk,
        JavaverError::InvalidSdkPath,
        JavaverError::Deserialize,
        JavaverError::Io,
        JavaverError::Permission,
    ];
    let texts: Vec<String> = kinds.iter().map(|k| k.message()).collect();
    for (i, a) in texts.iter().enumerate() {
        assert!(!a.is_empty());
        for b in texts.iter().skip(i + 1) {
            assert_ne!(a, b);
        }
    }
}
