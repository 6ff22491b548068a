use texide::config::{default_cache, default_cache_dir, LinterConfig, RuleConfig};
use texide::error::ErrorKind;

#[test]
fn test_config_new() {
    let config = LinterConfig::new();
    assert!(config.rules.is_empty());
    assert!(config.cache);
}

#[test]
fn test_config_from_json() {
    let json = r#"{
            "rules": {
                "no-todo": true,
                "max-lines": { "max": 100 }
            }
        }"#;

    let config = LinterConfig::from_json(json).unwrap();
    assert_eq!(config.rules.len(), 2);
}

#[test]
fn test_rule_config_enabled() {
    let enabled = RuleConfig::Enabled(true);
    let disabled = RuleConfig::Enabled(false);
    let off = RuleConfig::Severity("off".to_string());
    let error = RuleConfig::Severity("error".to_string());

    assert!(enabled.is_enabled());
    assert!(!disabled.is_enabled());
    assert!(!off.is_enabled());
    assert!(error.is_enabled());
}

#[test]
fn test_enabled_rules() {
    let json = r#"{
            "rules": {
                "enabled-rule": true,
                "disabled-rule": false,
                "options-rule": { "option": "value" }
            }
        }"#;

    let config = LinterConfig::from_json(json).unwrap();
    let enabled = config.enabled_rules();

    assert_eq!(enabled.len(), 2);
}

#[test]
fn enabled_rules_are_exactly_the_rules_that_are_on() {
    let mut config = LinterConfig::new();
    config.rules.insert("a".to_string(), RuleConfig::Enabled(true));
    config.rules.insert("b".to_string(), RuleConfig::Enabled(false));
    config.rules.insert("c".to_string(), RuleConfig::Severity("off".to_string()));
    config.rules.insert("d".to_string(), RuleConfig::Severity("warning".to_string()));
    config.rules.insert("e".to_string(), RuleConfig::Options(serde_json::Value::Null));
    let names: Vec<&str> = config.enabled_rules().iter().map(|(name, _)| *name).collect();
    assert_eq!(names, vec!["a", "d", "e"]);
    for (name, rule) in config.enabled_rules() {
        assert!(rule.is_enabled(), "{}", name);
    }
}

#[test]
fn options_of_a_rule() {
    let value: serde_json::Value = serde_json::from_str(r#"{"max":100}"#).unwrap();
    let with_options = RuleConfig::Options(value.clone());
    assert!(with_options.is_enabled());
    assert_eq!(with_options.options(), value);
    assert_eq!(RuleConfig::Enabled(true).options(), serde_json::Value::Null);
    assert_eq!(RuleConfig::Severity("error".to_string()).options(), serde_json::Value::Null);
}

#[test]
fn defaults() {
    assert!(default_cache());
    assert_eq!(default_cache_dir(), ".texide-cache");
    let config = LinterConfig::default();
    assert!(config.rules.is_empty());
    assert!(config.plugins.is_empty());
    assert!(config.includes.is_empty());
    assert!(config.exclude.is_empty());
    assert!(config.cache);
    assert_eq!(config.cache_dir, ".texide-cache");
}

#[test]
fn from_json_reads_every_field() {
    let json = r#"{
        "rules": { "no-todo": true, "quiet": "off", "loud": "error", "limit": { "max": 3 }, "n": 7 },
        "plugins": ["rules/a.wasm", "b"],
        "include": ["**/*.md"],
        "exclude": ["**/node_modules/**", "draft/*"],
        "cache": false,
        "cache_dir": ".cache/lint"
    }"#;
    let config = LinterConfig::from_json(json).unwrap();
    assert_eq!(config.rules.len(), 5);
    assert!(matches!(config.rules.get("no-todo"), Some(RuleConfig::Enabled(true))));
    assert!(matches!(config.rules.get("quiet"), Some(RuleConfig::Severity(s)) if s == "off"));
    assert!(matches!(config.rules.get("loud"), Some(RuleConfig::Severity(s)) if s == "error"));
    match config.rules.get("limit") {
        Some(RuleConfig::Options(value)) => assert_eq!(value.to_string(), r#"{"max":3}"#),
        _ => panic!("an object is the rule's options"),
    }
    match config.rules.get("n") {
        Some(RuleConfig::Options(value)) => assert_eq!(value.to_string(), "7"),
        _ => panic!("a number is the rule's options"),
    }
    assert!(config.rules.get("absent").is_none());
    assert_eq!(config.plugins, vec!["rules/a.wasm", "b"]);
    assert_eq!(config.includes, vec!["**/*.md"]);
    assert_eq!(config.exclude, vec!["**/node_modules/**", "draft/*"]);
    assert!(!config.cache);
    assert_eq!(config.cache_dir, ".cache/lint");
}

#[test]
fn from_json_fills_in_defaults_and_passes_over_other_members() {
    let config = LinterConfig::from_json(r#"{"something": [1, 2], "else": null}"#).unwrap();
    assert!(config.rules.is_empty());
    assert!(config.plugins.is_empty());
    assert!(config.includes.is_empty());
    assert!(config.exclude.is_empty());
    assert!(config.cache);
    assert_eq!(config.cache_dir, ".texide-cache");
}

fn failure(json: &str) -> String {
    match LinterConfig::from_json(json) {
        Ok(_) => panic!("must be refused: {}", json),
        Err(e) => {
            assert_eq!(e.kind, ErrorKind::Config);
            e.message
        }
    }
}

#[test]
fn from_json_refuses_what_is_no_configuration() {
    assert_eq!(failure("[]"), "Invalid config: the configuration is not an object");
    assert_eq!(failure("3"), "Invalid config: the configuration is not an object");
    assert_eq!(failure(r#"{"rules": []}"#), "Invalid config: `rules` is not an object");
    assert_eq!(failure(r#"{"plugins": "a"}"#), "Invalid config: `plugins` is not a list of strings");
    assert_eq!(failure(r#"{"include": [1]}"#), "Invalid config: `include` is not a list of strings");
    assert_eq!(
        failure(r#"{"exclude": ["a", null]}"#),
        "Invalid config: `exclude` is not a list of strings"
    );
    assert_eq!(failure(r#"{"cache": "yes"}"#), "Invalid config: `cache` is not a boolean");
    assert_eq!(failure(r#"{"cache_dir": 1}"#), "Invalid config: `cache_dir` is not a string");
    assert_eq!(
        failure(r#"{"cache_dir": 1, "rules": 2}"#),
        "Invalid config: `rules` is not an object"
    );
}

#[test]
fn from_json_refuses_what_is_no_json() {
    let message = failure("{ not json");
    assert!(message.starts_with("Invalid config: "));
    assert!(message.len() > "Invalid config: ".len());
    let expected = serde_json::from_str::<serde_json::Value>("{ not json").unwrap_err().to_string();
    assert_eq!(message, format!("Invalid config: {}", expected));
}

#[test]
fn from_value_reads_a_value() {
    let value: serde_json::Value = serde_json::from_str(r#"{"cache": false}"#).unwrap();
    let config = LinterConfig::from_value(&value).unwrap();
    assert!(!config.cache);
    let rule: serde_json::Value = serde_json::from_str("\"warn\"").unwrap();
    assert!(matches!(LinterConfig::read_rule(&rule), RuleConfig::Severity(s) if s == "warn"));
}

#[test]
fn canonical_text_has_the_rules_in_the_order_of_their_names() {
    let mut config = LinterConfig::new();
    config.rules.insert("zeta".to_string(), RuleConfig::Enabled(true));
    config.rules.insert("alpha".to_string(), RuleConfig::Severity("error".to_string()));
    config.rules.insert(
        "mid".to_string(),
        RuleConfig::Options(serde_json::from_str(r#"{"b": 1, "a": [true, null]}"#).unwrap()),
    );
    config.plugins.push("p.wasm".to_string());
    config.includes.push("**/*.md".to_string());
    config.includes.push("*.txt".to_string());
    config.cache = false;
    config.cache_dir = "dir \"x\"\n".to_string();
    assert_eq!(
        config.to_canonical_text(),
        r#"{"rules":{"alpha":"error","mid":{"a":[true,null],"b":1},"zeta":true},"plugins":["p.wasm"],"include":["**/*.md","*.txt"],"exclude":[],"cache":false,"cache_dir":"dir \"x\"\n"}"#
    );
}

#[test]
fn canonical_text_of_the_empty_configuration() {
    assert_eq!(
        LinterConfig::new().to_canonical_text(),
        r#"{"rules":{},"plugins":[],"include":[],"exclude":[],"cache":true,"cache_dir":".texide-cache"}"#
    );
}

#[test]
fn hash_is_the_hash_of_the_canonical_text() {
    let mut config = LinterConfig::new();
    config.rules.insert("no-todo".to_string(), RuleConfig::Enabled(true));
    let text = config.to_canonical_text();
    assert_eq!(config.hash(), blake3::hash(text.as_bytes()).to_hex().to_string());
    assert_eq!(config.hash().len(), 64);
    assert!(config.hash().chars().all(|c| c.is_ascii_digit() || ('a'..='f').contains(&c)));
}

#[test]
fn hash_does_not_depend_on_the_order_of_the_rules() {
    let mut first = LinterConfig::new();
    first.rules.insert("a".to_string(), RuleConfig::Enabled(true));
    first.rules.insert("b".to_string(), RuleConfig::Enabled(false));
    let mut second = LinterConfig::new();
    second.rules.insert("b".to_string(), RuleConfig::Enabled(false));
    second.rules.insert("a".to_string(), RuleConfig::Enabled(true));
    assert_eq!(first.hash(), second.hash());
}

#[test]
fn hash_changes_with_the_configuration() {
    let mut first = LinterConfig::new();
    first.rules.insert("no-todo".to_string(), RuleConfig::Enabled(true));
    let mut second = LinterConfig::new();
    second.rules.insert("no-todo".to_string(), RuleConfig::Enabled(false));
    assert_ne!(first.hash(), second.hash());
    let mut third = LinterConfig::new();
    third.cache_dir = "elsewhere".to_string();
    assert_ne!(LinterConfig::new().hash(), third.hash());
    assert_eq!(LinterConfig::new().hash(), LinterConfig::default().hash());
}

#[test]
fn no_rule_is_listed_twice() {
    let mut config = LinterConfig::new();
    config.rules.insert("a".to_string(), RuleConfig::Enabled(true));
    config.rules.insert("b".to_string(), RuleConfig::Enabled(true));
    config.rules.insert("a".to_string(), RuleConfig::Severity("error".to_string()));
    assert_eq!(config.rules.len(), 2);
    let names: Vec<&str> = config.enabled_rules().iter().map(|(name, _)| *name).collect();
    assert_eq!(names, vec!["a", "b"]);
    let read = LinterConfig::from_json(r#"{"rules": {"a": true, "a": false, "b": true}}"#).unwrap();
    assert_eq!(read.rules.len(), 2);
    let names: Vec<&str> = read.enabled_rules().iter().map(|(name, _)| *name).collect();
    assert_eq!(names, vec!["b"]);
}
