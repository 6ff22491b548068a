use texide::ast::Span;
use texide::diagnostic::{Diagnostic, Severity};
use texide::error::ErrorKind;
use texide::plugin::{PluginHost, RuleManifest, RuleOutcome};

fn host(names: &[&str]) -> PluginHost {
    let mut host = PluginHost::new();
    for name in names {
        host.register(RuleManifest::new(name, "1.0.0")).unwrap();
    }
    host
}

#[test]
fn rules_are_kept_in_load_order() {
    let host = host(&["zeta", "alpha", "mid"]);
    assert_eq!(host.loaded_rules(), vec!["zeta", "alpha", "mid"]);
    assert_eq!(PluginHost::new().loaded_rules(), Vec::<String>::new());
}

#[test]
fn a_name_can_be_taken_once() {
    let mut host = host(&["a"]);
    let error = host.register(RuleManifest::new("a", "2.0.0")).unwrap_err();
    assert_eq!(error.kind, ErrorKind::Plugin);
    assert_eq!(error.message, "a rule of this name is loaded: a");
    assert_eq!(host.loaded_rules(), vec!["a"]);
    assert_eq!(host.get_manifest("a").unwrap().version, "1.0.0");
}

#[test]
fn a_manifest_needs_a_name_and_a_version() {
    let mut host = PluginHost::new();
    assert!(!RuleManifest::new("", "1").is_valid());
    assert!(!RuleManifest::new("a", "").is_valid());
    assert!(RuleManifest::new("a", "1").is_valid());
    let error = host.register(RuleManifest::new("", "1.0.0")).unwrap_err();
    assert_eq!(error.kind, ErrorKind::Plugin);
    assert_eq!(host.register(RuleManifest::new("a", "")).unwrap_err().kind, ErrorKind::Plugin);
    assert!(host.loaded_rules().is_empty());
}

#[test]
fn manifests_and_versions_by_name() {
    let mut host = PluginHost::new();
    let mut manifest = RuleManifest::new("no-todo", "0.3.1");
    manifest.description = Some("flags TODO".to_string());
    manifest.supported_node_types = Some(vec!["str".to_string()]);
    host.register(manifest).unwrap();
    host.register(RuleManifest::new("other", "2.0.0")).unwrap();
    let found = host.get_manifest("no-todo").unwrap();
    assert_eq!(found.name, "no-todo");
    assert_eq!(found.version, "0.3.1");
    assert_eq!(found.description.as_deref(), Some("flags TODO"));
    assert!(host.get_manifest("absent").is_none());
    let versions = host.rule_versions();
    assert_eq!(
        *versions.pairs(),
        vec![("no-todo".to_string(), "0.3.1".to_string()), ("other".to_string(), "2.0.0".to_string())]
    );
}

fn found(rule: &str, message: &str) -> Diagnostic {
    Diagnostic::new(rule, message, Span::new(1, 2))
}

fn summary(list: &[Diagnostic]) -> Vec<(String, String)> {
    list.iter().map(|d| (d.rule_id.clone(), d.message.clone())).collect()
}

#[test]
fn findings_come_in_load_order() {
    let host = host(&["A", "B"]);
    let outcomes = vec![
        RuleOutcome::Completed(vec![found("A", "a1"), found("A", "a2")]),
        RuleOutcome::Completed(vec![found("B", "b1")]),
    ];
    let all = host.collect(&outcomes).unwrap();
    assert_eq!(
        summary(&all),
        vec![
            ("A".to_string(), "a1".to_string()),
            ("A".to_string(), "a2".to_string()),
            ("B".to_string(), "b1".to_string()),
        ]
    );
}

#[test]
fn a_crashed_rule_leaves_a_finding_and_the_others_count() {
    let host = host(&["R-good", "R-bad", "R-late"]);
    let outcomes = vec![
        RuleOutcome::Completed(vec![found("R-good", "left over")]),
        RuleOutcome::Crashed("unreachable executed".to_string()),
        RuleOutcome::Completed(vec![found("R-late", "late")]),
    ];
    let all = host.collect(&outcomes).unwrap();
    assert_eq!(all.len(), 3);
    assert_eq!(all[0].rule_id, "R-good");
    assert_eq!(all[0].message, "left over");
    assert_eq!(all[1].rule_id, "R-bad");
    assert_eq!(all[1].message, "rule crashed: unreachable executed");
    assert_eq!(all[1].span, Span::new(0, 0));
    assert_eq!(all[1].severity, Some(Severity::Error));
    assert_eq!(all[2].rule_id, "R-late");
}

#[test]
fn no_rules_no_findings() {
    assert!(PluginHost::new().collect(&vec![]).unwrap().is_empty());
    let host = host(&["a"]);
    assert!(host.collect(&vec![RuleOutcome::Completed(vec![])]).unwrap().is_empty());
}

#[test]
fn outcomes_must_match_the_rules() {
    let host = host(&["a", "b"]);
    let error = host.collect(&vec![RuleOutcome::Completed(vec![])]).unwrap_err();
    assert_eq!(error.kind, ErrorKind::Internal);
    assert_eq!(PluginHost::new().collect(&vec![RuleOutcome::Crashed("x".to_string())]).unwrap_err().kind, ErrorKind::Internal);
}

#[test]
fn crash_finding() {
    let d = PluginHost::crash_diagnostic("slow", "timed out");
    assert_eq!(d.rule_id, "slow");
    assert_eq!(d.message, "rule crashed: timed out");
}

fn completed(answer: &str) -> Vec<Diagnostic> {
    match RuleOutcome::from_answer(answer) {
        RuleOutcome::Completed(list) => list,
        RuleOutcome::Crashed(detail) => panic!("the answer is a list of findings: {}", detail),
    }
}

fn crashed(answer: &str) -> String {
    match RuleOutcome::from_answer(answer) {
        RuleOutcome::Completed(_) => panic!("the answer is no list of findings: {}", answer),
        RuleOutcome::Crashed(detail) => detail,
    }
}

#[test]
fn an_answer_lists_findings() {
    let list = completed(
        r#"[ { "rule": "no-todo", "message": "found TODO", "range": [2, 6], "severity": "warning" },
            { "range": [0, 4294967295], "message": "m", "rule": "r", "more": 1 },
            { "rule": "e", "message": "", "range": [7, 3], "severity": "error" },
            { "rule": "i", "message": "x", "range": [0, 0], "severity": "info" },
            { "rule": "n", "message": "x", "range": [0, 0], "severity": null } ]"#,
    );
    assert_eq!(list.len(), 5);
    assert_eq!(list[0].rule_id, "no-todo");
    assert_eq!(list[0].message, "found TODO");
    assert_eq!(list[0].span, Span::new(2, 6));
    assert_eq!(list[0].severity, Some(Severity::Warning));
    assert_eq!(list[1].rule_id, "r");
    assert_eq!(list[1].span, Span::new(0, 4294967295));
    assert_eq!(list[1].severity, None);
    assert_eq!(list[2].span, Span::new(7, 3));
    assert_eq!(list[2].severity, Some(Severity::Error));
    assert_eq!(list[3].severity, Some(Severity::Info));
    assert_eq!(list[4].severity, None);
    assert!(completed("[]").is_empty());
}

#[test]
fn an_answer_that_lists_no_findings_is_a_crash() {
    let not_a_list = "unreadable answer: not a list of findings";
    assert_eq!(crashed("{}"), not_a_list);
    assert_eq!(crashed("null"), not_a_list);
    assert_eq!(crashed("[1]"), not_a_list);
    assert_eq!(crashed(r#"[{"rule": "r", "message": "m"}]"#), not_a_list);
    assert_eq!(crashed(r#"[{"rule": "r", "range": [0, 1]}]"#), not_a_list);
    assert_eq!(crashed(r#"[{"message": "m", "range": [0, 1]}]"#), not_a_list);
    assert_eq!(crashed(r#"[{"rule": 1, "message": "m", "range": [0, 1]}]"#), not_a_list);
    assert_eq!(crashed(r#"[{"rule": "r", "message": "m", "range": [0]}]"#), not_a_list);
    assert_eq!(crashed(r#"[{"rule": "r", "message": "m", "range": [0, 1, 2]}]"#), not_a_list);
    assert_eq!(crashed(r#"[{"rule": "r", "message": "m", "range": [0, -1]}]"#), not_a_list);
    assert_eq!(crashed(r#"[{"rule": "r", "message": "m", "range": [0, 1.5]}]"#), not_a_list);
    assert_eq!(crashed(r#"[{"rule": "r", "message": "m", "range": [0, 4294967296]}]"#), not_a_list);
    assert_eq!(crashed(r#"[{"rule": "r", "message": "m", "range": "0-1"}]"#), not_a_list);
    assert_eq!(
        crashed(r#"[{"rule": "r", "message": "m", "range": [0, 1], "severity": "fatal"}]"#),
        not_a_list
    );
    assert_eq!(
        crashed(r#"[{"rule": "r", "message": "m", "range": [0, 1], "severity": 2}]"#),
        not_a_list
    );
    assert_eq!(
        crashed(r#"[{"rule": "r", "message": "m", "range": [0, 1]}, 3]"#),
        not_a_list
    );
}

#[test]
fn an_answer_that_is_no_json_is_a_crash() {
    let expected = serde_json::from_str::<serde_json::Value>("[").unwrap_err().to_string();
    assert_eq!(crashed("["), format!("unreadable answer: {}", expected));
}

#[test]
fn parts_of_a_finding() {
    let value: serde_json::Value = serde_json::from_str(r#"["a", [1, 2], "info", null]"#).unwrap();
    assert_eq!(texide::json::read_text(Some(&value[0])), Some("a".to_string()));
    assert_eq!(texide::json::read_text(Some(&value[1])), None);
    assert_eq!(texide::json::read_text(None), None);
    assert_eq!(RuleOutcome::read_range(Some(&value[1])), Some(Span::new(1, 2)));
    assert_eq!(RuleOutcome::read_range(Some(&value[0])), None);
    assert_eq!(RuleOutcome::read_range(None), None);
    assert_eq!(RuleOutcome::read_severity(Some(&value[2])), Some(Some(Severity::Info)));
    assert_eq!(RuleOutcome::read_severity(Some(&value[3])), Some(None));
    assert_eq!(RuleOutcome::read_severity(None), Some(None));
    assert_eq!(RuleOutcome::read_severity(Some(&value[0])), None);
    assert_eq!(RuleOutcome::read_severity(Some(&value[1])), None);
    assert!(RuleOutcome::read_finding(&value).is_none());
    assert!(RuleOutcome::read_findings(&value).is_none());
}

fn refused(json: &str) -> String {
    match RuleManifest::from_json(json) {
        Ok(_) => panic!("must be refused: {}", json),
        Err(e) => {
            assert_eq!(e.kind, ErrorKind::Plugin);
            e.message
        }
    }
}

#[test]
fn a_manifest_from_json() {
    let manifest = RuleManifest::from_json(
        r#"{ "name": "no-todo", "version": "0.3.1", "description": "flags TODO",
             "supported_node_types": ["str", "code"], "author": "someone" }"#,
    )
    .unwrap();
    assert_eq!(manifest.name, "no-todo");
    assert_eq!(manifest.version, "0.3.1");
    assert_eq!(manifest.description.as_deref(), Some("flags TODO"));
    assert_eq!(manifest.supported_node_types, Some(vec!["str".to_string(), "code".to_string()]));
    assert!(manifest.is_valid());
    let plain = RuleManifest::from_json(r#"{"version": "1", "name": "n"}"#).unwrap();
    assert_eq!(plain.name, "n");
    assert_eq!(plain.version, "1");
    assert_eq!(plain.description, None);
    assert_eq!(plain.supported_node_types, None);
    let none = RuleManifest::from_json(r#"{"version": "1", "name": "n", "supported_node_types": []}"#)
        .unwrap();
    assert_eq!(none.supported_node_types, Some(vec![]));
}

#[test]
fn what_is_no_manifest_is_refused() {
    assert_eq!(refused("[]"), "Invalid manifest: the manifest is not an object");
    assert_eq!(refused(r#"{"version": "1"}"#), "Invalid manifest: `name` is not a name");
    assert_eq!(refused(r#"{"name": "", "version": "1"}"#), "Invalid manifest: `name` is not a name");
    assert_eq!(refused(r#"{"name": 3, "version": "1"}"#), "Invalid manifest: `name` is not a name");
    assert_eq!(refused(r#"{"name": "n"}"#), "Invalid manifest: `version` is not a version");
    assert_eq!(
        refused(r#"{"name": "n", "version": ""}"#),
        "Invalid manifest: `version` is not a version"
    );
    assert_eq!(
        refused(r#"{"name": "n", "version": "1", "supported_node_types": "str"}"#),
        "Invalid manifest: `supported_node_types` is not a list of strings"
    );
    assert_eq!(
        refused(r#"{"name": "n", "version": "1", "description": 1}"#),
        "Invalid manifest: `description` is not a string"
    );
    let expected = serde_json::from_str::<serde_json::Value>("{").unwrap_err().to_string();
    assert_eq!(refused("{"), format!("Invalid manifest: {}", expected));
    let value: serde_json::Value = serde_json::from_str(r#"{"name": "n", "version": "2"}"#).unwrap();
    assert_eq!(RuleManifest::from_value(&value).unwrap().version, "2");
}
