use texide::ast::Span;
use texide::config::{LinterConfig, RuleConfig};
use texide::diagnostic::{Diagnostic, Severity};
use texide::error::ErrorKind;
use texide::linter::{Candidate, FileStep, Linter, ParserChoice, PendingFile, Verdict};
use texide::paths::{compare_components, insert_path, FoundPath, PathPart};
use texide::order::Order;
use texide::plugin::{RuleManifest, RuleOutcome};
use std::path::{Component, Path, PathBuf};

#[test]
fn test_linter_new() {
    let config = LinterConfig::new();
    let linter = Linter::new(config);
    assert!(linter.is_ok());
}

#[test]
fn test_build_globset() {
    let patterns = vec!["**/*.md".to_string(), "*.txt".to_string()];
    let result = Linter::build_globset(&patterns);
    assert!(result.is_ok());
    assert!(result.unwrap().is_some());
}

#[test]
fn test_build_globset_empty() {
    let patterns: Vec<String> = vec![];
    let result = Linter::build_globset(&patterns);
    assert!(result.is_ok());
    assert!(result.unwrap().is_none());
}

#[test]
fn an_invalid_glob_is_a_configuration_error() {
    let error = Linter::build_globset(&vec!["a{b".to_string()]).unwrap_err();
    assert_eq!(error.kind, ErrorKind::Config);
    assert!(error.message.starts_with("Invalid glob pattern: "));
    let mut config = LinterConfig::new();
    config.exclude.push("[".to_string());
    match Linter::new(config) {
        Err(e) => assert_eq!(e.kind, ErrorKind::Config),
        Ok(_) => panic!("the exclude glob cannot be compiled"),
    }
}

#[test]
fn globs_that_cannot_be_compiled_are_refused_with_what_is_wrong() {
    let bracket = globset::Glob::new("[").unwrap_err().to_string();
    let brace = globset::Glob::new("a{b").unwrap_err().to_string();
    let error =
        Linter::build_globset(&vec!["*.md".to_string(), "a{b".to_string(), "[".to_string()])
            .unwrap_err();
    assert_eq!(error.kind, ErrorKind::Config);
    assert_eq!(error.message, format!("Invalid glob pattern: {}", brace));

    let mut config = LinterConfig::new();
    config.exclude.push("[".to_string());
    match Linter::new(config) {
        Err(e) => assert_eq!(e.message, format!("Invalid glob pattern: {}", bracket)),
        Ok(_) => panic!("the exclude glob cannot be compiled"),
    }
    let mut config = LinterConfig::new();
    config.includes.push("a{b".to_string());
    config.exclude.push("[".to_string());
    match Linter::new(config) {
        Err(e) => assert_eq!(e.message, format!("Invalid glob pattern: {}", brace)),
        Ok(_) => panic!("the include glob cannot be compiled"),
    }
    let mut config = LinterConfig::new();
    config.includes.push("**/*.md".to_string());
    config.exclude.push("**/draft/**".to_string());
    assert!(Linter::new(config).is_ok());
}

#[test]
fn a_verdict_holds_the_answer_of_each_set_in_its_field() {
    let mut config = LinterConfig::new();
    config.includes.push("docs/**".to_string());
    config.exclude.push("**/draft/**".to_string());
    let linter = Linter::new(config).unwrap();
    let pattern = Linter::compile_pattern("**/*.md").unwrap();
    let seen = |path: &str| {
        let v = linter.judge(&pattern, path);
        (v.matches, v.included, v.excluded)
    };
    assert_eq!(seen("docs/a.md"), (true, true, false));
    assert_eq!(seen("docs/a.txt"), (false, true, false));
    assert_eq!(seen("src/a.md"), (true, false, false));
    assert_eq!(seen("docs/draft/a.md"), (true, true, true));
    assert_eq!(seen("src/draft/a.txt"), (false, false, true));
    let plain = Linter::new(LinterConfig::new()).unwrap();
    let v = plain.judge(&pattern, "src/draft/a.txt");
    assert_eq!((v.matches, v.included, v.excluded), (false, true, false));
}

#[test]
fn the_extension_of_the_path_chooses_the_parser() {
    let linter = engine(&[]);
    for (path, markdown) in [
        ("a.md", true),
        ("dir.txt/b.markdown", true),
        ("c.MKD", true),
        ("d.md.txt", false),
        ("md", false),
        (".md", false),
        ("dir.md/e", false),
        ("f.", false),
    ] {
        let file = pending(linter.begin_file(path, "# T"));
        assert_eq!(file.ast_json.contains("\"type\":\"header\""), markdown, "{}", path);
    }
}

#[test]
fn new_engine_follows_the_configuration() {
    let mut config = LinterConfig::new();
    config.cache = false;
    config.cache_dir = "elsewhere".to_string();
    config.includes.push("**/*.md".to_string());
    let linter = Linter::new(config).unwrap();
    assert!(!linter.cache.is_enabled());
    assert_eq!(linter.cache.cache_dir, "elsewhere");
    assert_eq!(linter.cache.len(), 0);
    assert!(linter.plugin_host.loaded_rules().is_empty());
    assert!(linter.include_globs.is_some());
    assert!(linter.exclude_globs.is_none());
    let plain = Linter::new(LinterConfig::new()).unwrap();
    assert!(plain.cache.is_enabled());
    assert!(plain.include_globs.is_none());
}

#[test]
fn parser_by_extension() {
    let linter = Linter::new(LinterConfig::new()).unwrap();
    for extension in ["md", "markdown", "mdown", "mkdn", "mkd", "MD", "Markdown"] {
        assert_eq!(linter.select_parser(extension), ParserChoice::Markdown, "{}", extension);
    }
    for extension in ["txt", "text", "TXT", "", "rs", "mdx", "m d"] {
        assert_eq!(linter.select_parser(extension), ParserChoice::PlainText, "{}", extension);
    }
}

fn engine(rules: &[(&str, &str)]) -> Linter {
    let mut linter = Linter::new(LinterConfig::new()).unwrap();
    for (name, version) in rules {
        linter.load_rule(RuleManifest::new(name, version)).unwrap();
    }
    linter
}

fn pending(step: FileStep) -> PendingFile {
    match step {
        FileStep::Run(pending) => pending,
        other => panic!("the rules are to be run, not {:?}", other),
    }
}

fn flagged() -> Diagnostic {
    Diagnostic::new("no-todo", "found TODO", Span::new(2, 6)).with_severity(Severity::Warning)
}

fn summary(list: &[Diagnostic]) -> Vec<(String, String, Span, Option<Severity>)> {
    list.iter().map(|d| (d.rule_id.clone(), d.message.clone(), d.span, d.severity)).collect()
}

#[test]
fn load_rule_registers_once() {
    let mut linter = engine(&[("a", "1")]);
    assert_eq!(linter.load_rule(RuleManifest::new("a", "2")).unwrap_err().kind, ErrorKind::Plugin);
    assert_eq!(linter.load_rule(RuleManifest::new("", "2")).unwrap_err().kind, ErrorKind::Plugin);
    linter.load_rule(RuleManifest::new("b", "2")).unwrap();
    assert_eq!(linter.plugin_host.loaded_rules(), vec!["a", "b"]);
    assert_eq!(
        linter.get_rule_versions().pairs().clone(),
        vec![("a".to_string(), "1".to_string()), ("b".to_string(), "2".to_string())]
    );
}

#[test]
fn a_new_file_is_parsed_and_handed_to_the_rules() {
    let linter = engine(&[("no-todo", "1.0.0")]);
    let file = pending(linter.begin_file_as("a.md", "md", "# TODO"));
    assert_eq!(file.path, "a.md");
    assert_eq!(file.content_hash, blake3::hash(b"# TODO").to_hex().to_string());
    assert_eq!(file.config_hash, linter.config.hash());
    assert_eq!(*file.rule_versions.pairs(), vec![("no-todo".to_string(), "1.0.0".to_string())]);
    assert_eq!(
        file.ast_json,
        r#"{"type":"document","range":[0,6],"children":[{"type":"header","range":[0,6],"children":[{"type":"str","range":[2,6],"children":[],"value":"TODO"}],"depth":1}]}"#
    );
}

#[test]
fn the_extension_chooses_the_parser() {
    let linter = engine(&[]);
    let as_text = pending(linter.begin_file_as("a.txt", "txt", "# TODO"));
    assert_eq!(
        as_text.ast_json,
        r##"{"type":"document","range":[0,6],"children":[{"type":"paragraph","range":[0,6],"children":[{"type":"str","range":[0,6],"children":[],"value":"# TODO"}]}]}"##
    );
    let by_path = pending(linter.begin_file("notes/a.MD", "# TODO"));
    assert!(by_path.ast_json.contains("\"type\":\"header\""));
    let unknown = pending(linter.begin_file("notes/a.rst", "# TODO"));
    assert!(unknown.ast_json.contains("\"type\":\"paragraph\""));
    let none = pending(linter.begin_file("README", "# TODO"));
    assert!(none.ast_json.contains("\"type\":\"paragraph\""));
}

#[test]
fn the_second_run_is_answered_from_the_cache() {
    let mut linter = engine(&[("no-todo", "1.0.0")]);
    let file = pending(linter.begin_file_as("a.md", "md", "# TODO"));
    let first = linter.finish_file(file, &vec![RuleOutcome::Completed(vec![flagged()])], 5).unwrap();
    assert!(!first.from_cache);
    assert_eq!(first.path, "a.md");
    assert_eq!(summary(&first.diagnostics), summary(&[flagged()]));
    assert_eq!(linter.cache.len(), 1);
    assert_eq!(linter.cache.get("a.md").unwrap().timestamp, 5);

    match linter.begin_file_as("a.md", "md", "# TODO") {
        FileStep::Cached(second) => {
            assert!(second.from_cache);
            assert_eq!(second.path, "a.md");
            assert_eq!(summary(&second.diagnostics), summary(&first.diagnostics));
        }
        other => panic!("the result is in the cache, not {:?}", other),
    }
}

#[test]
fn a_changed_configuration_is_not_answered_from_the_cache() {
    let mut config = LinterConfig::new();
    config.rules.insert("no-todo".to_string(), RuleConfig::Enabled(true));
    let mut linter = Linter::new(config).unwrap();
    linter.load_rule(RuleManifest::new("no-todo", "1.0.0")).unwrap();
    let file = pending(linter.begin_file_as("a.md", "md", "# TODO"));
    linter.finish_file(file, &vec![RuleOutcome::Completed(vec![flagged()])], 0).unwrap();
    assert!(matches!(linter.begin_file_as("a.md", "md", "# TODO"), FileStep::Cached(_)));

    linter.config.rules.insert("no-todo".to_string(), RuleConfig::Enabled(false));
    let again = pending(linter.begin_file_as("a.md", "md", "# TODO"));
    let second = linter.finish_file(again, &vec![RuleOutcome::Completed(vec![])], 0).unwrap();
    assert!(!second.from_cache);
    assert!(second.diagnostics.is_empty());
}

#[test]
fn changed_content_or_rules_are_not_answered_from_the_cache() {
    let mut linter = engine(&[("no-todo", "1.0.0")]);
    let file = pending(linter.begin_file_as("a.md", "md", "# TODO"));
    linter.finish_file(file, &vec![RuleOutcome::Completed(vec![flagged()])], 0).unwrap();

    assert!(matches!(linter.begin_file_as("a.md", "md", "# TODO!"), FileStep::Run(_)));
    assert!(matches!(linter.begin_file_as("b.md", "md", "# TODO"), FileStep::Run(_)));
    assert!(matches!(linter.begin_file_as("a.md", "md", "# TODO"), FileStep::Cached(_)));

    linter.load_rule(RuleManifest::new("other", "0.1.0")).unwrap();
    assert!(matches!(linter.begin_file_as("a.md", "md", "# TODO"), FileStep::Run(_)));

    let mut newer = engine(&[("no-todo", "1.0.1")]);
    let file = pending(engine(&[("no-todo", "1.0.0")]).begin_file_as("a.md", "md", "# TODO"));
    newer.cache.set(
        "a.md".to_string(),
        texide::cache::CacheEntry::new(
            file.content_hash,
            file.config_hash,
            file.rule_versions,
            vec![flagged()],
            0,
        ),
    );
    assert!(matches!(newer.begin_file_as("a.md", "md", "# TODO"), FileStep::Run(_)));
}

#[test]
fn the_entry_keeps_the_time_it_was_given() {
    let mut linter = engine(&[]);
    let file = pending(linter.begin_file_as("a.md", "md", "x"));
    linter.finish_file(file, &vec![], 1_700_000_000).unwrap();
    assert_eq!(linter.cache.get("a.md").unwrap().timestamp, 1_700_000_000);
    let file = pending(linter.begin_file_as("a.md", "md", "y"));
    linter.finish_file(file, &vec![], 1_700_000_001).unwrap();
    assert_eq!(linter.cache.get("a.md").unwrap().timestamp, 1_700_000_001);
}

#[test]
fn a_cache_that_is_off_answers_nothing() {
    let mut config = LinterConfig::new();
    config.cache = false;
    let mut linter = Linter::new(config).unwrap();
    let file = pending(linter.begin_file_as("a.md", "md", "x"));
    linter.finish_file(file, &vec![], 0).unwrap();
    assert!(matches!(linter.begin_file_as("a.md", "md", "x"), FileStep::Run(_)));
}

#[test]
fn a_crashed_rule_does_not_stop_the_file() {
    let mut linter = engine(&[("R-good", "1"), ("R-bad", "1")]);
    let file = pending(linter.begin_file_as("a.md", "md", "# TODO"));
    let good = Diagnostic::new("R-good", "found TODO", Span::new(2, 6));
    let result = linter
        .finish_file(
            file,
            &vec![
                RuleOutcome::Completed(vec![good.clone()]),
                RuleOutcome::Crashed("wasm trap: unreachable".to_string()),
            ],
            0,
        )
        .unwrap();
    assert_eq!(result.diagnostics.len(), 2);
    assert_eq!(result.diagnostics[0].rule_id, "R-good");
    assert_eq!(result.diagnostics[0].message, "found TODO");
    assert_eq!(result.diagnostics[1].rule_id, "R-bad");
    assert_eq!(result.diagnostics[1].message, "rule crashed: wasm trap: unreachable");
    assert!(!result.from_cache);
    match linter.begin_file_as("a.md", "md", "# TODO") {
        FileStep::Cached(cached) => assert_eq!(summary(&cached.diagnostics), summary(&result.diagnostics)),
        other => panic!("the file is cached, crash and all, not {:?}", other),
    }
}

#[test]
fn findings_of_the_first_rule_come_first() {
    let mut linter = engine(&[("A", "1"), ("B", "1")]);
    let file = pending(linter.begin_file_as("a.txt", "txt", "text"));
    let a = |m: &str| Diagnostic::new("A", m, Span::new(0, 1));
    let b = |m: &str| Diagnostic::new("B", m, Span::new(0, 1));
    let result = linter
        .finish_file(
            file,
            &vec![
                RuleOutcome::Completed(vec![a("1"), a("2")]),
                RuleOutcome::Completed(vec![b("1"), b("2")]),
            ],
            0,
        )
        .unwrap();
    let order: Vec<String> =
        result.diagnostics.iter().map(|d| format!("{}{}", d.rule_id, d.message)).collect();
    assert_eq!(order, vec!["A1", "A2", "B1", "B2"]);
}

#[test]
fn outcomes_that_do_not_match_the_rules_change_nothing() {
    let mut linter = engine(&[("A", "1")]);
    let file = pending(linter.begin_file_as("a.txt", "txt", "text"));
    let error = linter.finish_file(file, &vec![], 0).unwrap_err();
    assert_eq!(error.kind, ErrorKind::Internal);
    assert_eq!(linter.cache.len(), 0);
}

#[test]
fn linting_is_repeatable() {
    let linter = engine(&[("A", "1")]);
    let first = pending(linter.begin_file_as("a.md", "md", "# x\n\ny"));
    let second = pending(linter.begin_file_as("a.md", "md", "# x\n\ny"));
    assert_eq!(format!("{:?}", first), format!("{:?}", second));
    let outcomes = vec![RuleOutcome::Completed(vec![flagged(), flagged()])];
    let mut one = engine(&[("A", "1")]);
    let mut two = engine(&[("A", "1")]);
    let r1 = one.finish_file(first, &outcomes, 0).unwrap();
    let r2 = two.finish_file(second, &outcomes, 0).unwrap();
    assert_eq!(summary(&r1.diagnostics), summary(&r2.diagnostics));
}

fn found(path: &str) -> FoundPath {
    let components = Path::new(path)
        .components()
        .map(|c| PathPart {
            rank: match c {
                Component::Prefix(_) => 0,
                Component::RootDir => 1,
                Component::CurDir => 2,
                Component::ParentDir => 3,
                Component::Normal(_) => 4,
            },
            name: c.as_os_str().to_string_lossy().into_owned(),
        })
        .collect();
    FoundPath { text: path.to_string(), components }
}

fn found_all(list: &[&str]) -> Vec<FoundPath> {
    list.iter().map(|p| found(p)).collect()
}

fn texts(files: &[FoundPath]) -> Vec<String> {
    files.iter().map(|f| f.text.clone()).collect()
}

fn candidate(path: &str, matches: bool, included: bool, excluded: bool) -> Candidate {
    Candidate {
        pattern: 0,
        file: 0,
        path: found(path),
        verdict: Verdict { matches, included, excluded },
    }
}

#[test]
fn selection_is_sorted_and_without_repetition() {
    let files = Linter::select(&vec![
        candidate("b.md", true, true, false),
        candidate("a.md", true, true, false),
        candidate("c.md", false, true, false),
        candidate("b.md", true, true, false),
        candidate("a/b.md", true, true, false),
        candidate("a.b.md", true, true, false),
    ]);
    assert_eq!(texts(&files), vec!["a/b.md", "a.b.md", "a.md", "b.md"]);
    assert!(Linter::select(&vec![]).is_empty());
}

#[test]
fn a_directory_comes_before_a_sibling_whose_name_continues_it() {
    let files = Linter::select(&vec![
        candidate("./docs-old/x.md", true, true, false),
        candidate("./docs/x.md", true, true, false),
        candidate("./docs.md", true, true, false),
        candidate("./docs", true, true, false),
    ]);
    assert_eq!(texts(&files), vec!["./docs", "./docs/x.md", "./docs-old/x.md", "./docs.md"]);
    let kept = Linter::select(&vec![
        candidate("a.b", true, true, false),
        candidate("a/b", true, true, false),
    ]);
    assert_eq!(texts(&kept), vec!["a/b", "a.b"]);
}

#[test]
fn selection_is_in_the_order_of_paths() {
    let paths = [
        "./b.md", "./a/z.md", "./a.md", "./a-b/c.md", "./a/b/c.md", "./a", "./a/b.md", "./A.md",
        "/abs/x.md", "-dash.md", "../up.md", "./a//b.md", "./a/./b.md", "x/../y.md", "./é.md",
        "./a/b.md", "b.md", "./a b/c.md", ".hidden", "..", ".",
    ];
    let candidates: Vec<Candidate> = paths.iter().map(|p| candidate(p, true, true, false)).collect();
    let files = Linter::select(&candidates);
    let mut expected: Vec<PathBuf> = paths.iter().map(PathBuf::from).collect();
    expected.sort();
    expected.dedup();
    let selected: Vec<PathBuf> = files.iter().map(|f| PathBuf::from(&f.text)).collect();
    assert_eq!(selected, expected);
    for a in paths {
        for b in paths {
            let expected = match Path::new(a).cmp(Path::new(b)) {
                std::cmp::Ordering::Less => Order::Less,
                std::cmp::Ordering::Equal => Order::Equal,
                std::cmp::Ordering::Greater => Order::Greater,
            };
            let order = compare_components(&found(a).components, &found(b).components);
            assert_eq!(order, expected, "{:?} {:?}", a, b);
        }
    }
}

#[test]
fn a_path_is_put_at_its_place_once() {
    let mut files = Vec::new();
    for p in ["m/x", "a", "m", "m/x", "m.x", "z"] {
        insert_path(&mut files, found(p));
    }
    assert_eq!(texts(&files), vec!["a", "m", "m/x", "m.x", "z"]);
}

#[test]
fn exclusion_wins_over_inclusion() {
    let files = Linter::select(&vec![
        candidate("in.md", true, true, false),
        candidate("both.md", true, true, true),
        candidate("out.md", true, false, true),
        candidate("neither.md", true, false, false),
    ]);
    assert_eq!(texts(&files), vec!["in.md"]);
    assert!(Verdict { matches: true, included: true, excluded: false }.is_kept());
    assert!(!Verdict { matches: true, included: true, excluded: true }.is_kept());
    assert!(!Verdict { matches: false, included: true, excluded: false }.is_kept());
    assert!(!Verdict { matches: true, included: false, excluded: false }.is_kept());
}

fn strings(list: &[&str]) -> Vec<String> {
    list.iter().map(|s| s.to_string()).collect()
}

#[test]
fn discovery_with_globs() {
    let mut config = LinterConfig::new();
    config.includes = strings(&["**/docs/**", "**/docs-old/**", "**/README.md"]);
    config.exclude = strings(&["**/draft/**"]);
    let linter = Linter::new(config).unwrap();
    let paths = found_all(&[
        "./docs/b.md",
        "./docs-old/a.md",
        "./docs/a.md",
        "./docs/a.md",
        "./docs/notes.txt",
        "./docs/draft/c.md",
        "./src/d.md",
        "./README.md",
    ]);
    let files = linter.discover_files(&strings(&["**/*.md"]), &paths).unwrap();
    assert_eq!(
        texts(&files),
        vec!["./README.md", "./docs/a.md", "./docs/b.md", "./docs-old/a.md"]
    );
    let both = linter.discover_files(&strings(&["**/*.md", "**/*.txt", "**/a.*"]), &paths).unwrap();
    assert_eq!(
        texts(&both),
        vec!["./README.md", "./docs/a.md", "./docs/b.md", "./docs/notes.txt", "./docs-old/a.md"]
    );
    let reversed: Vec<FoundPath> = paths.iter().rev().cloned().collect();
    let again = linter.discover_files(&strings(&["**/a.*", "**/*.txt", "**/*.md"]), &reversed).unwrap();
    assert_eq!(texts(&again), texts(&both));
}

#[test]
fn discovery_without_globs_or_patterns() {
    let linter = Linter::new(LinterConfig::new()).unwrap();
    let paths = found_all(&["b.md", "a.md", "c.txt"]);
    assert_eq!(
        texts(&linter.discover_files(&strings(&["*.md"]), &paths).unwrap()),
        vec!["a.md", "b.md"]
    );
    assert!(linter.discover_files(&vec![], &paths).unwrap().is_empty());
    assert!(linter.discover_files(&strings(&["*.md"]), &vec![]).unwrap().is_empty());
}

#[test]
fn a_pattern_that_cannot_be_compiled_is_named() {
    let linter = Linter::new(LinterConfig::new()).unwrap();
    let paths = found_all(&["b.md", "a.md"]);
    let error = linter.discover_files(&strings(&["*.md", "a{"]), &paths).unwrap_err();
    assert_eq!(error.kind, ErrorKind::Config);
    let detail = globset::Glob::new("a{").unwrap_err().to_string();
    assert_eq!(error.message, format!("Invalid pattern 'a{{': {}", detail));
    let first = linter.judge_all(&strings(&["[", "a{"]), &paths).unwrap_err();
    let detail = globset::Glob::new("[").unwrap_err().to_string();
    assert_eq!(first.message, format!("Invalid pattern '[': {}", detail));
    assert_eq!(Linter::compile_pattern("a{").unwrap_err(), globset::Glob::new("a{").unwrap_err().to_string());
    assert!(Linter::compile_pattern("*.md").is_ok());
}

#[test]
fn verdicts_of_every_pattern_and_path() {
    let mut config = LinterConfig::new();
    config.exclude = strings(&["skip/*"]);
    let linter = Linter::new(config).unwrap();
    let candidates = linter
        .judge_all(&strings(&["*.md", "**/*.md"]), &found_all(&["a.md", "skip/b.md"]))
        .unwrap();
    let seen: Vec<(usize, usize, String, bool, bool, bool)> = candidates
        .iter()
        .map(|c| {
            let v = c.verdict;
            (c.pattern, c.file, c.path.text.clone(), v.matches, v.included, v.excluded)
        })
        .collect();
    assert_eq!(
        seen,
        vec![
            (0, 0, "a.md".to_string(), true, true, false),
            (0, 1, "skip/b.md".to_string(), true, true, true),
            (1, 0, "a.md".to_string(), true, true, false),
            (1, 1, "skip/b.md".to_string(), true, true, true),
        ]
    );
    let pattern = Linter::build_globset(&strings(&["docs/*.md"])).unwrap().unwrap();
    assert!(linter.judge(&pattern, "docs/a.md").matches);
    assert!(!linter.judge(&pattern, "a.md").matches);
}
