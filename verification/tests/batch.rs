use texide::ast::Span;
use texide::batch::{BatchAction, FileRead, LintBatch};
use texide::config::LinterConfig;
use texide::diagnostic::Diagnostic;
use texide::error::ErrorKind;
use texide::linter::Linter;
use texide::paths::{FoundPath, PathPart};
use texide::plugin::{RuleManifest, RuleOutcome};
use texide::result::LintResult;

fn engine() -> Linter {
    let mut linter = Linter::new(LinterConfig::new()).unwrap();
    linter.load_rule(RuleManifest::new("no-todo", "1.0.0")).unwrap();
    linter
}

fn strings(list: &[&str]) -> Vec<String> {
    list.iter().map(|s| s.to_string()).collect()
}

/// Performs a batch on files held in memory; a rule that flags every file
/// whose content holds "TODO".
fn perform(linter: &mut Linter, mut batch: LintBatch, files: &[(&str, &str)]) -> (Vec<LintResult>, Vec<String>, usize) {
    let mut log = Vec::new();
    let mut saves = 0;
    loop {
        match batch.action() {
            BatchAction::Read(path) => match files.iter().find(|(p, _)| *p == path) {
                None => {
                    log.push(format!("unreadable {}", path));
                    batch.file_unreadable();
                }
                Some((_, content)) => match batch.file_read(linter, content) {
                    FileRead::Cached => log.push(format!("cached {}", path)),
                    FileRead::Skipped(e) => log.push(format!("skipped {}: {}", path, e.message)),
                    FileRead::Run(pending) => {
                        assert_eq!(pending.path, path);
                        let found = if content.contains("TODO") {
                            vec![Diagnostic::new("no-todo", "found TODO", Span::new(0, 4))]
                        } else {
                            vec![]
                        };
                        let failed = batch.rules_ran(linter, pending, &vec![RuleOutcome::Completed(found)], 1);
                        assert!(failed.is_none());
                        log.push(format!("linted {}", path));
                    }
                },
            },
            BatchAction::Save => {
                saves += 1;
                batch.cache_saved();
            }
            BatchAction::Done => return (batch.into_results(), log, saves),
        }
    }
}

#[test]
fn results_follow_the_order_of_the_files() {
    let mut linter = engine();
    let files = [("b.md", "TODO"), ("a.md", "fine"), ("c.txt", "TODO too")];
    let batch = linter.lint_files(strings(&["b.md", "missing.md", "a.md", "c.txt"]));
    assert_eq!(batch.file_count(), 4);
    let (results, log, saves) = perform(&mut linter, batch, &files);
    let paths: Vec<&str> = results.iter().map(|r| r.path.as_str()).collect();
    assert_eq!(paths, vec!["b.md", "a.md", "c.txt"]);
    assert_eq!(results[0].diagnostics.len(), 1);
    assert_eq!(results[1].diagnostics.len(), 0);
    assert_eq!(results[2].diagnostics.len(), 1);
    assert!(results.iter().all(|r| !r.from_cache));
    assert_eq!(log, vec!["linted b.md", "unreadable missing.md", "linted a.md", "linted c.txt"]);
    assert_eq!(saves, 1);
}

#[test]
fn the_second_batch_is_answered_from_the_cache() {
    let mut linter = engine();
    let files = [("a.md", "# TODO")];
    let batch = linter.lint_files(strings(&["a.md"]));
    let (first, _, _) = perform(&mut linter, batch, &files);
    let batch = linter.lint_files(strings(&["a.md"]));
    let (second, log, _) = perform(&mut linter, batch, &files);
    assert_eq!(log, vec!["cached a.md"]);
    assert!(!first[0].from_cache);
    assert!(second[0].from_cache);
    assert_eq!(format!("{:?}", first[0].diagnostics), format!("{:?}", second[0].diagnostics));

    let changed = [("a.md", "# DONE")];
    let batch = linter.lint_files(strings(&["a.md"]));
    let (third, log, _) = perform(&mut linter, batch, &changed);
    assert_eq!(log, vec!["linted a.md"]);
    assert!(!third[0].from_cache);
    assert!(third[0].diagnostics.is_empty());
}

#[test]
fn an_empty_batch_saves_and_ends() {
    let mut linter = engine();
    let mut batch = linter.lint_files(vec![]);
    assert!(matches!(batch.action(), BatchAction::Save));
    batch.file_unreadable();
    assert!(matches!(batch.file_read(&linter, "x"), FileRead::Skipped(e) if e.kind == ErrorKind::Internal));
    assert!(matches!(batch.action(), BatchAction::Save));
    batch.cache_saved();
    assert!(matches!(batch.action(), BatchAction::Done));
    assert_eq!(batch.result_count(), 0);
    assert!(batch.into_results().is_empty());
    let _ = &mut linter;
}

#[test]
fn outcomes_that_do_not_match_leave_the_file_out() {
    let mut linter = engine();
    let mut batch = linter.lint_files(strings(&["a.md", "b.md"]));
    let pending = match batch.file_read(&linter, "x") {
        FileRead::Run(pending) => pending,
        _ => panic!("the rules are to be run"),
    };
    let error = batch.rules_ran(&mut linter, pending, &vec![], 0).unwrap();
    assert_eq!(error.kind, ErrorKind::Internal);
    assert_eq!(batch.result_count(), 0);
    assert!(matches!(batch.action(), BatchAction::Read(p) if p == "b.md"));
    assert_eq!(linter.cache.len(), 0);
}

#[test]
fn a_pending_file_of_another_path_is_left_out() {
    let mut linter = engine();
    let mut batch = linter.lint_files(strings(&["a.md"]));
    let other = match linter.begin_file("z.md", "x") {
        texide::linter::FileStep::Run(pending) => pending,
        _ => panic!("the rules are to be run"),
    };
    let error = batch.rules_ran(&mut linter, other, &vec![RuleOutcome::Completed(vec![])], 0).unwrap();
    assert_eq!(error.kind, ErrorKind::Internal);
    assert!(matches!(batch.action(), BatchAction::Save));
}

#[test]
fn patterns_choose_the_files_of_a_batch() {
    let mut config = LinterConfig::new();
    config.exclude = strings(&["**/skip/**"]);
    let mut linter = Linter::new(config).unwrap();
    let found: Vec<FoundPath> = ["./z.md", "./skip/b.md", "./a.md", "./notes.txt", "./a.md"]
        .iter()
        .map(|p| FoundPath {
            text: p.to_string(),
            components: p
                .split('/')
                .map(|part| PathPart { rank: if part == "." { 2 } else { 4 }, name: part.to_string() })
                .collect(),
        })
        .collect();
    let files = [("./a.md", "x"), ("./z.md", "TODO")];
    let batch = linter.lint_patterns(&strings(&["**/*.md"]), &found).unwrap();
    assert_eq!(batch.file_count(), 2);
    let mut plain = Linter::new(LinterConfig::new()).unwrap();
    let _ = &mut plain;
    let mut log = Vec::new();
    let mut batch = batch;
    loop {
        match batch.action() {
            BatchAction::Read(path) => {
                log.push(path.clone());
                let content = files.iter().find(|(p, _)| *p == path).unwrap().1;
                match batch.file_read(&linter, content) {
                    FileRead::Run(pending) => {
                        assert!(batch.rules_ran(&mut linter, pending, &vec![], 0).is_none());
                    }
                    _ => panic!("nothing is cached"),
                }
            }
            BatchAction::Save => batch.cache_saved(),
            BatchAction::Done => break,
        }
    }
    assert_eq!(log, vec!["./a.md", "./z.md"]);
    let error = linter.lint_patterns(&strings(&["["]), &found);
    assert!(matches!(error, Err(e) if e.kind == ErrorKind::Config));
}

#[test]
fn a_crash_on_a_later_file_does_not_stop_the_batch() {
    let mut linter = engine();
    let mut batch = linter.lint_files(strings(&["a.md", "b.md", "c.md"]));
    let mut step = 0;
    loop {
        match batch.action() {
            BatchAction::Read(path) => {
                let pending = match batch.file_read(&linter, "text") {
                    FileRead::Run(pending) => pending,
                    _ => panic!("the rules are to be run"),
                };
                assert_eq!(pending.path, path);
                let outcome = if step == 1 {
                    RuleOutcome::Crashed("trap".to_string())
                } else {
                    RuleOutcome::Completed(vec![])
                };
                assert!(batch.rules_ran(&mut linter, pending, &vec![outcome], 0).is_none());
                step += 1;
            }
            BatchAction::Save => batch.cache_saved(),
            BatchAction::Done => break,
        }
    }
    let results = batch.into_results();
    let seen: Vec<(&str, usize)> =
        results.iter().map(|r| (r.path.as_str(), r.diagnostics.len())).collect();
    assert_eq!(seen, vec![("a.md", 0), ("b.md", 1), ("c.md", 0)]);
    assert_eq!(results[1].diagnostics[0].message, "rule crashed: trap");
    assert_eq!(results[1].diagnostics[0].rule_id, "no-todo");
}
