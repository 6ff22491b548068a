//! The engine: parser choice, cache lookup, the view for the rules, the
//! gathering of their findings and the selection of the files to lint.
//!
//! Reading files and running rule modules are the caller's work.  For each
//! file the caller hands the content to [`Linter::begin_file`], which
//! answers from the cache or hands back what the rules are to be run on,
//! and then hands the outcomes of the rules to [`Linter::finish_file`].

use crate::ast::{AstArena, TxtNode, TxtTree};
use crate::cache::{CacheEntry, CacheManager};
use crate::config::LinterConfig;
use crate::diagnostic::{duplicate_all, views};
use crate::error::{ErrorKind, LinterError, ParseError};
use crate::globs::{
    builder_add, builder_build, builder_new, error_text, file_extension, glob_failure, glob_new,
    globs_accept, made_of, path_extension, set_failure, set_matches, set_sources,
};
use crate::hash::text_hash;
use crate::markdown_parser::MarkdownParser;
use crate::order::text_seq;
use crate::paths::{
    ascending, components_of, insert_path, lemma_components_lt_asymmetric, lists, same_path, Part,
    FoundPath,
};
use crate::parser::{accepts, is_outcome, Parser};
use crate::plugin::{gathered, versions_of, PluginHost, RuleManifest, RuleOutcome};
use crate::plugin_view::{ast_to_json, node_json};
use crate::result::LintResult;
use crate::table::{pair_texts, Table};
use crate::text_parser::PlainTextParser;
use vstd::prelude::*;
use vstd::string::*;

verus! {

/// The parser for a file.
#[derive(Clone, Copy, Debug, PartialEq, Eq, Structural)]
pub enum ParserChoice {
    Markdown,
    PlainText,
}

/// The parser for a file extension: Markdown for its extensions, plain
/// text for every other.
pub open spec fn choice_of(extension: Seq<char>) -> ParserChoice {
    if accepts(MarkdownParser.extensions_spec(), extension) {
        ParserChoice::Markdown
    } else {
        ParserChoice::PlainText
    }
}

/// What the chosen parser yields for a source.
pub open spec fn choice_outcome(choice: ParserChoice, source: Seq<char>) -> Result<
    TxtTree,
    Seq<char>,
> {
    match choice {
        ParserChoice::Markdown => MarkdownParser.outcome(source),
        ParserChoice::PlainText => PlainTextParser.outcome(source),
    }
}

/// What the matching of globs said of a path.
#[derive(Clone, Copy, Debug, PartialEq, Eq, Structural)]
pub struct Verdict {
    /// The path matches the pattern that is being looked for.
    pub matches: bool,
    /// The path matches an include glob, or there are no include globs.
    pub included: bool,
    /// The path matches an exclude glob.
    pub excluded: bool,
}

impl Verdict {
    /// The path is to be linted: it matches the pattern, is included and
    /// is not excluded.  An excluded path is left out whatever includes it.
    pub open spec fn kept(self) -> bool {
        self.matches && self.included && !self.excluded
    }

    pub fn is_kept(&self) -> (b: bool)
        ensures
            b == self.kept(),
    {
        self.matches && self.included && !self.excluded
    }
}

/// A path with the verdict on it for one pattern.
#[derive(Debug)]
pub struct Candidate {
    /// The place of the pattern among the patterns.
    pub pattern: usize,
    /// The place of the path among the paths.
    pub file: usize,
    pub path: FoundPath,
    pub verdict: Verdict,
}

/// The verdict of the globs on a path for one pattern: whether the pattern
/// matches it, whether an include glob matches it or there is none, and
/// whether an exclude glob matches it.
pub open spec fn verdict_on(
    includes: Option<globset::GlobSet>,
    excludes: Option<globset::GlobSet>,
    pattern: Seq<char>,
    path: Seq<char>,
) -> Verdict {
    Verdict {
        matches: globs_accept(seq![pattern], path),
        included: match includes {
            Some(set) => globs_accept(set_sources(set), path),
            None => true,
        },
        excluded: match excludes {
            Some(set) => globs_accept(set_sources(set), path),
            None => false,
        },
    }
}

/// The candidates are the verdicts on every pair of one of the first
/// `count` patterns and one of the paths: pattern after pattern, and for
/// each pattern path after path.
pub open spec fn judged(
    candidates: Seq<Candidate>,
    patterns: Seq<String>,
    count: nat,
    paths: Seq<FoundPath>,
    includes: Option<globset::GlobSet>,
    excludes: Option<globset::GlobSet>,
) -> bool {
    &&& count <= patterns.len()
    &&& candidates.len() == count * paths.len()
    &&& forall|k: int|
        0 <= k < candidates.len() ==> {
            let c = #[trigger] candidates[k];
            &&& c.pattern < count
            &&& c.file < paths.len()
            &&& k == c.pattern * paths.len() + c.file
            &&& same_path(c.path, paths[c.file as int])
            &&& c.verdict == verdict_on(
                includes,
                excludes,
                patterns[c.pattern as int]@,
                paths[c.file as int].text@,
            )
        }
}

/// What compiling one pattern into a set of its own fails with: what
/// parsing it fails with, or else what building the set fails with; `None`
/// where the pattern can be compiled.
pub open spec fn pattern_failure(pattern: Seq<char>) -> Option<Seq<char>> {
    match glob_failure(pattern) {
        Some(detail) => Some(detail),
        None => set_failure(seq![pattern]),
    }
}

/// Every one of the first `count` patterns can be compiled.
pub open spec fn all_compile(patterns: Seq<String>, count: int) -> bool {
    forall|j: int| 0 <= j < count ==> pattern_failure((#[trigger] patterns[j])@) is None
}

/// The error is that of the first pattern that cannot be compiled: a
/// configuration error that names the pattern and says what compiling it
/// fails with.
pub open spec fn is_pattern_error(patterns: Seq<String>, e: LinterError) -> bool {
    exists|i: int|
        0 <= i < patterns.len() && all_compile(patterns, i) && pattern_failure(
            (#[trigger] patterns[i])@,
        ) is Some && e.kind == ErrorKind::Config && e.message@ == pattern_message(
            patterns[i]@,
            pattern_failure(patterns[i]@)->Some_0,
        )
}

/// Every one of the first `count` patterns can be parsed as a glob.
pub open spec fn all_parse(patterns: Seq<String>, count: int) -> bool {
    forall|j: int| 0 <= j < count ==> glob_failure((#[trigger] patterns[j])@) is None
}

/// The globs can be compiled into one set: each can be parsed, and the set
/// of them can be built.  The empty list can.
pub open spec fn can_build(patterns: Seq<String>) -> bool {
    all_parse(patterns, patterns.len() as int) && (patterns.len() > 0 ==> set_failure(
        text_seq(patterns),
    ) is None)
}

/// The error is that of globs that cannot be compiled into one set: a
/// configuration error that says what parsing the first glob that cannot
/// be parsed fails with, or, where all can be parsed, what building the set
/// fails with.
pub open spec fn is_build_error(patterns: Seq<String>, e: LinterError) -> bool {
    &&& e.kind == ErrorKind::Config
    &&& patterns.len() > 0
    &&& {
        ||| exists|i: int|
            0 <= i < patterns.len() && all_parse(patterns, i) && glob_failure(
                (#[trigger] patterns[i])@,
            ) is Some && e.message@ == parse_failure(glob_failure(patterns[i]@)->Some_0)
        ||| all_parse(patterns, patterns.len() as int) && set_failure(text_seq(patterns)) is Some
            && e.message@ == build_failure(set_failure(text_seq(patterns))->Some_0)
    }
}

/// Some pattern accepts the path at the place `j`, with these components,
/// and the path is kept.
pub open spec fn accepts_at(
    patterns: Seq<String>,
    paths: Seq<FoundPath>,
    includes: Option<globset::GlobSet>,
    excludes: Option<globset::GlobSet>,
    components: Seq<Part>,
    i: int,
    j: int,
) -> bool {
    &&& 0 <= i < patterns.len()
    &&& 0 <= j < paths.len()
    &&& components_of(paths[j]) == components
    &&& verdict_on(includes, excludes, patterns[i]@, paths[j].text@).kept()
}

/// A path with these components is to be linted: it is one of the paths,
/// one of the patterns matches it, an include glob matches it where there
/// are include globs, and no exclude glob matches it.
pub open spec fn is_accepted(
    patterns: Seq<String>,
    paths: Seq<FoundPath>,
    includes: Option<globset::GlobSet>,
    excludes: Option<globset::GlobSet>,
    components: Seq<Part>,
) -> bool {
    exists|i: int, j: int|
        #[trigger] accepts_at(patterns, paths, includes, excludes, components, i, j)
}

/// The files are what discovery yields: every pattern can be compiled; the
/// files stand in the order of paths, each once; each is one of the paths;
/// and a path is among them exactly when it is accepted.
pub open spec fn is_discovery(
    patterns: Seq<String>,
    paths: Seq<FoundPath>,
    includes: Option<globset::GlobSet>,
    excludes: Option<globset::GlobSet>,
    files: Seq<FoundPath>,
) -> bool {
    &&& all_compile(patterns, patterns.len() as int)
    &&& ascending(files)
    &&& forall|k: int| 0 <= k < files.len() ==> is_among(paths, #[trigger] files[k])
    &&& forall|components: Seq<Part>| #[trigger]
        lists(files, components) <==> is_accepted(patterns, paths, includes, excludes, components)
}

/// The path is that of a candidate that is kept.
pub open spec fn is_kept_path(candidates: Seq<Candidate>, file: FoundPath) -> bool {
    exists|i: int|
        0 <= i < candidates.len() && (#[trigger] candidates[i]).verdict.kept() && same_path(
            candidates[i].path,
            file,
        )
}

/// The files are the selection of the candidates: the paths that are
/// kept, each once, in the order of paths.  Every file is the path of a
/// kept candidate, and every kept candidate has its path among the files.
pub open spec fn is_selection(candidates: Seq<Candidate>, files: Seq<FoundPath>) -> bool {
    &&& ascending(files)
    &&& forall|k: int| 0 <= k < files.len() ==> is_kept_path(candidates, #[trigger] files[k])
    &&& forall|i: int|
        0 <= i < candidates.len() && (#[trigger] candidates[i]).verdict.kept() ==> lists(
            files,
            components_of(candidates[i].path),
        )
}

/// The text of the error for a glob that cannot be parsed.
pub open spec fn parse_failure(detail: Seq<char>) -> Seq<char> {
    "Invalid glob pattern: "@ + detail
}

/// The text of the error for a set of globs that cannot be built.
pub open spec fn build_failure(detail: Seq<char>) -> Seq<char> {
    "Failed to build globset: "@ + detail
}

/// The path is one of the paths.
pub open spec fn is_among(paths: Seq<FoundPath>, file: FoundPath) -> bool {
    exists|j: int| 0 <= j < paths.len() && same_path(#[trigger] paths[j], file)
}

/// The text of the error for a pattern that cannot be compiled: the
/// pattern in quotes, then what the compiler of globs says of it.
pub open spec fn pattern_message(pattern: Seq<char>, detail: Seq<char>) -> Seq<char> {
    "Invalid pattern '"@ + pattern + "': "@ + detail
}

/// The extension of a path; the empty text where the path has none.
pub open spec fn extension_of(path: Seq<char>) -> Seq<char> {
    match path_extension(path) {
        Some(extension) => extension,
        None => Seq::empty(),
    }
}

/// A file that was parsed and awaits the findings of the rules.
#[derive(Debug)]
pub struct PendingFile {
    pub path: String,
    pub content_hash: String,
    pub config_hash: String,
    /// The versions of the rules that are to be run.
    pub rule_versions: Table<String>,
    /// The view of the file's tree for the rules.
    pub ast_json: String,
}

/// What is to be done with a file.
#[derive(Debug)]
pub enum FileStep {
    /// The result was found in the cache.
    Cached(LintResult),
    /// The rules are to be run.
    Run(PendingFile),
    /// The file could not be parsed; it is left out of the batch.
    Failed(LinterError),
}

/// The engine.
pub struct Linter {
    pub config: LinterConfig,
    pub plugin_host: PluginHost,
    pub cache: CacheManager,
    /// The compiled include globs; `None` where the configuration has none.
    pub include_globs: Option<globset::GlobSet>,
    /// The compiled exclude globs; `None` where the configuration has none.
    pub exclude_globs: Option<globset::GlobSet>,
}

impl Linter {
    /// An engine for a configuration: no rule is loaded, the cache is
    /// empty and is on where the configuration says so, and the globs of
    /// the configuration are compiled.  Fails exactly when the include
    /// globs or the exclude globs cannot be compiled, with the error of
    /// the include globs where both cannot.
    pub fn new(config: LinterConfig) -> (r: Result<Linter, LinterError>)
        ensures
            match r {
                Ok(linter) => {
                    &&& can_build(config.includes@)
                    &&& can_build(config.exclude@)
                    &&& linter.config == config
                    &&& linter.plugin_host.rules.pairs_spec().len() == 0
                    &&& linter.cache.enabled == config.cache
                    &&& linter.cache.cache_dir@ == config.cache_dir@
                    &&& forall|path: Seq<char>| linter.cache.entries.get_spec(path) is None
                    &&& made_of(linter.include_globs, text_seq(config.includes@))
                    &&& made_of(linter.exclude_globs, text_seq(config.exclude@))
                },
                Err(e) => if can_build(config.includes@) {
                    !can_build(config.exclude@) && is_build_error(config.exclude@, e)
                } else {
                    is_build_error(config.includes@, e)
                },
            },
    {
        let mut cache = CacheManager::new(config.cache_dir.clone());
        if !config.cache {
            cache.disable();
        }
        let include_globs = match Self::build_globset(&config.includes) {
            Ok(set) => set,
            Err(e) => {
                return Err(e);
            },
        };
        let exclude_globs = match Self::build_globset(&config.exclude) {
            Ok(set) => set,
            Err(e) => {
                return Err(e);
            },
        };
        Ok(Linter { config, plugin_host: PluginHost::new(), cache, include_globs, exclude_globs })
    }

    /// Compiles a list of globs into one set, built from the patterns in
    /// their order; `None` for the empty list.  Fails exactly when the
    /// globs cannot be compiled: with what parsing the first glob that
    /// cannot be parsed fails with, or what building the set fails with.
    pub fn build_globset(patterns: &Vec<String>) -> (r: Result<
        Option<globset::GlobSet>,
        LinterError,
    >)
        ensures
            match r {
                Ok(set) => can_build(patterns@) && made_of(set, text_seq(patterns@)),
                Err(e) => !can_build(patterns@) && is_build_error(patterns@, e),
            },
    {
        if patterns.len() == 0 {
            return Ok(None);
        }
        let mut builder = builder_new();
        let mut i: usize = 0;
        assert(text_seq(patterns@).take(0) =~= Seq::empty());
        while i < patterns.len()
            invariant
                i <= patterns.len(),
                patterns@.len() > 0,
                all_parse(patterns@, i as int),
                crate::globs::builder_sources(builder) == text_seq(patterns@).take(i as int),
            decreases patterns.len() - i,
        {
            assert(text_seq(patterns@).take(i + 1) =~= text_seq(patterns@).take(i as int).push(
                patterns@[i as int]@,
            ));
            match glob_new(patterns[i].as_str()) {
                Ok(glob) => builder_add(&mut builder, glob),
                Err(e) => {
                    let detail = error_text(&e);
                    let message = String::from_str("Invalid glob pattern: ").concat(
                        detail.as_str(),
                    );
                    let error = LinterError::config(message);
                    proof {
                        assert(glob_failure(patterns@[i as int]@) is Some);
                        assert(message@ == parse_failure(detail@));
                        assert(is_build_error(patterns@, error));
                    }
                    return Err(error);
                },
            }
            i += 1;
        }
        assert(text_seq(patterns@).take(i as int) =~= text_seq(patterns@));
        match builder_build(&builder) {
            Ok(set) => Ok(Some(set)),
            Err(e) => {
                let detail = error_text(&e);
                let message = String::from_str("Failed to build globset: ").concat(
                    detail.as_str(),
                );
                assert(message@ == build_failure(detail@));
                Err(LinterError::config(message))
            },
        }
    }

    /// Registers a rule by its manifest.  Fails as the registry does: on
    /// an invalid manifest and on a name that is taken.
    pub fn load_rule(&mut self, manifest: RuleManifest) -> (r: Result<(), LinterError>)
        ensures
            match r {
                Ok(_) => {
                    &&& manifest.valid()
                    &&& crate::table::is_absent(
                        old(self).plugin_host.rules.pairs_spec(),
                        manifest.name@,
                    )
                    &&& final(self).plugin_host.rules.pairs_spec() == old(
                        self,
                    ).plugin_host.rules.pairs_spec().push((manifest.name, manifest))
                },
                Err(e) => {
                    &&& e.kind == ErrorKind::Plugin
                    &&& !manifest.valid() || old(self).plugin_host.rules.get_spec(manifest.name@)
                        is Some
                    &&& final(self).plugin_host.rules.pairs_spec() == old(
                        self,
                    ).plugin_host.rules.pairs_spec()
                },
            },
            final(self).config == old(self).config,
            final(self).cache == old(self).cache,
            final(self).include_globs == old(self).include_globs,
            final(self).exclude_globs == old(self).exclude_globs,
    {
        self.plugin_host.register(manifest)
    }

    /// The versions of the loaded rules under their names.
    pub fn get_rule_versions(&self) -> (versions: Table<String>)
        ensures
            pair_texts(versions.pairs_spec()) == versions_of(self.plugin_host.rules.pairs_spec()),
    {
        self.plugin_host.rule_versions()
    }

    /// Chooses the parser for a file extension.
    pub fn select_parser(&self, extension: &str) -> (choice: ParserChoice)
        ensures
            choice == choice_of(extension@),
    {
        let md_parser = MarkdownParser::new();
        let txt_parser = PlainTextParser::new();
        if md_parser.can_parse(extension) {
            ParserChoice::Markdown
        } else if txt_parser.can_parse(extension) {
            ParserChoice::PlainText
        } else {
            ParserChoice::PlainText
        }
    }

    /// Parses a source into the arena with the chosen parser.
    pub fn parse_with(choice: ParserChoice, arena: &mut AstArena, source: &str) -> (r: Result<
        TxtNode,
        ParseError,
    >)
        requires
            old(arena).wf(),
        ensures
            final(arena).wf(),
            final(arena).extends(old(arena)),
            is_outcome(r, *final(arena), choice_outcome(choice, source@)),
            match r {
                Ok(node) => final(arena).tree(node).spans_within(source.spec_bytes().len())
                    && final(arena).tree(node).well_formed(),
                Err(_) => true,
            },
    {
        match choice {
            ParserChoice::Markdown => MarkdownParser::new().parse(arena, source),
            ParserChoice::PlainText => PlainTextParser::new().parse(arena, source),
        }
    }

    /// The view of a tree for the rules.
    pub fn ast_to_json(&self, arena: &AstArena, node: &TxtNode) -> (text: String)
        requires
            arena.wf(),
        ensures
            text@ == node_json(arena.tree(*node)),
    {
        ast_to_json(arena, node)
    }

    /// The rule versions under which a file is linted now.
    pub open spec fn current_versions(&self) -> Seq<(Seq<char>, Seq<char>)> {
        versions_of(self.plugin_host.rules.pairs_spec())
    }

    /// The cache holds a result for the file that may be used again.
    pub open spec fn hits(&self, path: Seq<char>, content: Seq<char>) -> bool {
        self.cache.valid(path, text_hash(content), self.config.hash_spec(), self.current_versions())
    }

    /// `step` is what is to be done with the file.
    ///
    /// Where the cache holds a result that may be used again, the step is
    /// that result with the cached findings.  Else the file is parsed by
    /// the parser for its extension: a failure is a parse error, and a
    /// tree makes a pending file with the fingerprint of this run and the
    /// view of the tree.
    pub open spec fn is_step(
        &self,
        path: Seq<char>,
        extension: Seq<char>,
        content: Seq<char>,
        step: FileStep,
    ) -> bool {
        if self.hits(path, content) {
            match step {
                FileStep::Cached(result) => {
                    &&& result.path@ == path
                    &&& result.from_cache
                    &&& views(result.diagnostics@) == views(
                        self.cache.entries.get_spec(path)->Some_0.diagnostics@,
                    )
                },
                _ => false,
            }
        } else {
            match choice_outcome(choice_of(extension), content) {
                Err(message) => match step {
                    FileStep::Failed(e) => e.kind == ErrorKind::Parse && e.message@
                        == "Invalid source: "@ + message,
                    _ => false,
                },
                Ok(tree) => match step {
                    FileStep::Run(pending) => {
                        &&& pending.path@ == path
                        &&& pending.content_hash@ == text_hash(content)
                        &&& pending.config_hash@ == self.config.hash_spec()
                        &&& pair_texts(pending.rule_versions.pairs_spec()) == self.current_versions()
                        &&& pending.ast_json@ == node_json(tree)
                    },
                    _ => false,
                },
            }
        }
    }

    /// Decides what is to be done with a file of the given extension and
    /// content.
    pub fn begin_file_as(&self, path: &str, extension: &str, content: &str) -> (step: FileStep)
        ensures
            self.is_step(path@, extension@, content@, step),
    {
        let content_hash = CacheManager::hash_content(content);
        let config_hash = self.config.hash();
        let rule_versions = self.get_rule_versions();
        if self.cache.is_valid(path, content_hash.as_str(), config_hash.as_str(), &rule_versions) {
            match self.cache.get(path) {
                Some(entry) => {
                    return FileStep::Cached(
                        LintResult::cached(
                            String::from_str(path),
                            duplicate_all(&entry.diagnostics),
                        ),
                    );
                },
                None => {},
            }
        }
        let choice = self.select_parser(extension);
        // The tree lives in an arena of its own, which is freed once the
        // view for the rules is written.
        let mut arena = AstArena::new();
        match Self::parse_with(choice, &mut arena, content) {
            Ok(ast) => {
                let ast_json = self.ast_to_json(&arena, &ast);
                FileStep::Run(
                    PendingFile {
                        path: String::from_str(path),
                        content_hash,
                        config_hash,
                        rule_versions,
                        ast_json,
                    },
                )
            },
            Err(e) => FileStep::Failed(LinterError::parse(e.message())),
        }
    }

    /// Decides what is to be done with a file; the extension is taken from
    /// the path, and is empty where the path has none.
    pub fn begin_file(&self, path: &str, content: &str) -> (step: FileStep)
        ensures
            self.is_step(path@, extension_of(path@), content@, step),
    {
        let extension = match file_extension(path) {
            Some(extension) => extension,
            None => String::new(),
        };
        let step = self.begin_file_as(path, extension.as_str(), content);
        assert(self.is_step(path@, extension@, content@, step));
        step
    }

    /// `after` and `result` are what finishing a pending file with the
    /// outcomes of the rules makes of the engine `self`: the result holds
    /// the gathered findings and does not come from the cache; the cache
    /// holds, for the file's path, an entry with the pending fingerprint,
    /// the same findings and the given time; nothing else has changed.
    pub open spec fn is_finished(
        &self,
        pending: PendingFile,
        outcomes: Seq<RuleOutcome>,
        timestamp: u64,
        after: Linter,
        result: LintResult,
    ) -> bool {
        &&& outcomes.len() == self.plugin_host.rule_names().len()
        &&& result.path@ == pending.path@
        &&& !result.from_cache
        &&& views(result.diagnostics@) == gathered(
            self.plugin_host.rule_names(),
            outcomes,
            outcomes.len() as int,
        )
        &&& after.config == self.config
        &&& after.plugin_host == self.plugin_host
        &&& after.include_globs == self.include_globs
        &&& after.exclude_globs == self.exclude_globs
        &&& after.cache.enabled == self.cache.enabled
        &&& after.cache.cache_dir == self.cache.cache_dir
        &&& forall|other: Seq<char>|
            other != pending.path@ ==> after.cache.entries.get_spec(other)
                == self.cache.entries.get_spec(other)
        &&& match after.cache.entries.get_spec(pending.path@) {
            Some(entry) => {
                &&& entry.content_hash@ == pending.content_hash@
                &&& entry.config_hash@ == pending.config_hash@
                &&& entry.rule_versions == pending.rule_versions
                &&& views(entry.diagnostics@) == views(result.diagnostics@)
                &&& entry.timestamp == timestamp
            },
            None => false,
        }
    }

    /// Gathers the findings of the rules for a pending file, stores them
    /// in the cache under the file's fingerprint and returns the result.
    /// Fails, and changes nothing, exactly when the outcomes are not one
    /// for each loaded rule; so no crash of a rule makes it fail.
    pub fn finish_file(
        &mut self,
        pending: PendingFile,
        outcomes: &Vec<RuleOutcome>,
        timestamp: u64,
    ) -> (r: Result<LintResult, LinterError>)
        ensures
            match r {
                Ok(result) => old(self).is_finished(
                    pending,
                    outcomes@,
                    timestamp,
                    *final(self),
                    result,
                ),
                Err(e) => {
                    &&& outcomes@.len() != old(self).plugin_host.rule_names().len()
                    &&& e.kind == ErrorKind::Internal
                    &&& *final(self) == *old(self)
                },
            },
            outcomes@.len() == old(self).plugin_host.rule_names().len() ==> r is Ok,
    {
        let diagnostics = match self.plugin_host.collect(outcomes) {
            Ok(found) => found,
            Err(e) => {
                return Err(e);
            },
        };
        let entry = CacheEntry::new(
            pending.content_hash,
            pending.config_hash,
            pending.rule_versions,
            duplicate_all(&diagnostics),
            timestamp,
        );
        self.cache.set(pending.path.clone(), entry);
        Ok(LintResult::new(pending.path, diagnostics))
    }

    /// The verdict of the globs on a path, for the pattern compiled into
    /// `pattern`.  Without exclude globs no path is excluded; without
    /// include globs every path is included.
    pub fn judge(&self, pattern: &globset::GlobSet, path: &str) -> (verdict: Verdict)
        ensures
            verdict == (Verdict {
                matches: globs_accept(set_sources(*pattern), path@),
                ..verdict_on(self.include_globs, self.exclude_globs, Seq::empty(), path@)
            }),
    {
        let matches = set_matches(pattern, path);
        let excluded = match &self.exclude_globs {
            Some(set) => set_matches(set, path),
            None => false,
        };
        let included = match &self.include_globs {
            Some(set) => set_matches(set, path),
            None => true,
        };
        Verdict { matches, included, excluded }
    }

    /// Compiles one pattern into a set of its own.  Fails exactly when the
    /// pattern cannot be compiled, with what compiling it fails with.
    pub fn compile_pattern(pattern: &str) -> (r: Result<globset::GlobSet, String>)
        ensures
            match r {
                Ok(set) => pattern_failure(pattern@) is None && set_sources(set) == seq![pattern@],
                Err(detail) => pattern_failure(pattern@) == Some(detail@),
            },
    {
        match glob_new(pattern) {
            Ok(glob) => {
                let mut builder = builder_new();
                builder_add(&mut builder, glob);
                assert(Seq::<Seq<char>>::empty().push(pattern@) =~= seq![pattern@]);
                match builder_build(&builder) {
                    Ok(set) => Ok(set),
                    Err(e) => Err(error_text(&e)),
                }
            },
            Err(e) => Err(error_text(&e)),
        }
    }

    /// The files to lint among the candidates: the paths that are kept,
    /// each once, in the order of paths.
    pub fn select(candidates: &Vec<Candidate>) -> (files: Vec<FoundPath>)
        ensures
            is_selection(candidates@, files@),
    {
        let mut files: Vec<FoundPath> = Vec::new();
        let mut i: usize = 0;
        while i < candidates.len()
            invariant
                i <= candidates.len(),
                is_selection(candidates@.take(i as int), files@),
            decreases candidates.len() - i,
        {
            let ghost before = files@;
            let ghost seen = candidates@.take(i as int);
            let ghost more = candidates@.take(i + 1);
            let ghost c = candidates@[i as int];
            assert forall|f: FoundPath| is_kept_path(seen, f) implies is_kept_path(more, f) by {
                let m = choose|m: int|
                    0 <= m < seen.len() && (#[trigger] seen[m]).verdict.kept() && same_path(
                        seen[m].path,
                        f,
                    );
                assert(more[m] == seen[m]);
            }
            if candidates[i].verdict.is_kept() {
                let path = candidates[i].path.duplicate();
                insert_path(&mut files, path);
                proof {
                    let after = files@;
                    assert(more[i as int] == c);
                    assert(is_kept_path(more, path));
                    assert forall|k: int| 0 <= k < after.len() implies is_kept_path(
                        more,
                        #[trigger] after[k],
                    ) by {
                        if after != before {
                            let at = choose|at: int|
                                0 <= at <= before.len() && after == #[trigger] before.insert(
                                    at,
                                    path,
                                );
                            if k < at {
                                assert(after[k] == before[k]);
                            } else if k > at {
                                assert(after[k] == before[k - 1]);
                            }
                        }
                    }
                    assert forall|m: int|
                        0 <= m < more.len() && (#[trigger] more[m]).verdict.kept() implies lists(
                        after,
                        components_of(more[m].path),
                    ) by {
                        if m < i {
                            assert(more[m] == seen[m]);
                            let k = choose|k: int|
                                0 <= k < before.len() && components_of(#[trigger] before[k])
                                    == components_of(seen[m].path);
                            if after != before {
                                let at = choose|at: int|
                                    0 <= at <= before.len() && after == #[trigger] before.insert(
                                        at,
                                        path,
                                    );
                                if k < at {
                                    assert(after[k] == before[k]);
                                } else {
                                    assert(after[k + 1] == before[k]);
                                }
                            }
                        }
                    }
                }
            } else {
                proof {
                    assert forall|m: int|
                        0 <= m < more.len() && (#[trigger] more[m]).verdict.kept() implies lists(
                        before,
                        components_of(more[m].path),
                    ) by {
                        assert(more[m] == seen[m]);
                    }
                }
            }
            i += 1;
        }
        assert(candidates@.take(i as int) =~= candidates@);
        files
    }

    /// The verdict of the globs on every pair of a pattern and a path.
    /// Fails exactly when a pattern cannot be compiled, with a
    /// configuration error that names the first such pattern.
    pub fn judge_all(&self, patterns: &Vec<String>, paths: &Vec<FoundPath>) -> (r: Result<
        Vec<Candidate>,
        LinterError,
    >)
        ensures
            match r {
                Ok(candidates) => all_compile(patterns@, patterns@.len() as int) && judged(
                    candidates@,
                    patterns@,
                    patterns@.len(),
                    paths@,
                    self.include_globs,
                    self.exclude_globs,
                ),
                Err(e) => is_pattern_error(patterns@, e),
            },
    {
        let mut candidates: Vec<Candidate> = Vec::new();
        let mut i: usize = 0;
        while i < patterns.len()
            invariant
                i <= patterns.len(),
                all_compile(patterns@, i as int),
                judged(
                    candidates@,
                    patterns@,
                    i as nat,
                    paths@,
                    self.include_globs,
                    self.exclude_globs,
                ),
            decreases patterns.len() - i,
        {
            let pattern = match Self::compile_pattern(patterns[i].as_str()) {
                Ok(set) => set,
                Err(detail) => {
                    let message = String::from_str("Invalid pattern '").concat(
                        patterns[i].as_str(),
                    ).concat("': ").concat(detail.as_str());
                    let error = LinterError::config(message);
                    proof {
                        assert(pattern_failure(patterns@[i as int]@) == Some(detail@));
                        assert(message@ == pattern_message(patterns@[i as int]@, detail@));
                        assert(is_pattern_error(patterns@, error));
                    }
                    return Err(error);
                },
            };
            let mut j: usize = 0;
            while j < paths.len()
                invariant
                    i < patterns.len(),
                    j <= paths.len(),
                    set_sources(pattern) == seq![patterns@[i as int]@],
                    candidates@.len() == i * paths@.len() + j,
                    forall|k: int|
                        0 <= k < candidates@.len() ==> {
                            let c = #[trigger] candidates@[k];
                            &&& c.pattern <= i
                            &&& c.pattern == i ==> c.file < j
                            &&& c.file < paths@.len()
                            &&& k == c.pattern * paths@.len() + c.file
                            &&& same_path(c.path, paths@[c.file as int])
                            &&& c.verdict == verdict_on(
                                self.include_globs,
                                self.exclude_globs,
                                patterns@[c.pattern as int]@,
                                paths@[c.file as int].text@,
                            )
                        },
                decreases paths.len() - j,
            {
                let verdict = self.judge(&pattern, paths[j].text.as_str());
                candidates.push(
                    Candidate { pattern: i, file: j, path: paths[j].duplicate(), verdict },
                );
                j += 1;
            }
            assert(i * paths@.len() + paths@.len() == (i + 1) * paths@.len()) by (nonlinear_arith);
            i += 1;
        }
        Ok(candidates)
    }

    /// The files to lint among the given paths: those that one of the
    /// patterns matches and, where there are include globs, one of them,
    /// and no exclude glob; each once, in the order of paths.  Fails
    /// exactly when a pattern cannot be compiled, with a configuration
    /// error that names the first such pattern.
    pub fn discover_files(&self, patterns: &Vec<String>, paths: &Vec<FoundPath>) -> (r: Result<
        Vec<FoundPath>,
        LinterError,
    >)
        ensures
            match r {
                Ok(files) => is_discovery(
                    patterns@,
                    paths@,
                    self.include_globs,
                    self.exclude_globs,
                    files@,
                ),
                Err(e) => is_pattern_error(patterns@, e),
            },
    {
        match self.judge_all(patterns, paths) {
            Ok(candidates) => {
                let files = Self::select(&candidates);
                proof {
                    lemma_discovery(
                        candidates@,
                        patterns@,
                        paths@,
                        self.include_globs,
                        self.exclude_globs,
                        files@,
                    );
                }
                Ok(files)
            },
            Err(e) => Err(e),
        }
    }
}

/// The selection of the verdicts on every pair of a pattern and a path is
/// what discovery yields.
pub proof fn lemma_discovery(
    candidates: Seq<Candidate>,
    patterns: Seq<String>,
    paths: Seq<FoundPath>,
    includes: Option<globset::GlobSet>,
    excludes: Option<globset::GlobSet>,
    files: Seq<FoundPath>,
)
    requires
        all_compile(patterns, patterns.len() as int),
        judged(candidates, patterns, patterns.len(), paths, includes, excludes),
        is_selection(candidates, files),
    ensures
        is_discovery(patterns, paths, includes, excludes, files),
{
    let n = paths.len() as int;
    let count = patterns.len() as int;
    assert forall|k: int| 0 <= k < files.len() implies is_among(paths, #[trigger] files[k]) by {
        let m = choose|m: int|
            0 <= m < candidates.len() && (#[trigger] candidates[m]).verdict.kept() && same_path(
                candidates[m].path,
                files[k],
            );
        let j = candidates[m].file as int;
        assert(same_path(candidates[m].path, paths[j]));
        assert(same_path(paths[j], files[k]));
    }
    lemma_selection(candidates, files);
    assert forall|components: Seq<Part>| #[trigger]
        lists(files, components) <==> is_accepted(
            patterns,
            paths,
            includes,
            excludes,
            components,
        ) by {
        if lists(files, components) {
            let m = choose|m: int|
                0 <= m < candidates.len() && (#[trigger] candidates[m]).verdict.kept()
                    && components_of(candidates[m].path) == components;
            let c = candidates[m];
            assert(accepts_at(
                patterns,
                paths,
                includes,
                excludes,
                components,
                c.pattern as int,
                c.file as int,
            ));
        }
        if is_accepted(patterns, paths, includes, excludes, components) {
            let (i, j) = choose|i: int, j: int|
                #[trigger] accepts_at(patterns, paths, includes, excludes, components, i, j);
            let k = i * n + j;
            assert(0 <= k < count * n) by (nonlinear_arith)
                requires
                    0 <= i < count,
                    0 <= j < n,
                    k == i * n + j,
            ;
            let c = candidates[k];
            let ci = c.pattern as int;
            let cj = c.file as int;
            assert(ci == i && cj == j) by (nonlinear_arith)
                requires
                    0 <= j < n,
                    0 <= cj < n,
                    0 <= i,
                    0 <= ci,
                    i * n + j == ci * n + cj,
            ;
            assert(c.verdict.kept());
            assert(components_of(c.path) == components);
        }
    }
}

/// The same cached findings, or the same view for the rules, or the same
/// error.
pub open spec fn same_step(first: FileStep, second: FileStep) -> bool {
    match (first, second) {
        (FileStep::Cached(a), FileStep::Cached(b)) => {
            &&& a.path@ == b.path@
            &&& a.from_cache == b.from_cache
            &&& views(a.diagnostics@) == views(b.diagnostics@)
        },
        (FileStep::Run(a), FileStep::Run(b)) => {
            &&& a.path@ == b.path@
            &&& a.content_hash@ == b.content_hash@
            &&& a.config_hash@ == b.config_hash@
            &&& pair_texts(a.rule_versions.pairs_spec()) == pair_texts(b.rule_versions.pairs_spec())
            &&& a.ast_json@ == b.ast_json@
        },
        (FileStep::Failed(a), FileStep::Failed(b)) => a.kind == b.kind && a.message@ == b.message@,
        _ => false,
    }
}

/// Linting is repeatable.  For one state of the engine, one path and one
/// content, two steps are the same; and for one state, one pending file
/// and the same outcomes of the rules, two results hold the same findings
/// in the same order.
pub proof fn lemma_lint_repeatable(
    linter: Linter,
    path: Seq<char>,
    extension: Seq<char>,
    content: Seq<char>,
    first: FileStep,
    second: FileStep,
    pending: PendingFile,
    outcomes: Seq<RuleOutcome>,
    first_time: u64,
    second_time: u64,
    after_first: Linter,
    after_second: Linter,
    first_result: LintResult,
    second_result: LintResult,
)
    requires
        linter.is_step(path, extension, content, first),
        linter.is_step(path, extension, content, second),
        linter.is_finished(pending, outcomes, first_time, after_first, first_result),
        linter.is_finished(pending, outcomes, second_time, after_second, second_result),
    ensures
        same_step(first, second),
        views(first_result.diagnostics@) == views(second_result.diagnostics@),
{
}

/// An unchanged file is answered from the cache.  Where a file was linted
/// and its result stored, and the cache is on, the next step for the same
/// path and content, under the same configuration and rules, is the cached
/// result, with the findings of the first run.
pub proof fn lemma_second_run_is_cached(
    before: Linter,
    path: Seq<char>,
    extension: Seq<char>,
    content: Seq<char>,
    pending: PendingFile,
    outcomes: Seq<RuleOutcome>,
    timestamp: u64,
    after: Linter,
    first: LintResult,
    second: FileStep,
)
    requires
        before.is_step(path, extension, content, FileStep::Run(pending)),
        before.is_finished(pending, outcomes, timestamp, after, first),
        after.cache.enabled,
        after.is_step(path, extension, content, second),
    ensures
        match second {
            FileStep::Cached(result) => result.from_cache && views(result.diagnostics@) == views(
                first.diagnostics@,
            ),
            _ => false,
        },
{
    let entry = after.cache.entries.get_spec(path)->Some_0;
    assert(entry.matches(text_hash(content), after.config.hash_spec(), after.current_versions()));
    assert(after.hits(path, content));
}

/// A changed fingerprint is not answered from the cache.  Where the entry
/// for a path was made under one fingerprint, and the content hash, the
/// configuration hash or the rule versions of the present run differ from
/// it, the step for the path is not a cached result: the file is parsed
/// again.
pub proof fn lemma_change_is_not_cached(
    linter: Linter,
    path: Seq<char>,
    extension: Seq<char>,
    content: Seq<char>,
    entry: CacheEntry,
    content_hash: Seq<char>,
    config_hash: Seq<char>,
    rule_versions: Seq<(Seq<char>, Seq<char>)>,
    step: FileStep,
)
    requires
        linter.cache.entries.get_spec(path) == Some(entry),
        entry.matches(content_hash, config_hash, rule_versions),
        text_hash(content) != content_hash || linter.config.hash_spec() != config_hash
            || !crate::cache::same_versions(rule_versions, linter.current_versions()),
        linter.is_step(path, extension, content, step),
    ensures
        !(step is Cached),
{
    linter.cache.lemma_changed_is_invalid(
        path,
        entry,
        content_hash,
        config_hash,
        rule_versions,
        text_hash(content),
        linter.config.hash_spec(),
        linter.current_versions(),
    );
}

/// The selected files are sorted in the order of paths, hold no path
/// twice, and are exactly the kept paths: a path is among the files if and
/// only if some candidate with that path is kept.  So a path that every
/// verdict excludes is never selected, whatever includes it.
pub proof fn lemma_selection(candidates: Seq<Candidate>, files: Seq<FoundPath>)
    requires
        is_selection(candidates, files),
    ensures
        ascending(files),
        forall|i: int, j: int|
            0 <= i < j < files.len() ==> components_of(#[trigger] files[i]) != components_of(
                #[trigger] files[j],
            ),
        forall|components: Seq<Part>| #[trigger]
            lists(files, components) <==> exists|i: int|
                0 <= i < candidates.len() && (#[trigger] candidates[i]).verdict.kept()
                    && components_of(candidates[i].path) == components,
        forall|components: Seq<Part>|
            (forall|i: int|
                0 <= i < candidates.len() && components_of((#[trigger] candidates[i]).path)
                    == components ==> candidates[i].verdict.excluded) ==> !(#[trigger] lists(
                files,
                components,
            )),
{
    assert forall|i: int, j: int| 0 <= i < j < files.len() implies components_of(
        #[trigger] files[i],
    ) != components_of(#[trigger] files[j]) by {
        lemma_components_lt_asymmetric(components_of(files[i]), components_of(files[j]));
    }
    assert forall|components: Seq<Part>| #[trigger]
        lists(files, components) <==> exists|i: int|
            0 <= i < candidates.len() && (#[trigger] candidates[i]).verdict.kept() && components_of(
                candidates[i].path,
            ) == components by {
        if lists(files, components) {
            let k = choose|k: int|
                0 <= k < files.len() && components_of(#[trigger] files[k]) == components;
            assert(is_kept_path(candidates, files[k]));
        }
    }
}

/// Some candidate with these components is kept.
pub open spec fn keeps(candidates: Seq<Candidate>, components: Seq<Part>) -> bool {
    exists|i: int|
        0 <= i < candidates.len() && (#[trigger] candidates[i]).verdict.kept() && components_of(
            candidates[i].path,
        ) == components
}

/// The selection depends on nothing but which paths are kept: two
/// selections of candidates that keep the same paths hold the same paths
/// at the same places, in whatever order the candidates, the patterns or
/// the paths came.
pub proof fn lemma_selection_is_order_free(
    first: Seq<Candidate>,
    first_files: Seq<FoundPath>,
    second: Seq<Candidate>,
    second_files: Seq<FoundPath>,
)
    requires
        is_selection(first, first_files),
        is_selection(second, second_files),
        forall|components: Seq<Part>| keeps(first, components) <==> keeps(second, components),
    ensures
        first_files.len() == second_files.len(),
        forall|k: int|
            0 <= k < first_files.len() ==> components_of(#[trigger] first_files[k])
                == components_of(#[trigger] second_files[k]),
{
    lemma_selection(first, first_files);
    lemma_selection(second, second_files);
    assert forall|key: Seq<Part>| lists(first_files, key) <==> lists(second_files, key) by {
        assert(lists(first_files, key) <==> keeps(first, key));
        assert(lists(second_files, key) <==> keeps(second, key));
    }
    crate::paths::lemma_ascending_unique(first_files, second_files);
}

} // verus!
