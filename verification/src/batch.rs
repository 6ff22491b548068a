//! A batch of files: which file is next, what becomes of each, and the
//! results in the order of the files.
//!
//! The batch does not read files, run rules or write the cache.  It says
//! what is to be done next, and it takes what came of it: the content of a
//! file or the failure to read it, the outcomes of the rules, the saving
//! of the cache.  A file that cannot be read or parsed is left out, and
//! the batch goes on.

use crate::error::{ErrorKind, LinterError};
use crate::linter::{
    extension_of, is_discovery, is_pattern_error, FileStep, Linter, PendingFile,
};
use crate::paths::FoundPath;
use crate::plugin::RuleOutcome;
use crate::result::LintResult;
use vstd::prelude::*;
use vstd::string::*;

verus! {

/// What is to be done next for a batch.
#[derive(Debug)]
pub enum BatchAction {
    /// Read the file of this path and hand in its content.
    Read(String),
    /// Save the cache.
    Save,
    /// Nothing: take the results.
    Done,
}

/// What came of the content of a file.
#[derive(Debug)]
pub enum FileRead {
    /// The result was in the cache; the batch has moved on.
    Cached,
    /// The rules are to be run on this; the batch waits for the outcomes.
    Run(PendingFile),
    /// The file is left out for this reason; the batch has moved on.
    Skipped(LinterError),
}

/// The results stand in the order of the paths: result `k` is that of the
/// path at place `origins[k]`, and the places go up.
pub open spec fn in_order_of(
    paths: Seq<String>,
    results: Seq<LintResult>,
    origins: Seq<int>,
    limit: int,
) -> bool {
    &&& origins.len() == results.len()
    &&& forall|k: int|
        0 <= k < results.len() ==> 0 <= (#[trigger] origins[k]) < limit && origins[k] < paths.len()
            && results[k].path@ == paths[origins[k]]@
    &&& forall|j: int, k: int| 0 <= j < k < origins.len() ==> origins[j] < origins[k]
}

/// The results of a batch follow the order of its paths: each result is
/// that of one of the paths, and a result that comes later is that of a
/// path that comes later.
pub open spec fn follows(paths: Seq<String>, results: Seq<LintResult>) -> bool {
    exists|origins: Seq<int>| in_order_of(paths, results, origins, paths.len() as int)
}

/// A batch of files in progress.
pub struct LintBatch {
    paths: Vec<String>,
    /// The place of the file that is next.
    next: usize,
    /// The results so far.
    results: Vec<LintResult>,
    /// For each result the place of its path.
    origins: Vec<usize>,
    saved: bool,
}

impl LintBatch {
    /// The batch is in order: the file that is next is one of the paths
    /// or the end, and every result so far is that of a path before it,
    /// later results of later paths.  Every batch that [`LintBatch::new`]
    /// makes is in order, and stays so.
    pub closed spec fn well_formed(&self) -> bool {
        &&& self.next <= self.paths@.len()
        &&& self.origins@.len() == self.results@.len()
        &&& forall|k: int|
            0 <= k < self.origins@.len() ==> (#[trigger] self.origins@[k]) < self.next
                && self.results@[k].path@ == self.paths@[self.origins@[k] as int]@
        &&& forall|j: int, k: int|
            0 <= j < k < self.origins@.len() ==> self.origins@[j] < self.origins@[k]
    }

    /// The paths of the batch.
    pub closed spec fn paths(&self) -> Seq<String> {
        self.paths@
    }

    /// Number of files that are dealt with.
    pub closed spec fn position(&self) -> nat {
        self.next as nat
    }

    /// The results so far.
    pub closed spec fn results(&self) -> Seq<LintResult> {
        self.results@
    }

    /// Whether the cache was saved.
    pub closed spec fn is_saved(&self) -> bool {
        self.saved
    }

    /// A batch over the given paths, in their order.
    pub fn new(paths: Vec<String>) -> (batch: LintBatch)
        ensures
            batch.well_formed(),
            batch.paths() == paths@,
            batch.position() == 0,
            batch.results().len() == 0,
            !batch.is_saved(),
    {
        LintBatch { paths, next: 0, results: Vec::new(), origins: Vec::new(), saved: false }
    }

    /// What is to be done next: read the next file as long as there is
    /// one, then save the cache, then nothing.
    pub fn action(&self) -> (a: BatchAction)
        requires
            self.well_formed(),
        ensures
            self.position() <= self.paths().len(),
            match a {
                BatchAction::Read(path) => self.position() < self.paths().len() && path@
                    == self.paths()[self.position() as int]@,
                BatchAction::Save => self.position() == self.paths().len() && !self.is_saved(),
                BatchAction::Done => self.position() == self.paths().len() && self.is_saved(),
            },
    {
        if self.next < self.paths.len() {
            BatchAction::Read(self.paths[self.next].clone())
        } else if !self.saved {
            BatchAction::Save
        } else {
            BatchAction::Done
        }
    }

    /// The next file could not be read: it is left out.  Does nothing
    /// where no file is next.
    pub fn file_unreadable(&mut self)
        requires
            old(self).well_formed(),
        ensures
            final(self).well_formed(),
            final(self).paths() == old(self).paths(),
            final(self).results() == old(self).results(),
            final(self).is_saved() == old(self).is_saved(),
            final(self).position() == if old(self).position() < old(self).paths().len() {
                old(self).position() + 1
            } else {
                old(self).position()
            },
    {
        if self.next < self.paths.len() {
            self.next = self.next + 1;
        }
    }

    /// Takes the content of the next file, which is parsed by the parser
    /// for the extension of its path.  A result that the cache holds
    /// is added to the results; a file that cannot be parsed is left out;
    /// else the batch waits for the outcomes of the rules.  Where no file
    /// is next, nothing changes and an internal error is handed back.
    pub fn file_read(&mut self, linter: &Linter, content: &str) -> (r: FileRead)
        requires
            old(self).well_formed(),
        ensures
            final(self).well_formed(),
            final(self).paths() == old(self).paths(),
            final(self).is_saved() == old(self).is_saved(),
            old(self).position() >= old(self).paths().len() ==> {
                &&& r matches FileRead::Skipped(e)
                &&& e.kind == ErrorKind::Internal
                &&& final(self).position() == old(self).position()
                &&& final(self).results() == old(self).results()
            },
            old(self).position() < old(self).paths().len() ==> exists|step: FileStep|
                {
                    &&& #[trigger] linter.is_step(
                        old(self).paths()[old(self).position() as int]@,
                        extension_of(old(self).paths()[old(self).position() as int]@),
                        content@,
                        step,
                    )
                    &&& match step {
                        FileStep::Cached(result) => {
                            &&& r is Cached
                            &&& final(self).position() == old(self).position() + 1
                            &&& final(self).results() == old(self).results().push(result)
                        },
                        FileStep::Run(pending) => {
                            &&& r == FileRead::Run(pending)
                            &&& final(self).position() == old(self).position()
                            &&& final(self).results() == old(self).results()
                        },
                        FileStep::Failed(e) => {
                            &&& r == FileRead::Skipped(e)
                            &&& final(self).position() == old(self).position() + 1
                            &&& final(self).results() == old(self).results()
                        },
                    }
                },
    {
        if self.next >= self.paths.len() {
            return FileRead::Skipped(
                LinterError::internal(String::from_str("no file of the batch is next")),
            );
        }
        let at = self.next;
        let step = linter.begin_file(self.paths[at].as_str(), content);
        match step {
            FileStep::Cached(result) => {
                self.next = at + 1;
                self.results.push(result);
                self.origins.push(at);
                FileRead::Cached
            },
            FileStep::Run(pending) => FileRead::Run(pending),
            FileStep::Failed(e) => {
                self.next = at + 1;
                FileRead::Skipped(e)
            },
        }
    }

    /// Takes the outcomes of the rules for the file that the batch waits
    /// for: the result is added to the results and stored in the cache,
    /// whether rules crashed or not, and the batch goes on to the next
    /// file.
    /// Where the outcomes do not match the rules, or the pending file is
    /// not the next file, the file is left out and the error handed back.
    pub fn rules_ran(
        &mut self,
        linter: &mut Linter,
        pending: PendingFile,
        outcomes: &Vec<RuleOutcome>,
        timestamp: u64,
    ) -> (r: Option<LinterError>)
        requires
            old(self).well_formed(),
        ensures
            final(self).well_formed(),
            old(self).position() < old(self).paths().len() && pending.path@ == old(
                self,
            ).paths()[old(self).position() as int]@ && outcomes@.len() == old(
                linter,
            ).plugin_host.rule_names().len() ==> r is None,
            final(self).paths() == old(self).paths(),
            final(self).is_saved() == old(self).is_saved(),
            final(self).position() == if old(self).position() < old(self).paths().len() {
                old(self).position() + 1
            } else {
                old(self).position()
            },
            match r {
                None => {
                    &&& old(self).position() < old(self).paths().len()
                    &&& pending.path@ == old(self).paths()[old(self).position() as int]@
                    &&& final(self).results().len() == old(self).results().len() + 1
                    &&& final(self).results().drop_last() == old(self).results()
                    &&& old(linter).is_finished(
                        pending,
                        outcomes@,
                        timestamp,
                        *final(linter),
                        final(self).results().last(),
                    )
                },
                Some(e) => {
                    &&& e.kind == ErrorKind::Internal
                    &&& final(self).results() == old(self).results()
                    &&& *final(linter) == *old(linter)
                    &&& old(self).position() >= old(self).paths().len() || pending.path@ != old(
                        self,
                    ).paths()[old(self).position() as int]@ || outcomes@.len() != old(
                        linter,
                    ).plugin_host.rule_names().len()
                },
            },
    {
        if self.next >= self.paths.len() {
            return Some(LinterError::internal(String::from_str("no file of the batch is next")));
        }
        let at = self.next;
        self.next = at + 1;
        if crate::order::compare(pending.path.as_str(), self.paths[at].as_str())
            != crate::order::Order::Equal {
            return Some(
                LinterError::internal(String::from_str("the pending file is not the next file")),
            );
        }
        let ghost before = self.results@;
        match linter.finish_file(pending, outcomes, timestamp) {
            Ok(result) => {
                self.results.push(result);
                self.origins.push(at);
                assert(self.results@.drop_last() =~= before);
                None
            },
            Err(e) => Some(e),
        }
    }

    /// The cache was saved, or could not be saved: the batch is at its
    /// end either way once every file is dealt with.
    pub fn cache_saved(&mut self)
        requires
            old(self).well_formed(),
        ensures
            final(self).well_formed(),
            final(self).paths() == old(self).paths(),
            final(self).position() == old(self).position(),
            final(self).results() == old(self).results(),
            final(self).is_saved(),
    {
        self.saved = true;
    }

    /// The results, in the order of the paths.
    pub fn into_results(self) -> (results: Vec<LintResult>)
        requires
            self.well_formed(),
        ensures
            results@ == self.results(),
            follows(self.paths(), results@),
    {
        proof {
            let origins = Seq::new(self.origins@.len(), |k: int| self.origins@[k] as int);
            assert(in_order_of(self.paths@, self.results@, origins, self.paths@.len() as int));
        }
        self.results
    }

    /// Number of files of the batch.
    pub fn file_count(&self) -> (n: usize)
        ensures
            n == self.paths().len(),
    {
        self.paths.len()
    }

    /// Number of results so far.
    pub fn result_count(&self) -> (n: usize)
        ensures
            n == self.results().len(),
    {
        self.results.len()
    }
}

impl Linter {
    /// Begins a batch over the given files, in their order.
    pub fn lint_files(&self, paths: Vec<String>) -> (batch: LintBatch)
        ensures
            batch.well_formed(),
            batch.paths() == paths@,
            batch.position() == 0,
            batch.results().len() == 0,
            !batch.is_saved(),
    {
        LintBatch::new(paths)
    }

    /// Begins a batch over the files among `found` that are to be linted
    /// for the patterns: those that one of the patterns matches and, where
    /// there are include globs, one of them, and no exclude glob; each
    /// once, in the order of paths.  See [`Linter::discover_files`].
    /// Fails exactly when a pattern cannot be compiled, with a
    /// configuration error that names the first such pattern.
    pub fn lint_patterns(&self, patterns: &Vec<String>, found: &Vec<FoundPath>) -> (r: Result<
        LintBatch,
        LinterError,
    >)
        ensures
            match r {
                Ok(batch) => {
                    &&& batch.well_formed()
                    &&& exists|files: Seq<FoundPath>|
                        #[trigger] is_discovery(
                            patterns@,
                            found@,
                            self.include_globs,
                            self.exclude_globs,
                            files,
                        ) && crate::order::text_seq(batch.paths()) == path_texts(files)
                    &&& batch.position() == 0
                    &&& batch.results().len() == 0
                    &&& !batch.is_saved()
                },
                Err(e) => is_pattern_error(patterns@, e),
            },
    {
        match self.discover_files(patterns, found) {
            Ok(files) => {
                let mut paths: Vec<String> = Vec::new();
                let mut i: usize = 0;
                while i < files.len()
                    invariant
                        i <= files.len(),
                        paths@.len() == i,
                        forall|k: int| 0 <= k < i ==> (#[trigger] paths@[k])@ == files@[k].text@,
                    decreases files.len() - i,
                {
                    paths.push(files[i].text.clone());
                    i += 1;
                }
                assert(crate::order::text_seq(paths@) =~= path_texts(files@));
                Ok(self.lint_files(paths))
            },
            Err(e) => Err(e),
        }
    }
}

/// The texts of a list of paths, in order.
pub open spec fn path_texts(files: Seq<FoundPath>) -> Seq<Seq<char>> {
    Seq::new(files.len(), |k: int| files[k].text@)
}

} // verus!
