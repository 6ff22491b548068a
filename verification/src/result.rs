//! Results of linting: one per file, and their summary.

use crate::diagnostic::Diagnostic;
use vstd::prelude::*;

verus! {

/// The result of linting one file.
#[derive(Debug)]
pub struct LintResult {
    /// The path of the file.
    pub path: String,
    /// What the rules found in it.
    pub diagnostics: Vec<Diagnostic>,
    /// Whether the findings were taken from the cache.
    pub from_cache: bool,
}

impl LintResult {
    /// A result that was computed.
    pub fn new(path: String, diagnostics: Vec<Diagnostic>) -> (r: LintResult)
        ensures
            r.path == path,
            r.diagnostics == diagnostics,
            !r.from_cache,
    {
        LintResult { path, diagnostics, from_cache: false }
    }

    /// A result that was taken from the cache.
    pub fn cached(path: String, diagnostics: Vec<Diagnostic>) -> (r: LintResult)
        ensures
            r.path == path,
            r.diagnostics == diagnostics,
            r.from_cache,
    {
        LintResult { path, diagnostics, from_cache: true }
    }

    /// Whether anything was found.
    pub fn has_errors(&self) -> (b: bool)
        ensures
            b == (self.diagnostics@.len() > 0),
    {
        self.diagnostics.len() > 0
    }

    /// Number of findings.
    pub fn error_count(&self) -> (n: usize)
        ensures
            n == self.diagnostics@.len(),
    {
        self.diagnostics.len()
    }
}

/// Number of results taken from the cache.
pub open spec fn cached_count(results: Seq<LintResult>) -> nat
    decreases results.len(),
{
    if results.len() == 0 {
        0
    } else {
        cached_count(results.drop_last()) + if results.last().from_cache {
            1nat
        } else {
            0nat
        }
    }
}

/// Number of findings in all the results.
pub open spec fn diagnostics_total(results: Seq<LintResult>) -> nat
    decreases results.len(),
{
    if results.len() == 0 {
        0
    } else {
        diagnostics_total(results.drop_last()) + results.last().diagnostics@.len()
    }
}

/// Number of results with a finding.
pub open spec fn flagged_count(results: Seq<LintResult>) -> nat
    decreases results.len(),
{
    if results.len() == 0 {
        0
    } else {
        flagged_count(results.drop_last()) + if results.last().diagnostics@.len() > 0 {
            1nat
        } else {
            0nat
        }
    }
}

/// Neither count exceeds the number of results.
pub proof fn lemma_counts_bounded(results: Seq<LintResult>)
    ensures
        cached_count(results) <= results.len(),
        flagged_count(results) <= results.len(),
    decreases results.len(),
{
    if results.len() > 0 {
        lemma_counts_bounded(results.drop_last());
    }
}

/// A count as far as the machine's word holds it.
pub open spec fn capped(n: nat) -> usize {
    if n <= usize::MAX {
        n as usize
    } else {
        usize::MAX
    }
}

/// Counts over a batch of results.
#[derive(Debug)]
pub struct LintSummary {
    /// Number of files.
    pub files_checked: usize,
    /// Number of files whose result came from the cache.
    pub files_from_cache: usize,
    /// Number of findings; the largest number that fits where there are
    /// more.
    pub total_diagnostics: usize,
    /// Number of files with a finding.
    pub files_with_errors: usize,
}

impl Default for LintSummary {
    fn default() -> (s: LintSummary)
        ensures
            s.files_checked == 0,
            s.files_from_cache == 0,
            s.total_diagnostics == 0,
            s.files_with_errors == 0,
    {
        LintSummary {
            files_checked: 0,
            files_from_cache: 0,
            total_diagnostics: 0,
            files_with_errors: 0,
        }
    }
}

impl LintSummary {
    /// The summary of a batch.
    pub fn from_results(results: &[LintResult]) -> (s: LintSummary)
        ensures
            s.files_checked == results@.len(),
            s.files_from_cache == cached_count(results@),
            s.total_diagnostics == capped(diagnostics_total(results@)),
            s.files_with_errors == flagged_count(results@),
    {
        let mut s = LintSummary::default();
        let mut i: usize = 0;
        assert(results@.take(0) =~= Seq::empty());
        while i < results.len()
            invariant
                i <= results@.len(),
                s.files_checked == i,
                s.files_from_cache == cached_count(results@.take(i as int)),
                s.total_diagnostics == capped(diagnostics_total(results@.take(i as int))),
                s.files_with_errors == flagged_count(results@.take(i as int)),
            decreases results.len() - i,
        {
            proof {
                let next = results@.take(i + 1);
                assert(next.drop_last() =~= results@.take(i as int));
                assert(next.last() == results@[i as int]);
                lemma_counts_bounded(next);
            }
            let result = &results[i];
            s.files_checked += 1;
            if result.from_cache {
                s.files_from_cache += 1;
            }
            let found = result.diagnostics.len();
            if found > usize::MAX - s.total_diagnostics {
                s.total_diagnostics = usize::MAX;
            } else {
                s.total_diagnostics += found;
            }
            if result.has_errors() {
                s.files_with_errors += 1;
            }
            i += 1;
        }
        assert(results@.take(i as int) =~= results@);
        s
    }
}

} // verus!
