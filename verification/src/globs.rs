//! Glob patterns, by the `globset` crate.
//!
//! What a glob or a set of globs was made from is stated.  Whether a
//! pattern can be compiled and what a set matches are the crate's to say:
//! they are named here, as functions of the patterns and the path on the
//! platform for which the crate is built, and the engine is verified over
//! the names.

use vstd::prelude::*;

verus! {

/// A parsed glob pattern.
#[verifier::external_type_specification]
#[verifier::external_body]
pub struct ExGlob(globset::Glob);

/// A set of compiled glob patterns.
#[verifier::external_type_specification]
#[verifier::external_body]
pub struct ExGlobSet(globset::GlobSet);

/// A set of glob patterns in the making.
#[verifier::external_type_specification]
#[verifier::external_body]
pub struct ExGlobSetBuilder(globset::GlobSetBuilder);

/// Why a pattern could not be parsed or compiled.
#[verifier::external_type_specification]
#[verifier::external_body]
pub struct ExGlobError(globset::Error);

/// The pattern that a glob was parsed from.
pub uninterp spec fn glob_source(glob: globset::Glob) -> Seq<char>;

/// The patterns of the globs that were added to a builder, in order.
pub uninterp spec fn builder_sources(builder: globset::GlobSetBuilder) -> Seq<Seq<char>>;

/// The patterns of the globs that a set was built from, in order.
pub uninterp spec fn set_sources(set: globset::GlobSet) -> Seq<Seq<char>>;

/// What parsing a pattern as a glob fails with: the text of the error of
/// `Glob::new`, or `None` where the pattern can be parsed.
pub uninterp spec fn glob_failure(pattern: Seq<char>) -> Option<Seq<char>>;

/// What building a set of the globs of these patterns fails with: the text
/// of the error of `GlobSetBuilder::build`, or `None` where the set can be
/// built.
pub uninterp spec fn set_failure(patterns: Seq<Seq<char>>) -> Option<Seq<char>>;

/// Whether the set of the globs of these patterns matches the path: what
/// `GlobSet::is_match` answers.
pub uninterp spec fn globs_accept(patterns: Seq<Seq<char>>, path: Seq<char>) -> bool;

/// The text of an error of `globset`, as its `Display` writes it.
pub uninterp spec fn error_message(error: globset::Error) -> Seq<char>;

/// The extension of a path, as `std::path::Path::extension` gives it, where
/// there is one and it is text.
pub uninterp spec fn path_extension(path: Seq<char>) -> Option<Seq<char>>;

/// A set, if any, that was built from these patterns; none where there are
/// no patterns.
pub open spec fn made_of(set: Option<globset::GlobSet>, patterns: Seq<Seq<char>>) -> bool {
    match set {
        Some(globs) => patterns.len() > 0 && set_sources(globs) == patterns,
        None => patterns.len() == 0,
    }
}

/// Calls `globset::Glob::new`.  Trusted: the call is a function of the
/// pattern alone; a glob that is returned was parsed from the pattern, and
/// an error is the failure that `glob_failure` names.
#[verifier::external_body]
pub(crate) fn glob_new(pattern: &str) -> (r: Result<globset::Glob, globset::Error>)
    ensures
        match r {
            Ok(glob) => glob_failure(pattern@) is None && glob_source(glob) == pattern@,
            Err(e) => glob_failure(pattern@) == Some(error_message(e)),
        },
{
    globset::Glob::new(pattern)
}

/// Calls `globset::GlobSetBuilder::new`.  Trusted: the builder holds no
/// glob.
#[verifier::external_body]
pub(crate) fn builder_new() -> (builder: globset::GlobSetBuilder)
    ensures
        builder_sources(builder) == Seq::<Seq<char>>::empty(),
{
    globset::GlobSetBuilder::new()
}

/// Calls `globset::GlobSetBuilder::add`.  Trusted: the glob is added after
/// the globs that the builder holds.
#[verifier::external_body]
pub(crate) fn builder_add(builder: &mut globset::GlobSetBuilder, glob: globset::Glob)
    ensures
        builder_sources(*final(builder)) == builder_sources(*old(builder)).push(glob_source(glob)),
{
    builder.add(glob);
}

/// Calls `globset::GlobSetBuilder::build`.  Trusted: the call is a
/// function of the globs that the builder holds, each parsed from its
/// pattern; a set that is returned was built from them, and an error is
/// the failure that `set_failure` names.
#[verifier::external_body]
pub(crate) fn builder_build(builder: &globset::GlobSetBuilder) -> (r: Result<
    globset::GlobSet,
    globset::Error,
>)
    ensures
        match r {
            Ok(set) => set_failure(builder_sources(*builder)) is None && set_sources(set)
                == builder_sources(*builder),
            Err(e) => set_failure(builder_sources(*builder)) == Some(error_message(e)),
        },
{
    builder.build()
}

/// Calls `globset::GlobSet::is_match`.  Trusted: the answer is a function
/// of the patterns that the set was built from and of the path, the one
/// that `globs_accept` names.
#[verifier::external_body]
pub(crate) fn set_matches(set: &globset::GlobSet, path: &str) -> (b: bool)
    ensures
        b == globs_accept(set_sources(*set), path@),
{
    set.is_match(path)
}

/// Writes a `globset::Error` with its `Display`.  Trusted: the result is
/// the text of the error.
#[verifier::external_body]
pub(crate) fn error_text(error: &globset::Error) -> (text: String)
    ensures
        text@ == error_message(*error),
{
    error.to_string()
}

/// Calls `std::path::Path::extension` on a path and takes the result as
/// text, where it is text.  Trusted: the result is a function of the path
/// alone, the one that `path_extension` names.
#[verifier::external_body]
pub(crate) fn file_extension(path: &str) -> (extension: Option<String>)
    ensures
        match extension {
            Some(text) => path_extension(path@) == Some(text@),
            None => path_extension(path@) is None,
        },
{
    std::path::Path::new(path).extension().and_then(|e| e.to_str()).map(|e| e.to_string())
}

} // verus!
