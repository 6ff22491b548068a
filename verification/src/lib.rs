//! A pluggable linter core for prose documents.
//!
//! The crate holds the prose syntax tree and the arena that owns it, the
//! Markdown and plain-text parsers that build it, the view of the tree that
//! rules receive, the rule registry and the gathering of what the rules
//! found, the fingerprint cache, the configuration model and the engine
//! that ties them together.  The crate's own functions are verified
//! against contracts stated over mathematical views of the data.  The
//! calls into the `markdown`, `serde_json`, `blake3` and `globset` crates
//! and into `std::path` are not: each stands in a small wrapper whose
//! contract is believed as it is written, and whose doc comment says what
//! is believed.  They are in [`markdown_parser`], [`json`], [`hash`] and
//! [`globs`].
//!
//! The crate does not read files, walk directories or run rule modules:
//! it is handed contents and outcomes, and it says what is to be done
//! with them.
//!
//! * [`ast`]: spans, node kinds, nodes and their arena.
//! * [`parser`], [`markdown_parser`], [`text_parser`]: from source text to
//!   a tree.
//! * [`plugin_view`]: the tree as JSON text, for the rules.
//! * [`diagnostic`], [`plugin`]: findings, manifests, the registry of rules
//!   and the gathering of their findings.
//! * [`cache`]: results under the fingerprint of content, configuration
//!   and rule versions.
//! * [`config`]: the configuration, its reading from JSON and its hash.
//! * [`linter`], [`batch`]: the engine, file by file and batch by batch.
//! * [`result`]: results and their summary.
//! * [`order`], [`paths`], [`table`], [`json`], [`hash`], [`globs`],
//!   [`error`]: the order of strings and of paths, maps keyed by strings,
//!   JSON text, content hashes, glob sets and errors.

pub mod ast;
pub mod error;
pub mod order;
pub mod paths;
pub mod table;
pub mod json;
pub mod hash;
pub mod parser;
pub mod markdown_parser;
pub mod text_parser;
pub mod plugin_view;
pub mod diagnostic;
pub mod plugin;
pub mod cache;
pub mod config;
pub mod result;
pub mod globs;
pub mod linter;
pub mod batch;
