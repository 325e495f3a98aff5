//! Extraction, bundling and checking of annotated code snippets.
//!
//! Declarations marked `#[codesnip::entry]` are collected from a tree of modules
//! (inlined from their files, with conditional-compile predicates applied) into a map
//! of named snippets, each with the names it depends on. A snippet is bundled with
//! everything it depends on, each once; bundles are checked by compiling them alone.

pub mod map;
pub mod syntax;
pub mod cfg;
pub mod filter;
pub mod entry;
pub mod collect;
pub mod paths;
pub mod resolve;
pub mod check;
pub mod format;
pub mod vscode;
pub mod source;

pub use cfg::{CfgSet, Truth};
pub use check::{run_passed, CheckUnit, UnitResult};
pub use filter::Filter;
pub use format::FormatOption;
pub use map::{Fragment, LinkedSnippet, SnippetMap};
pub use resolve::{parse_file_recursive, Error, FileStore, Probe, Resolution, SourceFile};
pub use source::{GitDependency, GitHubSource};
pub use vscode::VsCode;
