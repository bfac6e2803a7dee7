//! Action-execution toolkit for a coding agent: bounded text truncation,
//! path resolution, anchored file editing, shell-output assembly, and
//! search-result rendering, with machine-checked contracts.

pub mod bash;
pub mod bytefind;
pub mod edit;
pub mod normalize;
pub mod path;
pub mod provenance;
pub mod render;
pub mod scan;
pub mod search;
pub mod text;
pub mod tools;
pub mod truncate;

use vstd::prelude::*;

verus! {

/// Default maximum number of lines kept by output truncation.
pub const DEFAULT_MAX_LINES: usize = 2000;

/// Default maximum number of bytes kept by output truncation.
pub const DEFAULT_MAX_BYTES: usize = 50 * 1024;

/// Maximum rendered length, in characters, of a single search result line.
pub const GREP_MAX_LINE_LENGTH: usize = 500;

/// Default shell-command timeout in seconds.
pub const DEFAULT_BASH_TIMEOUT: u64 = 120;

/// Default cap on content-search matches.
pub const DEFAULT_GREP_LIMIT: usize = 1000;

/// Default cap on filename-search results.
pub const DEFAULT_FIND_LIMIT: usize = 1000;

/// Default cap on directory-listing entries.
pub const DEFAULT_LS_LIMIT: usize = 1000;

} // verus!
