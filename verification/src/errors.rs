//! The error taxonomy of the search engine.

use vstd::prelude::*;

verus! {

/// A fatal or per-file failure of a search run.
///
/// Only `InvalidPattern` is produced by the library itself (pattern
/// compilation is the one fallible step that happens on plain values).
/// The remaining variants describe failures of the I/O layer around the
/// library, which constructs them itself: a root path that does not exist,
/// a candidate file that cannot be read, a directory entry that cannot be
/// inspected.
#[derive(Debug)]
pub enum SearchError {
    /// The pattern failed to compile; carries the original pattern text.
    InvalidPattern(String),
    /// A given root path does not exist; carries the path.
    PathNotFound(String),
    /// A candidate file could not be opened or read; carries the path.
    FileReadError(String),
    /// A directory entry could not be inspected; carries the directory.
    DirectoryWalkError(String),
}

impl SearchError {
    /// The text carried by the error (pattern or path).
    pub fn detail(&self) -> (r: &str)
        ensures
            r@ == self.detail_spec(),
    {
        match self {
            SearchError::InvalidPattern(s) => s.as_str(),
            SearchError::PathNotFound(s) => s.as_str(),
            SearchError::FileReadError(s) => s.as_str(),
            SearchError::DirectoryWalkError(s) => s.as_str(),
        }
    }

    pub open spec fn detail_spec(&self) -> Seq<char> {
        match self {
            SearchError::InvalidPattern(s) => s@,
            SearchError::PathNotFound(s) => s@,
            SearchError::FileReadError(s) => s@,
            SearchError::DirectoryWalkError(s) => s@,
        }
    }
}

} // verus!
