//! Docset metadata and page records, as the store keeps them.

use vstd::prelude::*;

verus! {

/// An installed docset.
#[derive(Debug, Clone)]
pub struct Docset {
    /// Stable id used everywhere else (the DevDocs slug, e.g. `react`, `python~3.12`).
    pub id: String,
    pub name: String,
    pub source: String,
    pub version: String,
    pub release: String,
    /// Upstream modification time; compared against the catalog to detect updates.
    pub mtime: i64,
    pub installed_at: i64,
}

/// A named symbol or page of a docset's own index.
#[derive(Debug, Clone)]
pub struct Entry {
    pub name: String,
    /// Page path, optionally with `#anchor`.
    pub path: String,
    pub kind: String,
}

/// One page of a docset: its original HTML and its markdown.
pub struct Page {
    pub path: String,
    pub html: String,
    pub markdown: String,
}

/// Calls `SystemTime::now` and returns the whole seconds since the Unix
/// epoch, or 0 for a clock set before it. Nothing is promised of the value:
/// it is the clock's.
#[verifier::external_body]
pub fn now() -> (r: i64) {
    std::time::SystemTime::now()
        .duration_since(std::time::UNIX_EPOCH)
        .map_or(0, |d| d.as_secs() as i64)
}

} // verus!
