//! Settings of the HTTP service that the library decides.
use vstd::prelude::*;

verus! {

/// The number of hits a search returns when the client names no limit.
pub const DEFAULT_LIMIT: usize = 50;

/// The most hits a search may return, whatever the client asks.
pub const MAX_LIMIT: usize = 200;

/// The limit used when a search request names none.
pub fn default_limit() -> (r: usize)
    ensures
        r == DEFAULT_LIMIT,
{
    DEFAULT_LIMIT
}

/// The limit requested, held to at most `MAX_LIMIT`.
pub fn clamp_limit(limit: usize) -> (r: usize)
    ensures
        r == if limit < MAX_LIMIT { limit } else { MAX_LIMIT },
{
    if limit < MAX_LIMIT {
        limit
    } else {
        MAX_LIMIT
    }
}

/// What every request handler shares: the root of the tree served and
/// whether markdown documents are rendered to HTML.
#[derive(Clone, Debug)]
pub struct AppState {
    pub docs_root: String,
    pub render_markdown: bool,
}

} // verus!
