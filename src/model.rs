//! The records that the library hands out, and their mathematical views.
use vstd::prelude::*;

verus! {

/// A point in time: whole seconds since the Unix epoch and the nanoseconds
/// past them.
#[derive(Clone, Copy, Debug, PartialEq, Eq, Structural)]
pub struct Timestamp {
    pub secs: i64,
    pub nanos: u32,
}

/// Metadata of one document of the tree.
#[derive(Clone, Debug)]
pub struct DocMeta {
    /// Relative to the root, with `/` between components.
    pub path: String,
    /// The file name without its extension.
    pub name: String,
    pub ext: String,
    pub size: u64,
    pub modified: Option<Timestamp>,
}

/// The mathematical view of a `DocMeta`: its strings as character sequences.
pub struct DocMetaView {
    pub path: Seq<char>,
    pub name: Seq<char>,
    pub ext: Seq<char>,
    pub size: u64,
    pub modified: Option<Timestamp>,
}

impl View for DocMeta {
    type V = DocMetaView;

    open spec fn view(&self) -> DocMetaView {
        DocMetaView {
            path: self.path@,
            name: self.name@,
            ext: self.ext@,
            size: self.size,
            modified: self.modified,
        }
    }
}

/// A loaded document with its fingerprint and, for markdown, its HTML.
#[derive(Clone, Debug)]
pub struct DocContent {
    pub meta: DocMeta,
    pub etag: String,
    pub content: String,
    pub rendered_html: Option<String>,
}

/// One matching file: its path, the number of matching lines, and the first
/// few of them.
#[derive(Clone, Debug)]
pub struct SearchResultEntry {
    pub path: String,
    pub score: u32,
    pub line_snippets: Vec<String>,
}

/// The mathematical view of a `SearchResultEntry`: its strings as character
/// sequences.
pub struct SearchResultEntryView {
    pub path: Seq<char>,
    pub score: u32,
    pub line_snippets: Seq<Seq<char>>,
}

impl View for SearchResultEntry {
    type V = SearchResultEntryView;

    open spec fn view(&self) -> SearchResultEntryView {
        SearchResultEntryView {
            path: self.path@,
            score: self.score,
            line_snippets: self.line_snippets@.map_values(|s: String| s@),
        }
    }
}

/// The outcome of a search: the normalised query, the hits in rank order and
/// how long the search took.
#[derive(Clone, Debug)]
pub struct SearchResponse {
    pub query: String,
    pub total_results: usize,
    pub results: Vec<SearchResultEntry>,
    pub took_ms: u128,
}

/// The views of the items of `v`, in order.
pub open spec fn metas_view(v: Seq<DocMeta>) -> Seq<DocMetaView> {
    v.map_values(|m: DocMeta| m@)
}

/// The views of the items of `v`, in order.
pub open spec fn entries_view(v: Seq<SearchResultEntry>) -> Seq<SearchResultEntryView> {
    v.map_values(|e: SearchResultEntry| e@)
}

} // verus!
