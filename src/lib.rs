//! Discovery, loading, fingerprinting and full-text search of a tree of
//! text documents.
pub mod document;
pub mod listing;
pub mod model;
pub mod order;
pub mod search;
pub mod server;
pub mod text;
