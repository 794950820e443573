//! Core logic of a small gallery backend: listing a directory's immediate
//! entries sorted by name, and packaging a fetched image body as a data URI.
pub mod encoding;
pub mod fetcher;
pub mod lister;
