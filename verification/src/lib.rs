//! Backend logic of an image-tagging tool: an escape-aware tag tokenizer, a
//! tag-hint database that ingests CSV sources and serves ranked autocomplete
//! queries, helpers that classify image and sidecar files by path, and a
//! translation memo cache, each with its contract.

pub mod files;
pub mod hintdb;
pub mod tokenizer;
pub mod translate;
