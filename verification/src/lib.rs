//! A personal document-and-tag cataloguing library.
//!
//! Bibliographic records live in a document catalog; tag values live in a
//! tag catalog.  Each document carries a denormalized, comma-joined snapshot
//! of its associated tag values, and the catalog operations keep that
//! snapshot consistent with the tag catalog when tags are renamed or
//! deleted.

pub mod catalog;
pub mod cli;
pub mod document;
pub mod error;
pub mod laws;
pub mod tag;
pub mod text;
