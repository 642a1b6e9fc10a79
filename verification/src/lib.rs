//! An embeddable, transactional full-text search index.
//!
//! Documents are JSON objects keyed by an external string id.  The engine
//! stores them in a document store with dense internal ids, maintains an
//! inverted index of term postings and a facet index over filterable fields,
//! and answers ranked, paginated queries through a multi-criteria pipeline
//! with query-term relaxation.

pub mod errors;
pub mod schema;
pub mod text;
pub mod engine;
pub mod json;
pub mod mutate;
pub mod rank;
pub mod search;
pub mod laws;
