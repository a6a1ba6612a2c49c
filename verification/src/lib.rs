//! Core of a blog-article similarity pipeline.
//!
//! Articles are split into bounded chunks, each chunk is given a numeric
//! embedding vector by an external provider, cosine similarity is computed
//! over all article pairs, and the best-scoring peers are written back into
//! each article's metadata as a small "related articles" list.
//!
//! This crate holds the verified core: the chunker, the embedding byte
//! codec, the in-memory corpus store with its upsert semantics, the
//! relation selector, and the pipeline's stage transitions.  Everything
//! that touches the outside world (files, the database file, HTTP, YAML)
//! lives in the surrounding application and exchanges plain values with
//! this crate.

pub mod chunker;
pub mod codec;
pub mod error;
pub mod front_matter;
pub mod pipeline;
pub mod related;
pub mod store;
pub mod text;
