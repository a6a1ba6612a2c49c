//! Errors reported by the pipeline's verified core.
//!
//! Each variant names the offending article or value so a caller can
//! locate the document that triggered it.

use vstd::prelude::*;

verus! {

#[derive(Debug, Clone, Copy, PartialEq, Eq, Structural)]
pub enum PipelineError {
    /// A persisted embedding blob whose byte length is not a multiple of
    /// the per-element width.
    BadEmbeddingLength { len: usize },
    /// An article entered a similarity comparison with no embedded chunks.
    NoEmbeddedChunks { article: u64 },
    /// Two compared articles carry embeddings of different dimensions.
    DimensionMismatch { a: u64, b: u64 },
    /// A pipeline stage was invoked with another stage's input.
    InputMismatch,
}

} // verus!
