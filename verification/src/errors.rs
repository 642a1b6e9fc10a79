use vstd::prelude::*;

verus! {

/// The error taxonomy of the engine.  Every fallible operation returns one of
/// these variants; no verified function of this crate panics.
#[derive(Clone, Copy, Debug, PartialEq, Eq, Structural)]
pub enum EngineError {
    /// Path or filesystem failure while opening an index.
    IoError,
    /// Invalid or unsatisfiable schema or filter.
    ConfigError,
    /// Begin or commit failure on the storage substrate.
    TransactionError,
    /// Malformed input document in a mutation batch.
    ParseError,
    /// Reference to a nonexistent document id during decode.
    NotFound,
    /// Query execution failure not covered by the other variants.
    SearchError,
}

} // verus!
