use vstd::prelude::*;

verus! {

/// Errors reported by the storage core.
///
/// The variants that wrap an engine's own error (I/O, serialization, the
/// on-disk store) carry that error's message.
#[derive(Debug, Clone, PartialEq, Eq)]
pub enum TaoError {
    Io(String),
    Serialization(String),
    Storage(String),
    HashMismatch { expected: String, actual: String },
    NotFound(String),
    InsufficientFragments { have: usize, need: usize },
    QiState(String),
    Crypto(String),
    Network(String),
    Consensus(String),
    Wasm(String),
}

pub type TaoResult<T> = Result<T, TaoError>;

} // verus!
