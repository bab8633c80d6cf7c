use vstd::prelude::*;

verus! {

/// The failures this layer reports. Absent keys are never errors: lookups
/// return `None` or `false` instead.
#[derive(Debug, Clone, Copy, PartialEq, Eq, Structural)]
pub enum TypedStoreError {
    /// A positional accessor was called on an iterator that was never
    /// positioned by a seek or a first `next`.
    IteratorNotInitialized,
    /// Stored bytes do not parse as the expected type.
    DecodeError,
    /// A batch staging call targeted a map whose store differs from the
    /// batch's originating store; rejected at stage time.
    CrossStoreBatchError,
    /// A reopen requested a logical partition that does not exist.
    PartitionNotFound,
    /// An opaque failure of the underlying engine.
    EngineError,
}

} // verus!
