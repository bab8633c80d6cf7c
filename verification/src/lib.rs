//! A typed, ordered key-value storage layer.
//!
//! Callers open a [`Store`](store::Store) holding one or more named logical
//! partitions, derive typed maps ([`DBMap`](map::DBMap)) over it, batch
//! mutations atomically across partitions ([`DBBatch`](batch::DBBatch)),
//! scan ranges through bounded, error-surfacing iterators
//! ([`SafeIter`](iter::SafeIter), [`SafeRevIter`](iter::SafeRevIter)), and
//! limit telemetry with a dual-threshold sampler
//! ([`SamplingInterval`](sampling::SamplingInterval)).

pub mod batch;
pub mod codec;
pub mod engine;
pub mod error;
pub mod iter;
pub mod laws;
pub mod map;
pub mod order;
pub mod sampling;
pub mod store;

pub use batch::DBBatch;
pub use error::TypedStoreError;
pub use iter::SafeIter;
pub use iter::SafeRevIter;
pub use map::DBMap;
pub use sampling::SamplingInterval;
pub use store::Store;
