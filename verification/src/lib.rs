//! Storage core of a property-graph database over an ordered key-value
//! store with column families and atomic write batches.
//!
//! Composite keys are concatenations of typed components forming a prefix
//! code, so lexicographic byte order equals component-tuple order; the
//! managers exploit this for prefix-bounded range scans and cascading,
//! batch-atomic cross-index mutations.

pub mod codec;
pub mod json;
pub mod laws;
pub mod managers;
pub mod store;
pub mod types;
