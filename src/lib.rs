//! A schema-driven persistence layer: message descriptors are analysed into
//! collection and single-record definitions, and typed operations are turned
//! into keyed requests against the partitions of an embedded key-value engine.
pub mod access;
pub mod keys;
pub mod registry;
pub mod schema;

pub use access::{DbGuard, Error};
