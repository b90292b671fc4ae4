//! Working-directory materialization core of a version-control engine.
//!
//! The crate turns an immutable, content-addressed tree snapshot into an
//! ordered staging table (the index), serializes that table to a canonical
//! binary image, decides how a checkout proceeds (worker count, preconditions,
//! cooperative cancellation), and evaluates paths against layered
//! ignore-pattern sources with well-defined precedence.

pub mod bytepath;
pub mod tree;
pub mod index;
pub mod codec;
pub mod glob;
pub mod exclude;
pub mod checkout;
