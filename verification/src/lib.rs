//! Utilities to support transactional versioning.
//!
//! The [`queue`] module holds a bounded queue of caller-driven transactional tasks. Its
//! behaviour is stated over a mathematical model and proved by Verus.

pub mod error;
pub mod order;
pub mod queue;

pub use crate::error::Error;
