//! Convenient re-exports of the commonly used types.

pub use crate::{TagId, TagList, TagRegistry};
