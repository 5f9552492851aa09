//! The filter type, for glob import.

pub use crate::AlephFilter;
