//! Aleph filter: an expandable quotient filter for approximate membership
//! queries, with insertion, lookup, deletion and expansion.

pub mod hash;
pub mod metadata;
pub mod slot;
mod aleph_filter;
pub mod layout;
pub mod removal;
pub mod room;
pub mod census;
pub mod prelude;

pub use aleph_filter::AlephFilter;
