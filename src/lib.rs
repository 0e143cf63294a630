//! Directory navigation aid: a visit history ranked by frequency and
//! recency, named tags for directories, and fuzzy search over the history.
//!
//! The stores here are in-memory models of the two persistent tables; the
//! program that owns the database loads them, applies one operation, and
//! writes back the records that the operation returns.

pub mod ranking;
pub mod text;
pub mod visits;
pub mod tags;
pub mod error;
pub mod search;
pub mod paths;
pub mod shell;
mod clock;
