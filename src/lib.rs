//! Notify a chat about Hacker News stories that have become notable.
//!
//! The library holds the decisions of one refresh: which of the top
//! stories are new, how many lookups may run at once, which resolved
//! stories are worth a message, how that message reads, and how the set of
//! stories already handled grows and is stored.

pub mod dedup;
pub mod item;
pub mod pipeline;

pub use dedup::{CacheRead, DedupSet, LoadWarning};
pub use item::{HNItem, StoryError};
