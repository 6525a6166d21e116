//! A compile-time token-substitution engine.
//!
//! The library walks a tree of source tokens and replaces every placeholder
//! marker found inside an identifier with the current value of a counter,
//! advancing that counter after each substitution.  A marker is spelled
//! `_int_` (the default counter) or `_int_<name>_` (a named counter, where
//! `<name>` contains neither underscore nor whitespace).  Distinct counters
//! advance independently; all start at zero and are scoped to one invocation.
//!
//! Two entry points differ only in their overflow policy: [`count`] aborts
//! the whole invocation with a diagnostic when a counter would pass the
//! largest `usize`, while [`wrapping_count`] silently wraps to zero.

pub mod token;
pub mod matcher;
pub mod registry;
pub mod decimal;
pub mod rewrite;
pub mod laws;

pub use rewrite::{count, wrapping_count};
