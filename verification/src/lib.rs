//! A verified task store for the todo.txt plain-text convention.
//!
//! The store keeps tasks as one line of text each, annotated with a
//! priority, dates, projects, contexts and free-form `key:value` tags.
//! This crate provides the parsing and serialization of that line format,
//! the recurrence engine that computes follow-up dates when a recurring
//! task is completed, the list that loads from and renders to the two
//! backing files (open tasks and done tasks), and the small protocols
//! that keep writing safe: backup before overwrite, and suspension of the
//! file watcher around the store's own writes.

pub mod date;
pub mod filter;
pub mod laws;
pub mod list;
pub mod persist;
pub mod preferences;
pub mod recurrence;
pub mod task;
pub mod text;
pub mod watch;
