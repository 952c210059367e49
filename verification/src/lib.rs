//! A small, verified key/value state manager for a todo list.
//!
//! The store maps item names (non-empty strings)
//! to a completion flag, and persists the whole mapping as a single JSON
//! object whose keys are the item names and whose values are booleans.
//! File and lock handling belong to the host; the store itself only
//! produces and consumes the JSON text.

pub mod model;
pub mod json;
pub mod store;
