//! Services and endpoint slices.
pub mod context;
pub mod handler;
pub mod watcher;
