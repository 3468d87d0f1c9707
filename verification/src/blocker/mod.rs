//! Block and allow lists.
pub mod context;
pub mod cover;
pub mod domains;
pub mod handler;
pub mod refresher;
