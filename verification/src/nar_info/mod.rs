//! What substituters say about store paths.
pub mod completion;
pub mod conversation;
pub mod directory;
pub mod header;
pub mod listing;
pub mod request;
