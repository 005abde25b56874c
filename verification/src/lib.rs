//! Streaming of Nix archives in concurrently fetched chunks, and listing of store path
//! directories on substituters.
pub mod fault;
pub mod nar_info;
pub mod stream;
