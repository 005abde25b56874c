//! A file fetched as a window of chunks, each over a connection of its own, and handed out
//! in order.
pub mod budget;
pub mod chunk;
pub mod chunked;
pub mod coverage;
pub mod delivery;
pub mod driving;
pub mod ending;
pub mod interface;
pub mod items;
pub mod launching;
pub mod laws;
pub mod model;
pub mod order;
pub mod piece;
pub mod preserve;
pub mod range;
pub mod retry;
pub mod run;
pub mod steps;
pub mod sum;
pub mod window;
