//! A key-value store kept in a B+ tree whose nodes live in pages handed out by a page manager.
pub mod btree;
pub mod engine;
pub mod errors;
pub mod logging;
pub mod load;
