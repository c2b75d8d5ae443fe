//! Keeps the stored description of a project's instance tree in step with an
//! editor: batches of requests, each with an address of names, put nodes into
//! the tree or take them out, and a directory is listed as a sorted run of
//! paths. Every function here is verified against a contract over the values
//! of the tree; reading and writing files, and the server, are left to the
//! program around this library.

pub mod config;
pub mod laws;
pub mod order;
pub mod outside;
pub mod patch;
pub mod replay;
pub mod scrape;
pub mod store;
pub mod text;
pub mod tree;
