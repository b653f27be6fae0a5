//! Aggregation of schema sources into one catalog, and the shortest
//! unambiguous qualified form of a mapping name among its siblings.

pub mod catalog;
pub mod filter;
pub mod loader;
pub mod manifest;
pub mod names;
pub mod schema;
pub mod tables;
pub mod text;
