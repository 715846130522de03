//! An in-memory catalog of courses: a fixed-size hash table with separate
//! chaining, keyed by course number, together with the reader that turns a
//! comma-separated source into the records it holds.

pub mod hash_table;
pub mod loader;
pub mod parser;
pub mod shell;
pub mod text;
