//! A uniform grid that buckets mobile entities by cell, for range queries
//! over a fixed-size world.
//!
//! Entities are known to the grid by their identifier and by the index of
//! the cell they stand in; the entities themselves live in a table that the
//! caller owns and passes in where it is needed.

pub mod grid;
pub mod laws;
pub mod lemmas;
pub mod model;
