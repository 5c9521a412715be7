//! Cell merging.

pub mod cell;
