//! Table detection: the parts of the lattice, stream and router strategies that
//! work on cells, strings and graphs.

pub mod dl;
pub mod lattice;
pub mod stream;

use vstd::prelude::*;

use crate::{Table, TrexError};

verus! {

/// The mode a detection used.
#[derive(Debug, Clone, Copy, PartialEq, Eq, Structural)]
pub enum DetectionMode {
    Lattice,
    Stream,
}


/// Runs the lattice detector and, when it finds no table, the stream
/// detector: an error of the lattice detector is returned as it is.
pub fn detect_auto<L, S>(lattice: L, stream: S) -> (r: Result<Vec<Table>, TrexError>) where
    L: FnOnce() -> Result<Vec<Table>, TrexError>,
    S: FnOnce() -> Result<Vec<Table>, TrexError>,

    requires
        lattice.requires(()),
        stream.requires(()),
    ensures
        exists|first: Result<Vec<Table>, TrexError>|
            #![trigger lattice.ensures((), first)]
            lattice.ensures((), first) && match first {
                Ok(v) => if v.len() > 0 {
                    r == first
                } else {
                    stream.ensures((), r)
                },
                Err(_) => r == first,
            },
{
    let first = lattice();
    match first {
        Ok(tables) => {
            if tables.len() > 0 {
                Ok(tables)
            } else {
                stream()
            }
        },
        Err(e) => Err(e),
    }
}

} // verus!
