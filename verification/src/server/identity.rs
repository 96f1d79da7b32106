use vstd::prelude::*;

verus! {

/// The identity of a client of the server: a 256-bit value, as two halves.
#[derive(Debug, Clone, Copy, PartialEq, Eq, Hash, Structural)]
pub struct Identity {
    pub high: u128,
    pub low: u128,
}

} // verus!
