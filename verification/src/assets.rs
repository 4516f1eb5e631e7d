//! Identity of what is traded.

use vstd::prelude::*;

verus! {

/// The identity of a tradeable instrument: an opaque key that orders, books
/// and trades carry and compare.
#[derive(Clone, Copy, Debug, PartialEq, Eq, Hash, Structural)]
pub struct Instrument {
    pub id: u64,
}

impl Instrument {
    pub fn new(id: u64) -> (r: Instrument)
        ensures
            r.id == id,
    {
        Instrument { id }
    }

    pub fn id(&self) -> (r: u64)
        ensures
            r == self.id,
    {
        self.id
    }
}

} // verus!
