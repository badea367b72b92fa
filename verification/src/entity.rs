//! Handles by which the host names its simulation objects.

use vstd::prelude::*;

verus! {

/// An opaque handle of a simulation object: the slot it lives in and the
/// generation of that slot. The crate compares handles and uses the slot
/// number as a key; it never looks behind one.
#[derive(Clone, Copy, Debug, PartialEq, Eq, Hash, Structural)]
pub struct Entity {
    pub index: u32,
    pub generation: u32,
}

impl Entity {
    /// The handle of generation `generation` for slot `index`.
    pub fn new(index: u32, generation: u32) -> (e: Entity)
        ensures
            e.index == index,
            e.generation == generation,
    {
        Entity { index, generation }
    }

    /// The slot number.
    pub fn index(&self) -> (i: u32)
        ensures
            i == self.index,
    {
        self.index
    }

    /// The generation of the slot at the time the handle was made.
    pub fn generation(&self) -> (g: u32)
        ensures
            g == self.generation,
    {
        self.generation
    }
}

} // verus!
