//! The smallest unit of the world.

use vstd::prelude::*;

verus! {

/// One voxel: a material id and its health.
///
/// Material id 0 is air; every other id is an opaque solid. The health is
/// kept as the IEEE-754 bit pattern of a single-precision value, so that
/// equality stays structural and exact.
#[derive(Clone, Copy, Debug, PartialEq, Eq, Hash, Structural)]
pub struct Block {
    pub id: u16,
    pub health: u32,
}

/// The air block: id 0, health 0.
pub open spec fn air() -> Block {
    Block { id: 0, health: 0 }
}

impl Block {
    pub fn new(id: u16, health: u32) -> (r: Block)
        ensures
            r == (Block { id, health }),
    {
        Block { id, health }
    }

    /// The air block.
    pub fn air() -> (r: Block)
        ensures
            r == air(),
    {
        Block { id: 0, health: 0 }
    }

    /// Whether the block occludes the faces of its neighbours.
    pub open spec fn solid(self) -> bool {
        self.id != 0
    }

    pub fn is_solid(&self) -> (r: bool)
        ensures
            r == self.solid(),
    {
        self.id != 0
    }
}

} // verus!
