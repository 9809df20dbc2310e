//! A player's inventory.

use vstd::prelude::*;
use crate::block::Block;

verus! {

/// Something that can be carried.
pub trait Item {}

impl Item for Block {}

/// A fixed number of slots holding items.
pub struct Inventory {
    num_slots: u32,
    data: Vec<Box<dyn Item>>,
}

impl Inventory {
    pub closed spec fn slots(&self) -> u32 {
        self.num_slots
    }

    pub closed spec fn item_count(&self) -> nat {
        self.data@.len()
    }

    /// An empty inventory with `num_slots` slots.
    pub fn new(num_slots: u32) -> (r: Inventory)
        ensures
            r.slots() == num_slots,
            r.item_count() == 0,
    {
        Inventory { num_slots, data: Vec::new() }
    }
}

} // verus!
