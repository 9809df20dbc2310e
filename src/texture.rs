//! The material table: for each material id, the texture-atlas cell of
//! each of its six faces.

use vstd::prelude::*;
use std::collections::HashMap;
use crate::chunk::Chunk;

verus! {

broadcast use vstd::std_specs::hash::group_hash_axioms;

/// Maps a material id to the atlas cell of each face, faces ordered
/// +X, -X, -Y, +Y, +Z, -Z.
pub struct TextureTable {
    faces: HashMap<u16, [u32; 6]>,
}

impl View for TextureTable {
    type V = Map<u16, [u32; 6]>;

    closed spec fn view(&self) -> Map<u16, [u32; 6]> {
        self.faces@
    }
}

/// Every solid cell of the chunk has an entry in the table.
pub open spec fn covers(table: Map<u16, [u32; 6]>, cells: Seq<crate::block::Block>) -> bool {
    forall|n: int| 0 <= n < cells.len() && #[trigger] cells[n].solid() ==> table.contains_key(cells[n].id)
}

impl TextureTable {
    pub fn new() -> (r: TextureTable)
        ensures
            r@ == Map::<u16, [u32; 6]>::empty(),
    {
        TextureTable { faces: HashMap::new() }
    }

    /// Sets the atlas cells of material `id`.
    pub fn insert(&mut self, id: u16, cells: [u32; 6])
        ensures
            final(self)@ == old(self)@.insert(id, cells),
    {
        self.faces.insert(id, cells);
    }

    /// The atlas cell of face `face` of material `id`, if the table has it.
    pub fn face_cell(&self, id: u16, face: usize) -> (r: Option<u32>)
        ensures
            r == (if self@.contains_key(id) && face < 6 {
                Some(self@[id][face as int])
            } else {
                None
            }),
    {
        match self.faces.get(&id) {
            Some(cells) => {
                if face < 6 {
                    Some(cells[face])
                } else {
                    None
                }
            },
            None => None,
        }
    }

    /// Whether every solid block of `chunk` has an entry in the table.
    pub fn covers(&self, chunk: &Chunk) -> (r: bool)
        requires
            chunk.wf(),
        ensures
            r == covers(self@, chunk@.cells()),
    {
        proof {
            chunk.lemma_valid();
        }
        let mut n: usize = 0;
        while n < 32768
            invariant
                0 <= n <= 32768,
                chunk.wf(),
                chunk@.cells().len() == 32768,
                forall|m: int|
                    0 <= m < n && #[trigger] chunk@.cells()[m].solid() ==> self@.contains_key(
                        chunk@.cells()[m].id,
                    ),
            decreases 32768 - n,
        {
            let b = chunk.cell(n / 1024, (n / 32) % 32, n % 32);
            proof {
                crate::chunk::lemma_cell_index(n as int);
            }
            if b.is_solid() && !self.faces.contains_key(&b.id) {
                return false;
            }
            n = n + 1;
        }
        true
    }
}

} // verus!
