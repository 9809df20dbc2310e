//! A chunk: a fixed-size cube of blocks with a dirty flag.

use vstd::prelude::*;
use crate::block::{air, Block};
use crate::coord::ChunkCoord;
use crate::grid::{grid_cells, grid_copy, grid_dims, grid_filled, grid_get, grid_set, grid_shape, BlockGrid};

verus! {

/// Local cell of row-major index `n`.
pub open spec fn cell_xyz(n: int) -> (int, int, int) {
    (n / 1024, (n / 32) % 32, n % 32)
}

/// Row-major indices and local cells correspond one to one.
pub proof fn lemma_cell_index(n: int)
    requires
        0 <= n < 32768,
    ensures
        in_chunk(cell_xyz(n).0, cell_xyz(n).1, cell_xyz(n).2),
        cell_index(cell_xyz(n).0, cell_xyz(n).1, cell_xyz(n).2) == n,
{
    vstd::arithmetic::div_mod::lemma_fundamental_div_mod(n, 1024);
    vstd::arithmetic::div_mod::lemma_fundamental_div_mod(n % 1024, 32);
    vstd::arithmetic::div_mod::lemma_div_denominator(n, 32, 32);
    vstd::arithmetic::div_mod::lemma_fundamental_div_mod(n / 32, 32);
    vstd::arithmetic::div_mod::lemma_mod_mod(n, 32, 32);
    assert(0 <= n / 1024 < 32);
}

/// Index of local cell `(i, j, k)` in the row-major cell sequence of a chunk.
pub open spec fn cell_index(i: int, j: int, k: int) -> int {
    i * 1024 + j * 32 + k
}

pub open spec fn in_chunk(i: int, j: int, k: int) -> bool {
    0 <= i < 32 && 0 <= j < 32 && 0 <= k < 32
}

/// The cells of a chunk with no storage: all air.
pub open spec fn all_air() -> Seq<Block> {
    Seq::new(32768, |_n: int| air())
}

/// The chunk after writing `b` to cell `n`: storage allocated, the cell
/// replaced, and the mesh stale when the value changed.
pub open spec fn write_result(v: ChunkView, n: int, b: Block) -> ChunkView {
    ChunkView { blocks: Some(v.cells().update(n, b)), dirty: v.dirty || v.block_at(n) != b, ..v }
}

/// Writing the same block twice marks the chunk dirty at most once: the
/// second write changes nothing, neither the cells nor the flag.
pub proof fn lemma_idempotent_write(v: ChunkView, n: int, b: Block)
    requires
        v.valid(),
        0 <= n < 32768,
    ensures
        write_result(v, n, b).block_at(n) == b,
        write_result(write_result(v, n, b), n, b) == write_result(v, n, b),
{
    let w = write_result(v, n, b);
    assert(w.cells().update(n, b) =~= w.cells());
}

/// Storage for one chunk holding `cells` in row-major order.
pub fn chunk_grid(cells: &Vec<Block>) -> (r: BlockGrid)
    requires
        cells@.len() == 32768,
    ensures
        grid_dims(r) == (32usize, 32usize, 32usize),
        grid_cells(r) == cells@,
{
    let mut g = grid_filled(32, 32, 32, Block::air());
    let mut i: usize = 0;
    while i < 32
        invariant
            0 <= i <= 32,
            cells@.len() == 32768,
            grid_dims(g) == (32usize, 32usize, 32usize),
            grid_cells(g).len() == 32768,
            forall|n: int| 0 <= n < i * 1024 ==> grid_cells(g)[n] == cells@[n],
        decreases 32 - i,
    {
        let mut j: usize = 0;
        while j < 32
            invariant
                0 <= i < 32,
                0 <= j <= 32,
                cells@.len() == 32768,
                grid_dims(g) == (32usize, 32usize, 32usize),
                grid_cells(g).len() == 32768,
                forall|n: int| 0 <= n < i * 1024 + j * 32 ==> grid_cells(g)[n] == cells@[n],
            decreases 32 - j,
        {
            let mut k: usize = 0;
            while k < 32
                invariant
                    0 <= i < 32,
                    0 <= j < 32,
                    0 <= k <= 32,
                    cells@.len() == 32768,
                    grid_dims(g) == (32usize, 32usize, 32usize),
                    grid_cells(g).len() == 32768,
                    forall|n: int|
                        0 <= n < i * 1024 + j * 32 + k ==> grid_cells(g)[n] == cells@[n],
                decreases 32 - k,
            {
                let n: usize = i * 1024 + j * 32 + k;
                grid_set(&mut g, i, j, k, cells[n]);
                k = k + 1;
            }
            j = j + 1;
        }
        i = i + 1;
    }
    assert(grid_cells(g) =~= cells@);
    g
}

/// What a chunk holds, as plain values.
pub struct ChunkView {
    pub coord: ChunkCoord,
    /// `None` while no storage is allocated: every cell is then air.
    pub blocks: Option<Seq<Block>>,
    /// The chunk's mesh is stale.
    pub dirty: bool,
}

impl ChunkView {
    /// The cells, with an unallocated chunk read as all air.
    pub open spec fn cells(self) -> Seq<Block> {
        match self.blocks {
            Some(s) => s,
            None => all_air(),
        }
    }

    pub open spec fn block_at(self, n: int) -> Block {
        self.cells()[n]
    }

    pub open spec fn block_at3(self, i: int, j: int, k: int) -> Block {
        self.block_at(cell_index(i, j, k))
    }

    /// Allocated storage always holds exactly one chunk of cells.
    pub open spec fn valid(self) -> bool {
        self.cells().len() == 32768
    }
}

/// A cube of 32 x 32 x 32 blocks, with storage allocated on the first write.
pub struct Chunk {
    coord: ChunkCoord,
    block_data: Option<Box<BlockGrid>>,
    needs_update: bool,
}

impl View for Chunk {
    type V = ChunkView;

    closed spec fn view(&self) -> ChunkView {
        ChunkView {
            coord: self.coord,
            blocks: match self.block_data {
                Some(g) => Some(grid_cells(*g)),
                None => None,
            },
            dirty: self.needs_update,
        }
    }
}

impl Chunk {
    /// Allocated storage has the shape of one chunk.
    pub closed spec fn wf(&self) -> bool {
        match self.block_data {
            Some(g) => grid_dims(*g) == (32usize, 32usize, 32usize) && grid_cells(*g).len() == 32768,
            None => true,
        }
    }

    /// Allocated storage holds exactly one chunk of cells.
    pub proof fn lemma_valid(&self)
        requires
            self.wf(),
        ensures
            self@.valid(),
    {
    }

    /// An empty chunk whose mesh is not stale.
    pub fn empty(coord: ChunkCoord) -> (r: Chunk)
        ensures
            r@ == (ChunkView { coord, blocks: None, dirty: false }),
            r.wf(),
            r@.valid(),
    {
        Chunk { coord, block_data: None, needs_update: false }
    }

    /// An empty chunk that still asks for a mesh build.
    pub fn new(coord: ChunkCoord) -> (r: Chunk)
        ensures
            r@ == (ChunkView { coord, blocks: None, dirty: true }),
            r.wf(),
            r@.valid(),
    {
        Chunk { coord, block_data: None, needs_update: true }
    }

    /// A chunk over existing storage of one chunk's shape.
    pub fn from_data(coord: ChunkCoord, data: Box<BlockGrid>) -> (r: Chunk)
        requires
            grid_dims(*data) == (32usize, 32usize, 32usize),
        ensures
            r@ == (ChunkView { coord, blocks: Some(grid_cells(*data)), dirty: true }),
            r.wf(),
            r@.valid(),
    {
        // The shape fixes the number of cells.
        let _shape = grid_shape(&data);
        Chunk { coord, block_data: Some(data), needs_update: true }
    }

    /// A chunk whose cells are `cells` in row-major order.
    pub fn from_cells(coord: ChunkCoord, cells: &Vec<Block>) -> (r: Chunk)
        requires
            cells@.len() == 32768,
        ensures
            r@ == (ChunkView { coord, blocks: Some(cells@), dirty: true }),
            r.wf(),
            r@.valid(),
    {
        Chunk::from_data(coord, Box::new(chunk_grid(cells)))
    }

    /// The same chunk, with its own copy of the storage.
    pub fn snapshot(&self) -> (r: Chunk)
        requires
            self.wf(),
        ensures
            r@ == self@,
            r.wf(),
    {
        let data = match &self.block_data {
            Some(g) => Some(Box::new(grid_copy(g))),
            None => None,
        };
        Chunk { coord: self.coord, block_data: data, needs_update: self.needs_update }
    }

    pub fn coord(&self) -> (r: ChunkCoord)
        ensures
            r == self@.coord,
    {
        self.coord
    }

    /// The block at local cell `(i, j, k)`; air while no storage is allocated.
    pub(crate) fn cell(&self, i: usize, j: usize, k: usize) -> (r: Block)
        requires
            self.wf(),
            in_chunk(i as int, j as int, k as int),
        ensures
            r == self@.block_at3(i as int, j as int, k as int),
    {
        match &self.block_data {
            Some(g) => grid_get(g, i, j, k),
            None => Block::air(),
        }
    }

    /// Writes one block. Storage is allocated on the first write; the chunk
    /// turns dirty exactly when the stored value changes. Returns whether it
    /// changed.
    pub fn set_block(&mut self, idx: (usize, usize, usize), block: Block) -> (changed: bool)
        requires
            old(self).wf(),
            in_chunk(idx.0 as int, idx.1 as int, idx.2 as int),
        ensures
            changed == (old(self)@.block_at3(idx.0 as int, idx.1 as int, idx.2 as int) != block),
            final(self)@.coord == old(self)@.coord,
            final(self)@.blocks == Some(
                old(self)@.cells().update(cell_index(idx.0 as int, idx.1 as int, idx.2 as int), block),
            ),
            final(self)@.dirty == (old(self)@.dirty || changed),
            final(self)@ == write_result(old(self)@, cell_index(idx.0 as int, idx.1 as int, idx.2 as int), block),
            final(self).wf(),
    {
        let (i, j, k) = idx;
        let mut g: Box<BlockGrid> = match self.block_data.take() {
            Some(g) => g,
            None => Box::new(grid_filled(32, 32, 32, Block::air())),
        };
        assert(grid_cells(*g) == old(self)@.cells());
        let prev = grid_get(&g, i, j, k);
        let changed = prev != block;
        grid_set(&mut g, i, j, k, block);
        self.block_data = Some(g);
        if changed {
            self.needs_update = true;
        }
        changed
    }

    /// The block at local cell `idx`; air while no storage is allocated.
    pub fn get_block(&self, idx: (usize, usize, usize)) -> (r: Option<Block>)
        requires
            self.wf(),
            in_chunk(idx.0 as int, idx.1 as int, idx.2 as int),
        ensures
            r == Some(self@.block_at3(idx.0 as int, idx.1 as int, idx.2 as int)),
    {
        Some(self.cell(idx.0, idx.1, idx.2))
    }

    /// The storage, if any is allocated.
    pub fn get_data(&self) -> (r: &Option<Box<BlockGrid>>)
        ensures
            match r {
                Some(g) => self@.blocks == Some(grid_cells(**g)),
                None => self@.blocks is None,
            },
    {
        &self.block_data
    }

    /// Marks the mesh as up to date.
    pub fn set_updated(&mut self)
        ensures
            final(self)@ == (ChunkView { dirty: false, ..old(self)@ }),
            final(self).wf() == old(self).wf(),
    {
        self.needs_update = false;
    }

    pub fn is_empty(&self) -> (r: bool)
        ensures
            r == (self@.blocks is None),
    {
        self.block_data.is_none()
    }

    pub fn needs_update(&self) -> (r: bool)
        ensures
            r == self@.dirty,
    {
        self.needs_update
    }

    /// Marks the mesh as stale.
    pub fn request_update(&mut self)
        ensures
            final(self)@ == (ChunkView { dirty: true, ..old(self)@ }),
            final(self).wf() == old(self).wf(),
    {
        self.needs_update = true;
    }
}

} // verus!
