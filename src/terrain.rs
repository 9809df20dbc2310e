//! Terrain filling: a chunk from a column height map.
//!
//! The height map itself comes from layered noise sampled by the caller; what
//! is decided here is which cells of the chunk lie below the surface.

use vstd::prelude::*;
use crate::block::{air, Block};
use crate::chunk::{all_air, cell_xyz, lemma_cell_index, Chunk, ChunkView};
use crate::coord::ChunkCoord;

verus! {

/// Health of freshly generated ground: 5.0 as single-precision bits.
pub const GROUND_HEALTH: u32 = 0x40a0_0000;

/// Material id of generated ground.
pub const GROUND_ID: u16 = 1;

/// Chunk layers above this one, or below its negation, are left empty.
pub const BAND: i32 = 4;

pub open spec fn ground() -> Block {
    Block { id: 1, health: 0x40a0_0000 }
}

/// Chunk layer `y` may hold ground.
pub open spec fn in_band(y: int) -> bool {
    -4 <= y <= 4
}

/// Local cell `(i, j, k)` of layer `y` is ground when the column height at
/// `(i, k)` lies above the cell's world height.
pub open spec fn terrain_block(heights: Seq<i32>, y: int, i: int, j: int, k: int) -> Block {
    if heights[i * 32 + k] > j + 32 * y {
        ground()
    } else {
        air()
    }
}

/// The cells of the chunk at layer `y` over the given column heights.
pub open spec fn terrain_cells(heights: Seq<i32>, y: int) -> Seq<Block> {
    Seq::new(
        32768,
        |n: int| terrain_block(heights, y, cell_xyz(n).0, cell_xyz(n).1, cell_xyz(n).2),
    )
}

/// What generation yields at `coord`: the terrain cells inside the band,
/// all air outside it, storage only where some cell is ground, and a stale
/// mesh.
pub open spec fn generated(coord: ChunkCoord, heights: Seq<i32>, r: ChunkView) -> bool {
    &&& r.coord == coord
    &&& r.dirty
    &&& r.cells() == expected_cells(coord, heights)
    &&& (r.blocks is None <==> forall|n: int|
        0 <= n < 32768 ==> !(#[trigger] expected_cells(coord, heights)[n]).solid())
}

/// The terrain cells inside the band, all air outside it.
pub open spec fn expected_cells(coord: ChunkCoord, heights: Seq<i32>) -> Seq<Block> {
    if in_band(coord.y as int) {
        terrain_cells(heights, coord.y as int)
    } else {
        all_air()
    }
}

/// Turns column height maps into chunks.
#[derive(Clone, Copy, Debug)]
pub struct TerrainGenerator {
    seed: u32,
    sea_level: i32,
}

impl TerrainGenerator {
    pub fn new(seed: u32) -> (r: TerrainGenerator)
        ensures
            r.seed() == seed,
    {
        TerrainGenerator { seed, sea_level: 60 }
    }

    pub closed spec fn seed(&self) -> u32 {
        self.seed
    }

    pub fn get_seed(&self) -> (r: u32)
        ensures
            r == self.seed(),
    {
        self.seed
    }

    /// The chunk at `coord` over `heights`, the surface height of each column
    /// `(i, k)` of the chunk at index `i * 32 + k`.
    pub fn generate_chunk(&self, coord: ChunkCoord, heights: &Vec<i32>) -> (r: Chunk)
        requires
            heights@.len() == 1024,
        ensures
            r.wf(),
            generated(coord, heights@, r@),
    {
        if coord.y > BAND || coord.y < -BAND {
            let r = Chunk::new(coord);
            assert(r@.cells() =~= all_air());
            return r;
        }
        let base: i32 = coord.y * 32;
        let mut cells: Vec<Block> = Vec::new();
        let mut any_ground = false;
        let mut n: usize = 0;
        while n < 32768
            invariant
                0 <= n <= 32768,
                heights@.len() == 1024,
                in_band(coord.y as int),
                base == 32 * coord.y,
                cells@.len() == n,
                forall|m: int| 0 <= m < n ==> cells@[m] == #[trigger] terrain_cells(heights@, coord.y as int)[m],
                any_ground <==> exists|m: int| 0 <= m < n && (#[trigger] terrain_cells(heights@, coord.y as int)[m]).solid(),
            decreases 32768 - n,
        {
            proof {
                lemma_cell_index(n as int);
            }
            let i: usize = n / 1024;
            let j: usize = (n / 32) % 32;
            let k: usize = n % 32;
            let b = if heights[i * 32 + k] > j as i32 + base {
                Block::new(GROUND_ID, GROUND_HEALTH)
            } else {
                Block::air()
            };
            assert(b == terrain_cells(heights@, coord.y as int)[n as int]);
            if b.is_solid() {
                any_ground = true;
            }
            cells.push(b);
            n = n + 1;
        }
        assert(cells@ =~= terrain_cells(heights@, coord.y as int));
        if any_ground {
            let r = Chunk::from_cells(coord, &cells);
            proof {
                let m = choose|m: int| 0 <= m < 32768 && (#[trigger] terrain_cells(heights@, coord.y as int)[m]).solid();
                assert(r@.cells()[m].solid());
            }
            r
        } else {
            let r = Chunk::new(coord);
            assert(r@.cells() =~= terrain_cells(heights@, coord.y as int));
            r
        }
    }
}

/// Generation is deterministic: two chunks generated at the same coordinate
/// from the same height map hold the same cells, bit for bit.
pub proof fn lemma_generation_deterministic(coord: ChunkCoord, heights: Seq<i32>, a: ChunkView, b: ChunkView)
    requires
        generated(coord, heights, a),
        generated(coord, heights, b),
    ensures
        a.cells() == b.cells(),
        a.blocks is None <==> b.blocks is None,
{
}

} // verus!
