//! Chunk-space coordinates and the mapping from world cells to chunks.

use vstd::prelude::*;

verus! {

/// Edge length of a chunk, in cells, along each axis.
pub const CHUNK_SIZE: (usize, usize, usize) = (32, 32, 32);

/// The coordinates of a chunk in chunk space.
#[derive(Clone, Copy, Debug, PartialEq, Eq, Hash, Structural)]
pub struct ChunkCoord {
    pub x: i32,
    pub y: i32,
    pub z: i32,
}

/// Floor division of a world cell coordinate by the chunk edge.
pub open spec fn chunk_of(w: int) -> int {
    w / 32
}

/// Position of a world cell coordinate inside its chunk, in `0..32`.
pub open spec fn local_of(w: int) -> int {
    w % 32
}

pub open spec fn abs_diff(a: int, b: int) -> int {
    if a >= b {
        a - b
    } else {
        b - a
    }
}

/// `c` lies in the box of half-width `d` (in chunks) centred on `v`.
pub open spec fn within(v: ChunkCoord, c: ChunkCoord, d: int) -> bool {
    &&& abs_diff(c.x as int, v.x as int) <= d
    &&& abs_diff(c.y as int, v.y as int) <= d
    &&& abs_diff(c.z as int, v.z as int) <= d
}

/// Coordinates whose neighbours along every axis are representable.
pub open spec fn interior(c: ChunkCoord) -> bool {
    &&& i32::MIN < c.x < i32::MAX
    &&& i32::MIN < c.y < i32::MAX
    &&& i32::MIN < c.z < i32::MAX
}

/// The coordinate one step away across face `f`, faces ordered
/// +X, -X, -Y, +Y, +Z, -Z.
pub open spec fn step(c: ChunkCoord, f: int) -> ChunkCoord {
    if f == 0 {
        ChunkCoord { x: (c.x + 1) as i32, ..c }
    } else if f == 1 {
        ChunkCoord { x: (c.x - 1) as i32, ..c }
    } else if f == 2 {
        ChunkCoord { y: (c.y - 1) as i32, ..c }
    } else if f == 3 {
        ChunkCoord { y: (c.y + 1) as i32, ..c }
    } else if f == 4 {
        ChunkCoord { z: (c.z + 1) as i32, ..c }
    } else {
        ChunkCoord { z: (c.z - 1) as i32, ..c }
    }
}

impl ChunkCoord {
    pub fn new(x: i32, y: i32, z: i32) -> (r: ChunkCoord)
        ensures
            r == (ChunkCoord { x, y, z }),
    {
        ChunkCoord { x, y, z }
    }

    /// The coordinate `dx` chunks away along X.
    pub fn dx(&self, dx: i32) -> (r: ChunkCoord)
        requires
            i32::MIN <= self.x + dx <= i32::MAX,
        ensures
            r == (ChunkCoord { x: (self.x + dx) as i32, ..*self }),
    {
        ChunkCoord { x: self.x + dx, y: self.y, z: self.z }
    }

    /// The coordinate `dy` chunks away along Y.
    pub fn dy(&self, dy: i32) -> (r: ChunkCoord)
        requires
            i32::MIN <= self.y + dy <= i32::MAX,
        ensures
            r == (ChunkCoord { y: (self.y + dy) as i32, ..*self }),
    {
        ChunkCoord { x: self.x, y: self.y + dy, z: self.z }
    }

    /// The coordinate `dz` chunks away along Z.
    pub fn dz(&self, dz: i32) -> (r: ChunkCoord)
        requires
            i32::MIN <= self.z + dz <= i32::MAX,
        ensures
            r == (ChunkCoord { z: (self.z + dz) as i32, ..*self }),
    {
        ChunkCoord { x: self.x, y: self.y, z: self.z + dz }
    }

    /// The six face neighbours, ordered +X, -X, -Y, +Y, +Z, -Z.
    pub fn neighbors(&self) -> (r: [ChunkCoord; 6])
        requires
            interior(*self),
        ensures
            forall|f: int| 0 <= f < 6 ==> #[trigger] r[f] == step(*self, f),
    {
        [self.dx(1), self.dx(-1), self.dy(-1), self.dy(1), self.dz(1), self.dz(-1)]
    }
}

/// Floor division of a world cell coordinate by the chunk edge.
pub fn world_to_chunk(w: i32) -> (r: i32)
    ensures
        r as int == chunk_of(w as int),
{
    let shifted: u64 = (w as i64 + 2147483648i64) as u64;
    proof {
        vstd::arithmetic::div_mod::lemma_hoist_over_denominator(w as int, 67108864, 32);
    }
    ((shifted / 32) as i64 - 67108864i64) as i32
}

/// Position of a world cell coordinate inside its chunk.
pub fn world_to_local(w: i32) -> (r: usize)
    ensures
        r as int == local_of(w as int),
        r < 32,
{
    let shifted: u64 = (w as i64 + 2147483648i64) as u64;
    proof {
        vstd::arithmetic::div_mod::lemma_mod_multiples_vanish(67108864, w as int, 32);
    }
    (shifted % 32) as usize
}

/// The chunk that holds world cell `(x, y, z)`.
pub fn chunk_containing(x: i32, y: i32, z: i32) -> (r: ChunkCoord)
    ensures
        r.x == chunk_of(x as int),
        r.y == chunk_of(y as int),
        r.z == chunk_of(z as int),
{
    ChunkCoord { x: world_to_chunk(x), y: world_to_chunk(y), z: world_to_chunk(z) }
}

fn axis_within(a: i32, b: i32, d: u16) -> (r: bool)
    ensures
        r == (abs_diff(a as int, b as int) <= d as int),
{
    let diff: i64 = a as i64 - b as i64;
    if diff >= 0 {
        diff <= d as i64
    } else {
        -diff <= d as i64
    }
}

/// Whether `coord` lies within `distance` chunks of `viewpoint` on every axis.
pub fn in_distance(viewpoint: &ChunkCoord, coord: &ChunkCoord, distance: u16) -> (r: bool)
    ensures
        r == within(*viewpoint, *coord, distance as int),
{
    axis_within(coord.x, viewpoint.x, distance) && axis_within(coord.y, viewpoint.y, distance)
        && axis_within(coord.z, viewpoint.z, distance)
}

} // verus!
