//! Surface extraction: the visible faces of a chunk's solid cells, checked
//! against the chunk itself and, at its boundary, against its six neighbours.

use vstd::prelude::*;
use crate::block::Block;
use crate::chunk::{cell_index, cell_xyz, in_chunk, lemma_cell_index, Chunk, ChunkView};
use crate::texture::{covers, TextureTable};

verus! {

/// One corner of an emitted quad.
#[derive(Clone, Copy, Debug, PartialEq, Eq, Structural)]
pub struct Vertex {
    /// Corner position in the chunk (6 bits per axis, x lowest) packed with
    /// the face normal from bit 18 on.
    pub position: u32,
    /// Atlas cell of the material's texture on this face.
    pub atlas_cell: u32,
    /// Corner of the quad, `0..4`; it picks the corner of the atlas cell.
    pub corner: u8,
}

/// Number of face slots in a chunk: six per cell.
pub open spec fn slot_count() -> nat {
    196608
}

/// Unit offset to the cell across face `f`; faces ordered
/// +X, -X, -Y, +Y, +Z, -Z.
pub open spec fn face_normal(f: int) -> (int, int, int) {
    if f == 0 {
        (1, 0, 0)
    } else if f == 1 {
        (-1, 0, 0)
    } else if f == 2 {
        (0, -1, 0)
    } else if f == 3 {
        (0, 1, 0)
    } else if f == 4 {
        (0, 0, 1)
    } else {
        (0, 0, -1)
    }
}

/// The normal as it is packed: its x, y and z components, each as a 32-bit
/// two's-complement value shifted left by 18, 19 and 20, or-ed together.
pub open spec fn normal_bits(f: int) -> u32 {
    if f == 0 {
        0x0004_0000
    } else if f == 1 {
        0xfffc_0000
    } else if f == 2 {
        0xfff8_0000
    } else if f == 3 {
        0x0008_0000
    } else if f == 4 {
        0x0010_0000
    } else {
        0xfff0_0000
    }
}

/// Corner `c` of face `f` of the unit cube, in an order that keeps every
/// quad's winding consistent.
pub open spec fn face_corner(f: int, c: int) -> (int, int, int) {
    if f == 0 {
        if c == 0 { (1, 0, 0) } else if c == 1 { (1, 1, 0) } else if c == 2 { (1, 1, 1) } else { (1, 0, 1) }
    } else if f == 1 {
        if c == 0 { (0, 0, 1) } else if c == 1 { (0, 1, 1) } else if c == 2 { (0, 1, 0) } else { (0, 0, 0) }
    } else if f == 2 {
        if c == 0 { (1, 0, 0) } else if c == 1 { (1, 0, 1) } else if c == 2 { (0, 0, 1) } else { (0, 0, 0) }
    } else if f == 3 {
        if c == 0 { (1, 1, 1) } else if c == 1 { (1, 1, 0) } else if c == 2 { (0, 1, 0) } else { (0, 1, 1) }
    } else if f == 4 {
        if c == 0 { (1, 0, 1) } else if c == 1 { (1, 1, 1) } else if c == 2 { (0, 1, 1) } else { (0, 0, 1) }
    } else {
        if c == 0 { (0, 0, 0) } else if c == 1 { (0, 1, 0) } else if c == 2 { (1, 1, 0) } else { (1, 0, 0) }
    }
}

/// Corner order of the two triangles of a quad.
pub open spec fn quad_order(t: int) -> int {
    if t == 0 {
        2
    } else if t == 1 {
        1
    } else if t == 2 {
        0
    } else if t == 3 {
        0
    } else if t == 4 {
        3
    } else {
        2
    }
}

/// A corner position packed with the normal of face `f`.
pub open spec fn packed(x: u32, y: u32, z: u32, f: int) -> u32 {
    x | (y << 6u32) | (z << 12u32) | normal_bits(f)
}

/// The views of the six neighbours.
pub open spec fn neighbor_views(neighbors: [&Chunk; 6]) -> Seq<ChunkView> {
    Seq::new(6, |f: int| neighbors[f]@)
}

/// The block across face `f` of cell `n`: in the chunk itself, or at the
/// boundary the facing cell of neighbour `f`.
pub open spec fn across(ch: ChunkView, nbs: Seq<ChunkView>, n: int, f: int) -> Block {
    let p = cell_xyz(n);
    let d = face_normal(f);
    let a = p.0 + d.0;
    let b = p.1 + d.1;
    let c = p.2 + d.2;
    if in_chunk(a, b, c) {
        ch.block_at3(a, b, c)
    } else {
        nbs[f].block_at3(a % 32, b % 32, c % 32)
    }
}

/// Face `f` of cell `n` is drawn: the cell is solid and the block across the
/// face is air.
pub open spec fn face_shown(ch: ChunkView, nbs: Seq<ChunkView>, n: int, f: int) -> bool {
    ch.block_at(n).solid() && !across(ch, nbs, n, f).solid()
}

/// The drawn face slots below `s`, in order; slot `s` is face `s % 6` of
/// cell `s / 6`.
pub open spec fn shown_slots(ch: ChunkView, nbs: Seq<ChunkView>, s: nat) -> Seq<int>
    decreases s,
{
    if s == 0 {
        Seq::empty()
    } else {
        let before = shown_slots(ch, nbs, (s - 1) as nat);
        if face_shown(ch, nbs, (s - 1) / 6, (s - 1) % 6) {
            before.push(s - 1)
        } else {
            before
        }
    }
}

/// Every drawn face slot of the chunk.
pub open spec fn mesh_slots(ch: ChunkView, nbs: Seq<ChunkView>) -> Seq<int> {
    shown_slots(ch, nbs, slot_count())
}

/// Corner `c` of the quad of face slot `s`.
pub open spec fn quad_vertex(ch: ChunkView, table: Map<u16, [u32; 6]>, s: int, c: int) -> Vertex {
    let n = s / 6;
    let f = s % 6;
    let p = cell_xyz(n);
    let q = face_corner(f, c);
    Vertex {
        position: packed((p.0 + q.0) as u32, (p.1 + q.1) as u32, (p.2 + q.2) as u32, f),
        atlas_cell: table[ch.block_at(n).id][f],
        corner: c as u8,
    }
}

/// Four vertices for each quad, in quad order.
pub open spec fn quad_vertices(ch: ChunkView, table: Map<u16, [u32; 6]>, slots: Seq<int>) -> Seq<Vertex> {
    Seq::new(4 * slots.len(), |v: int| quad_vertex(ch, table, slots[v / 4], v % 4))
}

/// Six indices for each of `m` quads: two triangles over its four vertices.
pub open spec fn quad_indices(m: nat) -> Seq<u32> {
    Seq::new(6 * m, |t: int| (4 * (t / 6) + quad_order(t % 6)) as u32)
}

/// Every cell of `v` is solid.
pub open spec fn all_solid(v: ChunkView) -> bool {
    v.valid() && forall|n: int| 0 <= n < 32768 ==> (#[trigger] v.block_at(n)).solid()
}

/// A chunk whose cells and whose six neighbours' cells are all solid has no
/// visible surface.
pub proof fn lemma_buried_chunk_has_no_surface(ch: ChunkView, nbs: Seq<ChunkView>)
    requires
        nbs.len() == 6,
        all_solid(ch),
        forall|f: int| 0 <= f < 6 ==> all_solid(#[trigger] nbs[f]),
    ensures
        mesh_slots(ch, nbs).len() == 0,
{
    lemma_no_shown_slots(ch, nbs, slot_count());
}

proof fn lemma_no_shown_slots(ch: ChunkView, nbs: Seq<ChunkView>, s: nat)
    requires
        s <= slot_count(),
        nbs.len() == 6,
        all_solid(ch),
        forall|f: int| 0 <= f < 6 ==> all_solid(#[trigger] nbs[f]),
    ensures
        shown_slots(ch, nbs, s).len() == 0,
    decreases s,
{
    if s > 0 {
        lemma_no_shown_slots(ch, nbs, (s - 1) as nat);
        let n = (s - 1) / 6;
        let f = (s - 1) % 6;
        lemma_cell_index(n);
        let p = cell_xyz(n);
        let d = face_normal(f);
        let (a, b, c) = (p.0 + d.0, p.1 + d.1, p.2 + d.2);
        if in_chunk(a, b, c) {
            assert(ch.block_at(cell_index(a, b, c)).solid());
        } else {
            assert(0 <= a % 32 < 32 && 0 <= b % 32 < 32 && 0 <= c % 32 < 32);
            assert(nbs[f].block_at(cell_index(a % 32, b % 32, c % 32)).solid());
        }
        assert(!face_shown(ch, nbs, n, f));
    }
}

/// Cell `n0` is the only solid cell of `v`.
pub open spec fn lone_solid(v: ChunkView, n0: int) -> bool {
    v.valid() && forall|n: int| 0 <= n < 32768 ==> ((#[trigger] v.block_at(n)).solid() <==> n == n0)
}

/// No cell of `v` is solid.
pub open spec fn all_air(v: ChunkView) -> bool {
    v.valid() && forall|n: int| 0 <= n < 32768 ==> !(#[trigger] v.block_at(n)).solid()
}

/// A lone solid block in air, with air all around the chunk, shows all six
/// faces and nothing else: six quads, 24 vertices and 36 indices.
pub proof fn lemma_lone_block_has_six_faces(ch: ChunkView, nbs: Seq<ChunkView>, n0: int)
    requires
        0 <= n0 < 32768,
        nbs.len() == 6,
        lone_solid(ch, n0),
        forall|f: int| 0 <= f < 6 ==> all_air(#[trigger] nbs[f]),
    ensures
        mesh_slots(ch, nbs) == seq![6 * n0, 6 * n0 + 1, 6 * n0 + 2, 6 * n0 + 3, 6 * n0 + 4, 6 * n0 + 5],
        quad_vertices(ch, Map::empty(), mesh_slots(ch, nbs)).len() == 24,
        quad_indices(mesh_slots(ch, nbs).len()).len() == 36,
{
    lemma_lone_slots(ch, nbs, n0, slot_count());
    assert(mesh_slots(ch, nbs) =~= seq![6 * n0, 6 * n0 + 1, 6 * n0 + 2, 6 * n0 + 3, 6 * n0 + 4, 6 * n0 + 5]);
}

/// The drawn slots below `s` around a lone solid cell `n0`: its faces, in
/// order, that lie below `s`.
pub open spec fn lone_slots(n0: int, s: int) -> Seq<int> {
    let m = if s <= 6 * n0 {
        0
    } else if s >= 6 * n0 + 6 {
        6
    } else {
        s - 6 * n0
    };
    Seq::new(m as nat, |q: int| 6 * n0 + q)
}

proof fn lemma_lone_slots(ch: ChunkView, nbs: Seq<ChunkView>, n0: int, s: nat)
    requires
        0 <= n0 < 32768,
        s <= slot_count(),
        nbs.len() == 6,
        lone_solid(ch, n0),
        forall|f: int| 0 <= f < 6 ==> all_air(#[trigger] nbs[f]),
    ensures
        shown_slots(ch, nbs, s) =~= lone_slots(n0, s as int),
    decreases s,
{
    if s > 0 {
        lemma_lone_slots(ch, nbs, n0, (s - 1) as nat);
        let t = s - 1;
        let n = t / 6;
        let f = t % 6;
        vstd::arithmetic::div_mod::lemma_fundamental_div_mod(t, 6);
        lemma_cell_index(n);
        if n == n0 {
            let p = cell_xyz(n);
            let d = face_normal(f);
            let (a, b, c) = (p.0 + d.0, p.1 + d.1, p.2 + d.2);
            if in_chunk(a, b, c) {
                let m = cell_index(a, b, c);
                lemma_cell_index(m);
                vstd::arithmetic::div_mod::lemma_fundamental_div_mod_converse(m, 1024, a, b * 32 + c);
                vstd::arithmetic::div_mod::lemma_fundamental_div_mod_converse(m, 32, a * 32 + b, c);
                vstd::arithmetic::div_mod::lemma_fundamental_div_mod_converse(a * 32 + b, 32, a, b);
                assert(cell_xyz(m) == (a, b, c));
                assert(m != n0);
                assert(!ch.block_at(m).solid());
            } else {
                assert(0 <= a % 32 < 32 && 0 <= b % 32 < 32 && 0 <= c % 32 < 32);
                assert(!nbs[f].block_at(cell_index(a % 32, b % 32, c % 32)).solid());
            }
            assert(face_shown(ch, nbs, n, f));
            assert(6 * n0 <= t < 6 * n0 + 6);
        } else {
            assert(!ch.block_at(n).solid());
            assert(!face_shown(ch, nbs, n, f));
            assert(t < 6 * n0 || t >= 6 * n0 + 6);
        }
    }
}

proof fn lemma_shown_slots_bounds(ch: ChunkView, nbs: Seq<ChunkView>, s: nat)
    ensures
        shown_slots(ch, nbs, s).len() <= s,
    decreases s,
{
    if s > 0 {
        lemma_shown_slots_bounds(ch, nbs, (s - 1) as nat);
    }
}

proof fn lemma_quad_vertices_push(ch: ChunkView, table: Map<u16, [u32; 6]>, slots: Seq<int>, s: int)
    ensures
        quad_vertices(ch, table, slots.push(s)) =~= quad_vertices(ch, table, slots) + Seq::new(
            4,
            |c: int| quad_vertex(ch, table, s, c),
        ),
{
    let m = slots.len() as int;
    assert forall|v: int| 0 <= v < 4 * m + 4 implies #[trigger] quad_vertices(ch, table, slots.push(s))[v]
        == (quad_vertices(ch, table, slots) + Seq::new(4, |c: int| quad_vertex(ch, table, s, c)))[v] by {
        vstd::arithmetic::div_mod::lemma_fundamental_div_mod(v, 4);
        if v >= 4 * m {
            vstd::arithmetic::div_mod::lemma_fundamental_div_mod_converse(v, 4, m, v - 4 * m);
        } else {
            assert(v / 4 < m) by {
                vstd::arithmetic::div_mod::lemma_div_is_ordered(v, 4 * m - 1, 4);
                vstd::arithmetic::div_mod::lemma_fundamental_div_mod_converse(4 * m - 1, 4, m - 1, 3);
            }
        }
    }
}

proof fn lemma_quad_indices_push(m: nat)
    ensures
        quad_indices(m + 1) =~= quad_indices(m) + Seq::new(6, |t: int| (4 * m + quad_order(t)) as u32),
{
    assert forall|t: int| 0 <= t < 6 * m + 6 implies #[trigger] quad_indices(m + 1)[t] == (quad_indices(m)
        + Seq::new(6, |t: int| (4 * m + quad_order(t)) as u32))[t] by {
        vstd::arithmetic::div_mod::lemma_fundamental_div_mod(t, 6);
        if t >= 6 * m {
            vstd::arithmetic::div_mod::lemma_fundamental_div_mod_converse(t, 6, m as int, t - 6 * m);
        }
    }
}

fn normal_bits_of(f: usize) -> (r: u32)
    ensures
        r == normal_bits(f as int),
{
    if f == 0 {
        0x0004_0000
    } else if f == 1 {
        0xfffc_0000
    } else if f == 2 {
        0xfff8_0000
    } else if f == 3 {
        0x0008_0000
    } else if f == 4 {
        0x0010_0000
    } else {
        0xfff0_0000
    }
}

fn face_corner_of(f: usize, c: usize) -> (r: (u32, u32, u32))
    ensures
        r.0 as int == face_corner(f as int, c as int).0,
        r.1 as int == face_corner(f as int, c as int).1,
        r.2 as int == face_corner(f as int, c as int).2,
{
    if f == 0 {
        if c == 0 { (1, 0, 0) } else if c == 1 { (1, 1, 0) } else if c == 2 { (1, 1, 1) } else { (1, 0, 1) }
    } else if f == 1 {
        if c == 0 { (0, 0, 1) } else if c == 1 { (0, 1, 1) } else if c == 2 { (0, 1, 0) } else { (0, 0, 0) }
    } else if f == 2 {
        if c == 0 { (1, 0, 0) } else if c == 1 { (1, 0, 1) } else if c == 2 { (0, 0, 1) } else { (0, 0, 0) }
    } else if f == 3 {
        if c == 0 { (1, 1, 1) } else if c == 1 { (1, 1, 0) } else if c == 2 { (0, 1, 0) } else { (0, 1, 1) }
    } else if f == 4 {
        if c == 0 { (1, 0, 1) } else if c == 1 { (1, 1, 1) } else if c == 2 { (0, 1, 1) } else { (0, 0, 1) }
    } else {
        if c == 0 { (0, 0, 0) } else if c == 1 { (0, 1, 0) } else if c == 2 { (1, 1, 0) } else { (1, 0, 0) }
    }
}

fn quad_order_of(t: usize) -> (r: u32)
    ensures
        r as int == quad_order(t as int),
{
    if t == 0 {
        2
    } else if t == 1 {
        1
    } else if t == 2 {
        0
    } else if t == 3 {
        0
    } else if t == 4 {
        3
    } else {
        2
    }
}

impl Chunk {
    /// Whether the block across face `f` of local cell `(i, j, k)` is solid.
    fn across_solid(&self, neighbors: &[&Chunk; 6], i: usize, j: usize, k: usize, f: usize) -> (r: bool)
        requires
            self.wf(),
            forall|g: int| 0 <= g < 6 ==> (#[trigger] neighbors[g]).wf(),
            in_chunk(i as int, j as int, k as int),
            f < 6,
        ensures
            r == across(self@, neighbor_views(*neighbors), cell_index(i as int, j as int, k as int), f as int).solid(),
    {
        proof {
            let n = cell_index(i as int, j as int, k as int);
            vstd::arithmetic::div_mod::lemma_fundamental_div_mod_converse(n, 1024, i as int, j * 32 + k);
            vstd::arithmetic::div_mod::lemma_fundamental_div_mod_converse(n, 32, i * 32 + j, k as int);
            vstd::arithmetic::div_mod::lemma_fundamental_div_mod_converse(i * 32 + j, 32, i as int, j as int);
            assert(cell_xyz(n) == (i as int, j as int, k as int));
            assert(neighbor_views(*neighbors)[f as int] == neighbors[f as int]@);
        }
        let b = if f == 0 {
            if i == 31 { neighbors[0].cell(0, j, k) } else { self.cell(i + 1, j, k) }
        } else if f == 1 {
            if i == 0 { neighbors[1].cell(31, j, k) } else { self.cell(i - 1, j, k) }
        } else if f == 2 {
            if j == 0 { neighbors[2].cell(i, 31, k) } else { self.cell(i, j - 1, k) }
        } else if f == 3 {
            if j == 31 { neighbors[3].cell(i, 0, k) } else { self.cell(i, j + 1, k) }
        } else if f == 4 {
            if k == 31 { neighbors[4].cell(i, j, 0) } else { self.cell(i, j, k + 1) }
        } else {
            if k == 0 { neighbors[5].cell(i, j, 31) } else { self.cell(i, j, k - 1) }
        };
        b.is_solid()
    }

    /// Appends the quad of face `f` of local cell `(i, j, k)`.
    fn add_face(
        &self,
        vertices: &mut Vec<Vertex>,
        indices: &mut Vec<u32>,
        i: usize,
        j: usize,
        k: usize,
        f: usize,
        table: &TextureTable,
    )
        requires
            self.wf(),
            in_chunk(i as int, j as int, k as int),
            f < 6,
            table@.contains_key(self@.block_at3(i as int, j as int, k as int).id),
            old(vertices)@.len() + 4 <= u32::MAX,
        ensures
            final(vertices)@ == old(vertices)@ + Seq::new(
                4,
                |c: int| quad_vertex(self@, table@, 6 * cell_index(i as int, j as int, k as int) + f, c),
            ),
            final(indices)@ == old(indices)@ + Seq::new(
                6,
                |t: int| (old(vertices)@.len() + quad_order(t)) as u32,
            ),
    {
        let ghost n = cell_index(i as int, j as int, k as int);
        let ghost s = 6 * n + f;
        proof {
            vstd::arithmetic::div_mod::lemma_fundamental_div_mod_converse(s, 6, n, f as int);
            vstd::arithmetic::div_mod::lemma_fundamental_div_mod_converse(n, 1024, i as int, j * 32 + k);
            vstd::arithmetic::div_mod::lemma_fundamental_div_mod_converse(n, 32, i * 32 + j, k as int);
            vstd::arithmetic::div_mod::lemma_fundamental_div_mod_converse(i * 32 + j, 32, i as int, j as int);
            assert(cell_xyz(n) == (i as int, j as int, k as int));
        }
        let id = self.cell(i, j, k).id;
        let atlas_cell = match table.face_cell(id, f) {
            Some(cell) => cell,
            None => 0,
        };
        let base = vertices.len() as u32;
        let normal = normal_bits_of(f);
        let mut c: usize = 0;
        while c < 4
            invariant
                0 <= c <= 4,
                f < 6,
                in_chunk(i as int, j as int, k as int),
                s / 6 == n,
                s % 6 == f,
                cell_xyz(n) == (i as int, j as int, k as int),
                normal == normal_bits(f as int),
                atlas_cell == table@[self@.block_at(n).id][f as int],
                vertices@ == old(vertices)@ + Seq::new(c as nat, |c: int| quad_vertex(self@, table@, s, c)),
            decreases 4 - c,
        {
            let (cx, cy, cz) = face_corner_of(f, c);
            let x = i as u32 + cx;
            let y = j as u32 + cy;
            let z = k as u32 + cz;
            let v = Vertex { position: x | (y << 6u32) | (z << 12u32) | normal, atlas_cell, corner: c as u8 };
            vertices.push(v);
            proof {
                assert(v == quad_vertex(self@, table@, s, c as int));
                assert(vertices@ =~= old(vertices)@ + Seq::new((c + 1) as nat, |c: int| quad_vertex(self@, table@, s, c)));
            }
            c = c + 1;
        }
        let mut t: usize = 0;
        while t < 6
            invariant
                0 <= t <= 6,
                base == old(vertices)@.len(),
                base + 4 <= u32::MAX,
                indices@ == old(indices)@ + Seq::new(t as nat, |t: int| (old(vertices)@.len() + quad_order(t)) as u32),
            decreases 6 - t,
        {
            indices.push(base + quad_order_of(t));
            proof {
                assert(indices@ =~= old(indices)@ + Seq::new((t + 1) as nat, |t: int| (old(vertices)@.len() + quad_order(t)) as u32));
            }
            t = t + 1;
        }
    }

    /// The surface of the chunk: one quad for every face of a solid cell whose
    /// facing block is air, cells in row-major order and faces in the order
    /// +X, -X, -Y, +Y, +Z, -Z. At the boundary the facing block is the
    /// matching cell of the neighbour across that face; `neighbors` is
    /// ordered the same way.
    pub fn gen_mesh(&self, neighbors: [&Chunk; 6], texture_map_info: &TextureTable) -> (r: (Vec<Vertex>, Vec<u32>))
        requires
            self.wf(),
            forall|g: int| 0 <= g < 6 ==> (#[trigger] neighbors[g]).wf(),
            covers(texture_map_info@, self@.cells()),
        ensures
            r.0@ == quad_vertices(self@, texture_map_info@, mesh_slots(self@, neighbor_views(neighbors))),
            r.1@ == quad_indices(mesh_slots(self@, neighbor_views(neighbors)).len()),
    {
        let ghost nbs = neighbor_views(neighbors);
        let ghost table = texture_map_info@;
        let mut vertices: Vec<Vertex> = Vec::new();
        let mut indices: Vec<u32> = Vec::new();
        proof {
            self.lemma_valid();
        }
        let mut s: usize = 0;
        while s < 196608
            invariant
                0 <= s <= 196608,
                self.wf(),
                self@.valid(),
                forall|g: int| 0 <= g < 6 ==> (#[trigger] neighbors[g]).wf(),
                covers(table, self@.cells()),
                table == texture_map_info@,
                nbs == neighbor_views(neighbors),
                shown_slots(self@, nbs, s as nat).len() <= s,
                vertices@ == quad_vertices(self@, table, shown_slots(self@, nbs, s as nat)),
                indices@ == quad_indices(shown_slots(self@, nbs, s as nat).len()),
            decreases 196608 - s,
        {
            let n: usize = s / 6;
            let f: usize = s % 6;
            let i: usize = n / 1024;
            let j: usize = (n / 32) % 32;
            let k: usize = n % 32;
            proof {
                lemma_cell_index(n as int);
                lemma_shown_slots_bounds(self@, nbs, (s + 1) as nat);
            }
            let b = self.cell(i, j, k);
            if b.is_solid() && !self.across_solid(&neighbors, i, j, k, f) {
                let ghost prev = shown_slots(self@, nbs, s as nat);
                proof {
                    assert(0 <= n < 32768);
                    assert(self@.cells()[n as int].solid());
                }
                self.add_face(&mut vertices, &mut indices, i, j, k, f, texture_map_info);
                proof {
                    vstd::arithmetic::div_mod::lemma_fundamental_div_mod(s as int, 6);
                    assert(shown_slots(self@, nbs, (s + 1) as nat) == prev.push(s as int));
                    lemma_quad_vertices_push(self@, table, prev, s as int);
                    lemma_quad_indices_push(prev.len());
                }
            } else {
                proof {
                    vstd::arithmetic::div_mod::lemma_fundamental_div_mod(s as int, 6);
                    assert(shown_slots(self@, nbs, (s + 1) as nat) == shown_slots(self@, nbs, s as nat));
                }
            }
            s = s + 1;
        }
        (vertices, indices)
    }
}

} // verus!
