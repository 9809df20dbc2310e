//! The chunk store: the authoritative chunk map, the set of built meshes,
//! the in-flight sets of the two pipelines, and the distance policy that
//! admits and evicts chunks around a moving viewpoint.
//!
//! Generation and meshing run elsewhere. The store decides what to generate,
//! what to mesh and what to drop; the caller performs the queueing and the
//! uploads and reports back.

use vstd::prelude::*;
use std::collections::{HashMap, HashSet};
use std::sync::Arc;
use crate::block::Block;
use crate::chunk::{cell_index, write_result, Chunk, ChunkView};
use crate::mesh::{mesh_slots, quad_indices, quad_vertices, Vertex};
use crate::texture::{covers, TextureTable};
use crate::coord::{abs_diff, chunk_containing, chunk_of, in_distance, interior, local_of, step, within, world_to_local, ChunkCoord};

verus! {

broadcast use vstd::std_specs::hash::group_hash_axioms;

/// Largest magnitude of a viewpoint coordinate, in chunks.
pub const VIEW_LIMIT: i32 = 0x4000_0000;

/// Largest load distance, in chunks.
pub const DISTANCE_LIMIT: u16 = 0x1000;

/// The viewpoint is far enough from the ends of the coordinate range that
/// every chunk within any admissible distance has all six neighbours.
pub open spec fn bounded(v: ChunkCoord) -> bool {
    &&& -VIEW_LIMIT <= v.x <= VIEW_LIMIT
    &&& -VIEW_LIMIT <= v.y <= VIEW_LIMIT
    &&& -VIEW_LIMIT <= v.z <= VIEW_LIMIT
}

pub open spec fn key_int(c: ChunkCoord) -> int {
    (c.x + 0x8000_0000) * 0x1_0000_0000_0000_0000 + (c.y + 0x8000_0000) * 0x1_0000_0000 + (c.z
        + 0x8000_0000)
}

/// The map key of a coordinate: its three components, offset to be
/// non-negative, side by side.
pub open spec fn key_of(c: ChunkCoord) -> u128 {
    key_int(c) as u128
}

proof fn lemma_key(c: ChunkCoord)
    ensures
        0 <= key_int(c) < 0x1_0000_0000_0000_0000_0000_0000,
        key_of(c) as int == key_int(c),
        key_int(c) % 0x1_0000_0000 == c.z + 0x8000_0000,
        (key_int(c) / 0x1_0000_0000) % 0x1_0000_0000 == c.y + 0x8000_0000,
        key_int(c) / 0x1_0000_0000_0000_0000 == c.x + 0x8000_0000,
{
    let x = c.x + 0x8000_0000;
    let y = c.y + 0x8000_0000;
    let z = c.z + 0x8000_0000;
    assert(key_int(c) == (x * 0x1_0000_0000 + y) * 0x1_0000_0000 + z);
    vstd::arithmetic::div_mod::lemma_fundamental_div_mod_converse(key_int(c), 0x1_0000_0000, x * 0x1_0000_0000 + y, z);
    vstd::arithmetic::div_mod::lemma_fundamental_div_mod_converse(x * 0x1_0000_0000 + y, 0x1_0000_0000, x, y);
    vstd::arithmetic::div_mod::lemma_div_denominator(key_int(c), 0x1_0000_0000, 0x1_0000_0000);
}

/// Distinct coordinates have distinct keys.
pub proof fn lemma_key_injective(a: ChunkCoord, b: ChunkCoord)
    ensures
        key_of(a) == key_of(b) ==> a == b,
{
    lemma_key(a);
    lemma_key(b);
}

fn key(c: &ChunkCoord) -> (r: u128)
    ensures
        r == key_of(*c),
{
    proof {
        lemma_key(*c);
    }
    ((c.x as i64 + 0x8000_0000) as u128) * 0x1_0000_0000_0000_0000 + ((c.y as i64 + 0x8000_0000) as u128)
        * 0x1_0000_0000 + ((c.z as i64 + 0x8000_0000) as u128)
}

/// Every coordinate within `d` chunks of `center`.
pub fn box_coords(center: ChunkCoord, d: u16) -> (r: Vec<ChunkCoord>)
    requires
        bounded(center),
        d <= DISTANCE_LIMIT,
    ensures
        forall|i: int| 0 <= i < r@.len() ==> within(center, #[trigger] r@[i], d as int),
        forall|c: ChunkCoord| within(center, c, d as int) ==> r@.contains(c),
        r@.no_duplicates(),
{
    let mut r: Vec<ChunkCoord> = Vec::new();
    let dd = d as i32;
    let mut x: i32 = center.x - dd;
    while x <= center.x + dd
        invariant
            bounded(center),
            dd == d,
            d <= DISTANCE_LIMIT,
            center.x - dd <= x <= center.x + dd + 1,
            forall|i: int| 0 <= i < r@.len() ==> within(center, #[trigger] r@[i], d as int) && r@[i].x < x,
            forall|c: ChunkCoord| within(center, c, d as int) && c.x < x ==> r@.contains(c),
            r@.no_duplicates(),
        decreases center.x + dd + 1 - x,
    {
        let mut y: i32 = center.y - dd;
        while y <= center.y + dd
            invariant
                bounded(center),
                dd == d,
                d <= DISTANCE_LIMIT,
                center.x - dd <= x <= center.x + dd,
                center.y - dd <= y <= center.y + dd + 1,
                forall|i: int|
                    0 <= i < r@.len() ==> within(center, #[trigger] r@[i], d as int) && (r@[i].x < x
                        || (r@[i].x == x && r@[i].y < y)),
                forall|c: ChunkCoord|
                    within(center, c, d as int) && (c.x < x || (c.x == x && c.y < y)) ==> r@.contains(c),
                r@.no_duplicates(),
            decreases center.y + dd + 1 - y,
        {
            let mut z: i32 = center.z - dd;
            while z <= center.z + dd
                invariant
                    bounded(center),
                    dd == d,
                    d <= DISTANCE_LIMIT,
                    center.x - dd <= x <= center.x + dd,
                    center.y - dd <= y <= center.y + dd,
                    center.z - dd <= z <= center.z + dd + 1,
                    forall|i: int|
                        0 <= i < r@.len() ==> within(center, #[trigger] r@[i], d as int) && (r@[i].x < x
                            || (r@[i].x == x && (r@[i].y < y || (r@[i].y == y && r@[i].z < z)))),
                    forall|c: ChunkCoord|
                        within(center, c, d as int) && (c.x < x || (c.x == x && (c.y < y || (c.y == y
                            && c.z < z)))) ==> r@.contains(c),
                    r@.no_duplicates(),
                decreases center.z + dd + 1 - z,
            {
                let ghost before = r@;
                r.push(ChunkCoord { x, y, z });
                proof {
                    assert forall|a: int, b: int| 0 <= a < b < r@.len() implies r@[a] != r@[b] by {
                        if b == before.len() {
                            assert(r@[a] == before[a]);
                        } else {
                            assert(r@[a] == before[a] && r@[b] == before[b]);
                        }
                    }
                    assert forall|c: ChunkCoord|
                        within(center, c, d as int) && (c.x < x || (c.x == x && (c.y < y || (c.y == y
                            && c.z < z + 1)))) implies r@.contains(c) by {
                        if c == (ChunkCoord { x, y, z }) {
                            assert(r@[before.len() as int] == c);
                        } else {
                            let i = choose|i: int| 0 <= i < before.len() && before[i] == c;
                            assert(r@[i] == c);
                        }
                    }
                }
                z = z + 1;
            }
            y = y + 1;
        }
        x = x + 1;
    }
    r
}

/// A mesh build request: a chunk and its six neighbours, as shared
/// snapshots, neighbours ordered +X, -X, -Y, +Y, +Z, -Z.
pub struct MeshJob {
    coord: ChunkCoord,
    chunk: Arc<Chunk>,
    neighbors: [Arc<Chunk>; 6],
}

impl MeshJob {
    /// The job carries the chunk at its target and, across each face, the
    /// chunk at the neighbouring coordinate: a whole neighbourhood.
    pub closed spec fn wf(&self) -> bool {
        &&& self.chunk.wf()
        &&& self.chunk@.coord == self.coord
        &&& forall|f: int| 0 <= f < 6 ==> (#[trigger] self.neighbors[f]).wf()
        &&& forall|f: int| 0 <= f < 6 ==> (#[trigger] self.neighbors[f])@.coord == step(self.coord, f)
    }

    pub closed spec fn target(&self) -> ChunkCoord {
        self.coord
    }

    /// The chunk to mesh.
    pub closed spec fn center(&self) -> ChunkView {
        self.chunk@
    }

    /// The neighbour across face `f`.
    pub closed spec fn neighbor(&self, f: int) -> ChunkView {
        self.neighbors[f]@
    }

    /// A well-formed job holds the chunks at its target and around it.
    pub proof fn lemma_neighborhood(&self)
        requires
            self.wf(),
        ensures
            self.center().coord == self.target(),
            forall|f: int| 0 <= f < 6 ==> (#[trigger] self.neighbor(f)).coord == step(self.target(), f),
    {
    }

    pub open spec fn neighbor_seq(&self) -> Seq<ChunkView> {
        Seq::new(6, |f: int| self.neighbor(f))
    }

    pub fn coord(&self) -> (r: ChunkCoord)
        ensures
            r == self.target(),
    {
        self.coord
    }

    /// Meshes the chunk against its neighbours; `None` when the table lacks
    /// a material that the chunk holds.
    pub fn build(&self, table: &TextureTable) -> (r: Option<(Vec<Vertex>, Vec<u32>)>)
        requires
            self.wf(),
        ensures
            r is Some <==> covers(table@, self.center().cells()),
            r matches Some(m) ==> m.0@ == quad_vertices(self.center(), table@, mesh_slots(self.center(), self.neighbor_seq()))
                && m.1@ == quad_indices(mesh_slots(self.center(), self.neighbor_seq()).len()),
    {
        let chunk: &Chunk = &self.chunk;
        if !table.covers(chunk) {
            return None;
        }
        let n0: &Chunk = &self.neighbors[0];
        let n1: &Chunk = &self.neighbors[1];
        let n2: &Chunk = &self.neighbors[2];
        let n3: &Chunk = &self.neighbors[3];
        let n4: &Chunk = &self.neighbors[4];
        let n5: &Chunk = &self.neighbors[5];
        let neighbors = [n0, n1, n2, n3, n4, n5];
        proof {
            assert(crate::mesh::neighbor_views(neighbors) =~= self.neighbor_seq());
            assert forall|g: int| 0 <= g < 6 implies (#[trigger] neighbors[g]).wf() by {
                assert(self.neighbors[g].wf());
            }
        }
        Some(chunk.gen_mesh(neighbors, table))
    }
}

/// What the store holds, as plain values.
pub struct LoaderView {
    pub chunks: Map<ChunkCoord, ChunkView>,
    /// Coordinates with a built mesh.
    pub meshed: Set<ChunkCoord>,
    /// Coordinates handed to generation and not yet back.
    pub queued_chunks: Set<ChunkCoord>,
    /// Coordinates handed to meshing and not yet back.
    pub queued_meshes: Set<ChunkCoord>,
    /// Coordinates handed to meshing whose chunk, or a neighbour of it,
    /// changed after the job was taken: their build comes back stale.
    pub outdated: Set<ChunkCoord>,
    pub load_distance: int,
    pub render_distance: int,
    /// The viewpoint of the last retarget, in chunks.
    pub center: ChunkCoord,
}

/// Streams chunks and meshes around a viewpoint.
pub struct ChunkLoader {
    chunk_map: HashMap<u128, Arc<Chunk>>,
    mesh_map: HashSet<u128>,
    queued_chunks: HashSet<u128>,
    queued_meshes: HashSet<u128>,
    outdated_meshes: HashSet<u128>,
    load_distance: u16,
    render_distance: u16,
    center: ChunkCoord,
}

impl View for ChunkLoader {
    type V = LoaderView;

    closed spec fn view(&self) -> LoaderView {
        LoaderView {
            chunks: Map::new(
                |c: ChunkCoord| self.chunk_map@.contains_key(key_of(c)),
                |c: ChunkCoord| self.chunk_map@[key_of(c)]@,
            ),
            meshed: Set::new(|c: ChunkCoord| self.mesh_map@.contains(key_of(c))),
            queued_chunks: Set::new(|c: ChunkCoord| self.queued_chunks@.contains(key_of(c))),
            queued_meshes: Set::new(|c: ChunkCoord| self.queued_meshes@.contains(key_of(c))),
            outdated: Set::new(|c: ChunkCoord| self.outdated_meshes@.contains(key_of(c))),
            load_distance: self.load_distance as int,
            render_distance: self.render_distance as int,
            center: self.center,
        }
    }
}

impl ChunkLoader {
    /// Every stored chunk is well formed, sits under its own key and lies
    /// within load distance of the viewpoint; every mesh belongs to a stored
    /// chunk within render distance.
    pub closed spec fn wf(&self) -> bool {
        &&& self.render_distance <= self.load_distance <= DISTANCE_LIMIT
        &&& bounded(self.center)
        &&& forall|k: u128| #[trigger]
            self.chunk_map@.contains_key(k) ==> {
                &&& self.chunk_map@[k].wf()
                &&& key_of(self.chunk_map@[k]@.coord) == k
                &&& within(self.center, self.chunk_map@[k]@.coord, self.load_distance as int)
            }
        &&& forall|k: u128| #[trigger]
            self.mesh_map@.contains(k) ==> self.chunk_map@.contains_key(k) && within(
                self.center,
                self.chunk_map@[k]@.coord,
                self.render_distance as int,
            )
    }

    proof fn lemma_view(&self, c: ChunkCoord)
        requires
            self.wf(),
        ensures
            self@.chunks.contains_key(c) <==> self.chunk_map@.contains_key(key_of(c)),
            self@.chunks.contains_key(c) ==> self@.chunks[c] == self.chunk_map@[key_of(c)]@
                && self.chunk_map@[key_of(c)]@.coord == c && self.chunk_map@[key_of(c)].wf()
                && within(self.center, c, self.load_distance as int) && interior(c),
            self@.meshed.contains(c) <==> self.mesh_map@.contains(key_of(c)),
            self@.meshed.contains(c) ==> self@.chunks.contains_key(c) && within(
                self.center,
                c,
                self.render_distance as int,
            ),
    {
        if self.chunk_map@.contains_key(key_of(c)) {
            lemma_key_injective(self.chunk_map@[key_of(c)]@.coord, c);
        }
    }

    /// A store with render distance 10 and load distance 11, centred on the
    /// origin.
    pub fn new() -> (r: ChunkLoader)
        ensures
            r.wf(),
            r@.chunks == Map::<ChunkCoord, ChunkView>::empty(),
            r@.meshed == Set::<ChunkCoord>::empty(),
            r@.queued_chunks == Set::<ChunkCoord>::empty(),
            r@.queued_meshes == Set::<ChunkCoord>::empty(),
            r@.outdated == Set::<ChunkCoord>::empty(),
            r@.render_distance == 10,
            r@.load_distance == 11,
            r@.center == (ChunkCoord { x: 0, y: 0, z: 0 }),
    {
        Self::with_distances(10, 11)
    }

    /// An empty store with the given distances, centred on the origin.
    pub fn with_distances(render_distance: u16, load_distance: u16) -> (r: ChunkLoader)
        requires
            render_distance <= load_distance <= DISTANCE_LIMIT,
        ensures
            r.wf(),
            r@.chunks == Map::<ChunkCoord, ChunkView>::empty(),
            r@.meshed == Set::<ChunkCoord>::empty(),
            r@.queued_chunks == Set::<ChunkCoord>::empty(),
            r@.queued_meshes == Set::<ChunkCoord>::empty(),
            r@.outdated == Set::<ChunkCoord>::empty(),
            r@.render_distance == render_distance,
            r@.load_distance == load_distance,
            r@.center == (ChunkCoord { x: 0, y: 0, z: 0 }),
    {
        let r = ChunkLoader {
            chunk_map: HashMap::new(),
            mesh_map: HashSet::new(),
            queued_chunks: HashSet::new(),
            queued_meshes: HashSet::new(),
            outdated_meshes: HashSet::new(),
            load_distance,
            render_distance,
            center: ChunkCoord { x: 0, y: 0, z: 0 },
        };
        assert(r@.chunks =~= Map::<ChunkCoord, ChunkView>::empty());
        assert(r@.meshed =~= Set::<ChunkCoord>::empty());
        assert(r@.queued_chunks =~= Set::<ChunkCoord>::empty());
        assert(r@.queued_meshes =~= Set::<ChunkCoord>::empty());
        assert(r@.outdated =~= Set::<ChunkCoord>::empty());
        r
    }

    /// Moves the viewpoint and evicts what now lies too far from it: chunks
    /// beyond load distance, meshes beyond render distance. Returns the
    /// coordinates whose meshes were dropped.
    pub fn retarget(&mut self, viewpoint: ChunkCoord) -> (evicted: Vec<ChunkCoord>)
        requires
            old(self).wf(),
            bounded(viewpoint),
        ensures
            final(self).wf(),
            final(self)@ == after_retarget(old(self)@, viewpoint),
            forall|c: ChunkCoord|
                #[trigger] evicted@.contains(c) <==> old(self)@.meshed.contains(c) && !within(
                    viewpoint,
                    c,
                    old(self)@.render_distance,
                ),
    {
        let coords = box_coords(self.center, self.load_distance);
        let ghost old_map = self.chunk_map@;
        let ghost old_mesh = self.mesh_map@;
        let ghost ld = self.load_distance as int;
        let ghost rd = self.render_distance as int;
        let mut evicted: Vec<ChunkCoord> = Vec::new();
        let mut i: usize = 0;
        while i < coords.len()
            invariant
                0 <= i <= coords@.len(),
                old(self).wf(),
                self.center == old(self).center,
                self.load_distance == old(self).load_distance,
                self.render_distance == old(self).render_distance,
                self.queued_chunks == old(self).queued_chunks,
                self.queued_meshes == old(self).queued_meshes,
                self.outdated_meshes == old(self).outdated_meshes,
                old_map == old(self).chunk_map@,
                old_mesh == old(self).mesh_map@,
                ld == self.load_distance,
                rd == self.render_distance,
                forall|j: int| 0 <= j < coords@.len() ==> within(self.center, #[trigger] coords@[j], ld),
                forall|c: ChunkCoord| within(self.center, c, ld) ==> coords@.contains(c),
                forall|k: u128|
                    #[trigger] self.chunk_map@.contains_key(k) <==> (old_map.contains_key(k) && (listed(
                        coords@,
                        i as int,
                        old_map[k]@.coord,
                    ) ==> within(viewpoint, old_map[k]@.coord, ld))),
                forall|k: u128| #[trigger]
                    self.chunk_map@.contains_key(k) ==> self.chunk_map@[k] == old_map[k],
                forall|k: u128|
                    #[trigger] self.mesh_map@.contains(k) <==> (old_mesh.contains(k) && (listed(
                        coords@,
                        i as int,
                        old_map[k]@.coord,
                    ) ==> within(viewpoint, old_map[k]@.coord, rd))),
                forall|j: int|
                    0 <= j < evicted@.len() ==> old_mesh.contains(key_of(#[trigger] evicted@[j]))
                        && !within(viewpoint, evicted@[j], rd),
                forall|k: u128|
                    old_mesh.contains(k) && #[trigger] listed(coords@, i as int, old_map[k]@.coord)
                        && !within(viewpoint, old_map[k]@.coord, rd) ==> evicted@.contains(
                        old_map[k]@.coord,
                    ),
            decreases coords@.len() - i,
        {
            let c = coords[i];
            let k = key(&c);
            proof {
                assert forall|x: ChunkCoord| #[trigger]
                    listed(coords@, i + 1, x) == (listed(coords@, i as int, x) || x == c) by {
                    lemma_listed_step(coords@, i as int, x);
                }
                if old_map.contains_key(k) {
                    lemma_key_injective(old_map[k]@.coord, c);
                }
                assert forall|k2: u128| old_map.contains_key(k2) && old_map[k2]@.coord == c implies k2 == k by {}
            }
            let ghost before = evicted@;
            if self.chunk_map.contains_key(&k) {
                if !in_distance(&viewpoint, &c, self.load_distance) {
                    self.chunk_map.remove(&k);
                    if self.mesh_map.remove(&k) {
                        evicted.push(c);
                    }
                } else if !in_distance(&viewpoint, &c, self.render_distance) {
                    if self.mesh_map.remove(&k) {
                        evicted.push(c);
                    }
                }
            }
            proof {
                assert forall|k2: u128|
                    old_mesh.contains(k2) && #[trigger] listed(coords@, i + 1, old_map[k2]@.coord)
                        && !within(viewpoint, old_map[k2]@.coord, rd) implies evicted@.contains(
                        old_map[k2]@.coord,
                    ) by {
                    if listed(coords@, i as int, old_map[k2]@.coord) {
                        let j = choose|j: int| 0 <= j < before.len() && before[j] == old_map[k2]@.coord;
                        assert(evicted@[j] == before[j]);
                    } else {
                        assert(evicted@[evicted@.len() - 1] == c);
                    }
                }
            }
            i = i + 1;
        }
        self.center = viewpoint;
        proof {
            assert forall|k: u128| old_map.contains_key(k) implies #[trigger] listed(
                coords@,
                coords@.len() as int,
                old_map[k]@.coord,
            ) by {
                let j = choose|j: int| 0 <= j < coords@.len() && coords@[j] == old_map[k]@.coord;
            }
            assert(self@.chunks =~= old(self)@.chunks.restrict(
                Set::new(|c: ChunkCoord| within(viewpoint, c, old(self)@.load_distance)),
            )) by {
                assert forall|c: ChunkCoord| true implies (self@.chunks.contains_key(c) == old(self)@.chunks.restrict(
                    Set::new(|c: ChunkCoord| within(viewpoint, c, old(self)@.load_distance)),
                ).contains_key(c)) by {
                    old(self).lemma_view(c);
                }
            }
            assert(self@.meshed =~= old(self)@.meshed.filter(
                |c: ChunkCoord| within(viewpoint, c, old(self)@.render_distance),
            )) by {
                assert forall|c: ChunkCoord| true implies (#[trigger] self@.meshed.contains(c) == old(self)@.meshed.filter(
                    |c: ChunkCoord| within(viewpoint, c, old(self)@.render_distance),
                ).contains(c)) by {
                    old(self).lemma_view(c);
                }
            }
            assert forall|c: ChunkCoord|
                #[trigger] evicted@.contains(c) <==> old(self)@.meshed.contains(c) && !within(
                    viewpoint,
                    c,
                    old(self)@.render_distance,
                ) by {
                old(self).lemma_view(c);
                if evicted@.contains(c) {
                    let j = choose|j: int| 0 <= j < evicted@.len() && evicted@[j] == c;
                    assert(old_mesh.contains(key_of(evicted@[j])));
                }
                if old(self)@.meshed.contains(c) && !within(viewpoint, c, old(self)@.render_distance) {
                    let k = key_of(c);
                    assert(old_mesh.contains(k));
                    assert(old_map.contains_key(k));
                    assert(old_map[k]@.coord == c);
                    assert(listed(coords@, coords@.len() as int, old_map[k]@.coord));
                }
            }
        }
        evicted
    }

    /// Coordinates within load distance that are neither stored nor queued
    /// for generation.
    pub fn chunks_to_generate(&self) -> (r: Vec<ChunkCoord>)
        requires
            self.wf(),
        ensures
            forall|i: int|
                0 <= i < r@.len() ==> within(self@.center, #[trigger] r@[i], self@.load_distance)
                    && !self@.chunks.contains_key(r@[i]) && !self@.queued_chunks.contains(r@[i]),
            forall|c: ChunkCoord|
                within(self@.center, c, self@.load_distance) && !self@.chunks.contains_key(c)
                    && !self@.queued_chunks.contains(c) ==> #[trigger] r@.contains(c),
    {
        let coords = box_coords(self.center, self.load_distance);
        let mut r: Vec<ChunkCoord> = Vec::new();
        let mut i: usize = 0;
        while i < coords.len()
            invariant
                0 <= i <= coords@.len(),
                self.wf(),
                forall|j: int|
                    0 <= j < coords@.len() ==> within(self.center, #[trigger] coords@[j], self.load_distance as int),
                forall|c: ChunkCoord| within(self.center, c, self.load_distance as int) ==> coords@.contains(c),
                forall|j: int|
                    0 <= j < r@.len() ==> within(self@.center, #[trigger] r@[j], self@.load_distance)
                        && !self@.chunks.contains_key(r@[j]) && !self@.queued_chunks.contains(r@[j]),
                forall|c: ChunkCoord|
                    #[trigger] listed(coords@, i as int, c) && !self@.chunks.contains_key(c)
                        && !self@.queued_chunks.contains(c) ==> r@.contains(c),
            decreases coords@.len() - i,
        {
            let c = coords[i];
            let k = key(&c);
            proof {
                self.lemma_view(c);
                assert forall|x: ChunkCoord| #[trigger]
                    listed(coords@, i + 1, x) == (listed(coords@, i as int, x) || x == c) by {
                    lemma_listed_step(coords@, i as int, x);
                }
            }
            let ghost before = r@;
            if !self.chunk_map.contains_key(&k) && !self.queued_chunks.contains(&k) {
                r.push(c);
                proof {
                    assert forall|x: ChunkCoord| #[trigger] before.contains(x) implies r@.contains(x) by {
                        let j = choose|j: int| 0 <= j < before.len() && before[j] == x;
                        assert(r@[j] == x);
                    }
                    assert(r@[before.len() as int] == c);
                }
            }
            i = i + 1;
        }
        proof {
            assert forall|c: ChunkCoord|
                within(self@.center, c, self@.load_distance) && !self@.chunks.contains_key(c)
                    && !self@.queued_chunks.contains(c) implies #[trigger] r@.contains(c) by {
                let j = choose|j: int| 0 <= j < coords@.len() && coords@[j] == c;
                assert(listed(coords@, coords@.len() as int, c));
            }
        }
        r
    }

    /// Records that generation of `c` was queued.
    pub fn mark_generation_queued(&mut self, c: ChunkCoord)
        requires
            old(self).wf(),
        ensures
            final(self).wf(),
            final(self)@ == (LoaderView { queued_chunks: old(self)@.queued_chunks.insert(c), ..old(self)@ }),
    {
        let k = key(&c);
        self.queued_chunks.insert(k);
        proof {
            assert forall|x: ChunkCoord| true implies (#[trigger] self@.queued_chunks.contains(x)
                == old(self)@.queued_chunks.insert(c).contains(x)) by {
                lemma_key_injective(x, c);
            }
            assert(self@.queued_chunks =~= old(self)@.queued_chunks.insert(c));
        }
    }

    /// Puts the target of `job` in flight, up to date until its chunk or a
    /// neighbour changes.
    fn mark_in_flight(&mut self, job: &MeshJob)
        requires
            old(self).wf(),
            job.wf(),
        ensures
            final(self).wf(),
            final(self)@ == (LoaderView {
                queued_meshes: old(self)@.queued_meshes.insert(job.target()),
                outdated: old(self)@.outdated.remove(job.target()),
                ..old(self)@
            }),
    {
        let c = job.coord();
        let k = key(&c);
        self.queued_meshes.insert(k);
        self.outdated_meshes.remove(&k);
        proof {
            lemma_keyed_insert(old(self).queued_meshes@, c);
            lemma_keyed_remove(old(self).outdated_meshes@, c);
        }
    }

    /// Takes in a generated chunk: it leaves the generation in-flight set and
    /// is stored when it lies within load distance, else dropped. Returns
    /// whether it was stored.
    pub fn insert_generated(&mut self, chunk: Chunk) -> (stored: bool)
        requires
            old(self).wf(),
            chunk.wf(),
        ensures
            final(self).wf(),
            stored == stores(old(self)@, chunk@),
            final(self)@ == after_insert(old(self)@, chunk@),
    {
        let c = chunk.coord();
        let k = key(&c);
        self.queued_chunks.remove(&k);
        let stored = in_distance(&self.center, &c, self.load_distance);
        if stored {
            self.chunk_map.insert(k, Arc::new(chunk));
            if self.queued_meshes.contains(&k) {
                self.outdated_meshes.insert(k);
            }
        }
        proof {
            lemma_keyed_insert(old(self).outdated_meshes@, c);
            assert(self@.queued_meshes.contains(c) == self.queued_meshes@.contains(k));
        }
        proof {
            assert forall|k2: u128| #[trigger] self.chunk_map@.contains_key(k2) implies {
                &&& self.chunk_map@[k2].wf()
                &&& key_of(self.chunk_map@[k2]@.coord) == k2
                &&& within(self.center, self.chunk_map@[k2]@.coord, self.load_distance as int)
            } by {
                if k2 != k {
                    assert(old(self).chunk_map@.contains_key(k2));
                }
            }
            assert forall|k2: u128| #[trigger] self.mesh_map@.contains(k2) implies self.chunk_map@.contains_key(k2)
                && within(self.center, self.chunk_map@[k2]@.coord, self.render_distance as int) by {
                assert(old(self).mesh_map@.contains(k2));
                if k2 == k {
                    lemma_key_injective(old(self).chunk_map@[k2]@.coord, c);
                }
            }
            assert(self.wf());
        }
        proof {
            assert forall|x: ChunkCoord| true implies (#[trigger] self@.queued_chunks.contains(x)
                == old(self)@.queued_chunks.remove(c).contains(x)) by {
                lemma_key_injective(x, c);
            }
            assert(self@.queued_chunks =~= old(self)@.queued_chunks.remove(c));
            if stored {
                assert forall|x: ChunkCoord| true implies (#[trigger] self@.chunks.contains_key(x)
                    == old(self)@.chunks.insert(c, chunk@).contains_key(x)) by {
                    lemma_key_injective(x, c);
                }
                assert forall|x: ChunkCoord| #[trigger] self@.chunks.contains_key(x) implies self@.chunks[x]
                    == old(self)@.chunks.insert(c, chunk@)[x] by {
                    lemma_key_injective(x, c);
                }
                assert(self@.chunks =~= old(self)@.chunks.insert(c, chunk@));
            }
            assert(self@.chunks =~= (if stored { old(self)@.chunks.insert(c, chunk@) } else { old(self)@.chunks }));
        }
        stored
    }

    /// The stored chunk at `c`, shared.
    fn shared(&self, c: &ChunkCoord) -> (r: Option<Arc<Chunk>>)
        requires
            self.wf(),
        ensures
            r is Some <==> self@.chunks.contains_key(*c),
            r matches Some(a) ==> a@ == self@.chunks[*c] && a.wf(),
    {
        proof {
            self.lemma_view(*c);
        }
        match self.chunk_map.get(&key(c)) {
            Some(a) => Some(a.clone()),
            None => None,
        }
    }

    /// The six stored face neighbours of `c`, ordered +X, -X, -Y, +Y, +Z,
    /// -Z; `None` when any is missing.
    fn get_neighbors(&self, c: &ChunkCoord) -> (r: Option<[Arc<Chunk>; 6]>)
        requires
            self.wf(),
            interior(*c),
        ensures
            r is Some <==> forall|f: int| 0 <= f < 6 ==> self@.chunks.contains_key(#[trigger] step(*c, f)),
            r matches Some(n) ==> forall|f: int| 0 <= f < 6 ==> (#[trigger] n[f])@ == self@.chunks[step(*c, f)] && n[f].wf(),
    {
        let ns = c.neighbors();
        let n0 = match self.shared(&ns[0]) { Some(a) => a, None => return None };
        let n1 = match self.shared(&ns[1]) { Some(a) => a, None => return None };
        let n2 = match self.shared(&ns[2]) { Some(a) => a, None => return None };
        let n3 = match self.shared(&ns[3]) { Some(a) => a, None => return None };
        let n4 = match self.shared(&ns[4]) { Some(a) => a, None => return None };
        let n5 = match self.shared(&ns[5]) { Some(a) => a, None => return None };
        let r = [n0, n1, n2, n3, n4, n5];
        proof {
            assert(ns[0] == step(*c, 0));
            assert(ns[1] == step(*c, 1));
            assert(ns[2] == step(*c, 2));
            assert(ns[3] == step(*c, 3));
            assert(ns[4] == step(*c, 4));
            assert(ns[5] == step(*c, 5));
        }
        Some(r)
    }

    /// A mesh build request for `c`: given only when `c` is stored, not
    /// already queued for meshing, and all six neighbours are stored.
    pub fn mesh_job(&self, c: ChunkCoord) -> (r: Option<MeshJob>)
        requires
            self.wf(),
        ensures
            r is Some <==> (self@.chunks.contains_key(c) && !self@.queued_meshes.contains(c) && forall|f: int|
                0 <= f < 6 ==> self@.chunks.contains_key(#[trigger] step(c, f))),
            r matches Some(j) ==> {
                &&& j.wf()
                &&& j.target() == c
                &&& j.center() == self@.chunks[c]
                &&& forall|f: int| 0 <= f < 6 ==> #[trigger] j.neighbor(f) == self@.chunks[step(c, f)]
            },
    {
        if self.queued_meshes.contains(&key(&c)) {
            return None;
        }
        let chunk = match self.shared(&c) {
            Some(a) => a,
            None => return None,
        };
        proof {
            self.lemma_view(c);
        }
        let neighbors = match self.get_neighbors(&c) {
            Some(n) => n,
            None => return None,
        };
        let job = MeshJob { coord: c, chunk, neighbors };
        proof {
            assert forall|f: int| 0 <= f < 6 implies (#[trigger] job.neighbors[f])@.coord == step(c, f) by {
                self.lemma_view(step(c, f));
            }
        }
        Some(job)
    }

    /// Hands out a mesh job for `c` and puts `c` in flight: only when `c` is
    /// stored, not already in flight, and all six face neighbours are
    /// stored. This is the one way into the meshing in-flight set.
    pub fn dispatch(&mut self, c: ChunkCoord) -> (r: Option<MeshJob>)
        requires
            old(self).wf(),
        ensures
            final(self).wf(),
            r is Some <==> (old(self)@.chunks.contains_key(c) && ready(old(self)@, c)),
            r matches Some(j) ==> {
                &&& j.wf()
                &&& j.target() == c
                &&& j.center() == old(self)@.chunks[c]
                &&& forall|f: int| 0 <= f < 6 ==> #[trigger] j.neighbor(f) == old(self)@.chunks[step(c, f)]
            },
            final(self)@ == (if r is Some {
                LoaderView {
                    queued_meshes: old(self)@.queued_meshes.insert(c),
                    outdated: old(self)@.outdated.remove(c),
                    ..old(self)@
                }
            } else {
                old(self)@
            }),
    {
        match self.mesh_job(c) {
            Some(job) => {
                self.mark_in_flight(&job);
                Some(job)
            },
            None => None,
        }
    }

    /// Takes back a finished mesh build of `c`. A report for a coordinate
    /// that is not in flight is ignored. Otherwise `c` leaves the in-flight
    /// sets; when the build succeeded and `c` is still stored, the chunk is
    /// marked up to date unless it changed while the job ran, and the mesh
    /// is accepted when `c` lies within render distance. Returns whether it
    /// was accepted.
    pub fn finish_mesh(&mut self, c: ChunkCoord, built: bool) -> (accepted: bool)
        requires
            old(self).wf(),
        ensures
            final(self).wf(),
            accepted == accepts(old(self)@, c, built),
            final(self)@ == after_finish(old(self)@, c, built),
    {
        let k = key(&c);
        proof {
            old(self).lemma_view(c);
            lemma_keyed_remove(old(self).queued_meshes@, c);
            lemma_keyed_remove(old(self).outdated_meshes@, c);
        }
        let live = self.queued_meshes.remove(&k);
        let stale = self.outdated_meshes.remove(&k);
        if !live || !built {
            return false;
        }
        let current = match self.chunk_map.get(&k) {
            Some(a) => a.clone(),
            None => return false,
        };
        if !stale {
            let mut updated = current.snapshot();
            updated.set_updated();
            self.chunk_map.insert(k, Arc::new(updated));
            proof {
                assert forall|x: ChunkCoord| true implies (#[trigger] self@.chunks.contains_key(x)
                    == old(self)@.chunks.contains_key(x)) by {
                    lemma_key_injective(x, c);
                    old(self).lemma_view(x);
                }
                assert forall|x: ChunkCoord| #[trigger] self@.chunks.contains_key(x) implies self@.chunks[x]
                    == old(self)@.chunks.insert(c, ChunkView { dirty: false, ..old(self)@.chunks[c] })[x] by {
                    lemma_key_injective(x, c);
                }
                assert(self@.chunks =~= old(self)@.chunks.insert(c, ChunkView { dirty: false, ..old(self)@.chunks[c] }));
            }
        }
        if !in_distance(&self.center, &c, self.render_distance) {
            return false;
        }
        self.mesh_map.insert(k);
        proof {
            lemma_keyed_insert(old(self).mesh_map@, c);
            assert forall|k2: u128| #[trigger] self.mesh_map@.contains(k2) implies self.chunk_map@.contains_key(k2)
                && within(self.center, self.chunk_map@[k2]@.coord, self.render_distance as int) by {
                if k2 != k {
                    assert(old(self).mesh_map@.contains(k2));
                }
            }
        }
        true
    }

    /// Marks the mesh of the stored chunk at `c` stale, if one is stored.
    fn mark_dirty(&mut self, c: ChunkCoord)
        requires
            old(self).wf(),
        ensures
            final(self).wf(),
            final(self)@ == (LoaderView {
                chunks: if old(self)@.chunks.contains_key(c) {
                    old(self)@.chunks.insert(c, ChunkView { dirty: true, ..old(self)@.chunks[c] })
                } else {
                    old(self)@.chunks
                },
                ..old(self)@
            }),
    {
        let k = key(&c);
        proof {
            old(self).lemma_view(c);
        }
        let current = match self.chunk_map.get(&k) {
            Some(a) => a.clone(),
            None => {
                return;
            },
        };
        if current.needs_update() {
            assert(old(self)@.chunks.insert(c, ChunkView { dirty: true, ..old(self)@.chunks[c] }) =~= old(self)@.chunks);
            return;
        }
        let mut updated = current.snapshot();
        updated.request_update();
        self.chunk_map.insert(k, Arc::new(updated));
        proof {
            assert forall|x: ChunkCoord| true implies (#[trigger] self@.chunks.contains_key(x)
                == old(self)@.chunks.contains_key(x)) by {
                lemma_key_injective(x, c);
                old(self).lemma_view(x);
            }
            assert forall|x: ChunkCoord| #[trigger] self@.chunks.contains_key(x) implies self@.chunks[x]
                == old(self)@.chunks.insert(c, ChunkView { dirty: true, ..old(self)@.chunks[c] })[x] by {
                lemma_key_injective(x, c);
            }
            assert(self@.chunks =~= old(self)@.chunks.insert(c, ChunkView { dirty: true, ..old(self)@.chunks[c] }));
            assert forall|k2: u128| #[trigger] self.mesh_map@.contains(k2) implies self.chunk_map@.contains_key(k2)
                && within(self.center, self.chunk_map@[k2]@.coord, self.render_distance as int) by {
                assert(old(self).mesh_map@.contains(k2));
            }
        }
    }

    /// Selects the chunks to mesh: every stored, non-empty chunk within
    /// render distance that has no mesh yet (its mesh is first marked stale)
    /// or whose mesh is stale.
    pub fn mesh_candidates(&mut self) -> (r: Vec<ChunkCoord>)
        requires
            old(self).wf(),
        ensures
            final(self).wf(),
            final(self)@ == after_selection(old(self)@),
            forall|i: int| 0 <= i < r@.len() ==> mesh_candidate(final(self)@, #[trigger] r@[i]),
            forall|c: ChunkCoord| mesh_candidate(final(self)@, c) ==> #[trigger] r@.contains(c),
            r@.no_duplicates(),
    {
        let coords = box_coords(self.center, self.render_distance);
        let ghost start = self@;
        let mut r: Vec<ChunkCoord> = Vec::new();
        let mut i: usize = 0;
        assert(self@.chunks =~= Map::new(
            |c: ChunkCoord| start.chunks.contains_key(c),
            |c: ChunkCoord|
                if listed(coords@, 0, c) && first_build(start, c) {
                    ChunkView { dirty: true, ..start.chunks[c] }
                } else {
                    start.chunks[c]
                },
        ));
        while i < coords.len()
            invariant
                0 <= i <= coords@.len(),
                self.wf(),
                start == old(self)@,
                forall|j: int|
                    0 <= j < coords@.len() ==> within(start.center, #[trigger] coords@[j], start.render_distance),
                forall|c: ChunkCoord| within(start.center, c, start.render_distance) ==> coords@.contains(c),
                self@ == (LoaderView {
                    chunks: Map::new(
                        |c: ChunkCoord| start.chunks.contains_key(c),
                        |c: ChunkCoord|
                            if listed(coords@, i as int, c) && first_build(start, c) {
                                ChunkView { dirty: true, ..start.chunks[c] }
                            } else {
                                start.chunks[c]
                            },
                    ),
                    ..start
                }),
                forall|j: int| 0 <= j < r@.len() ==> mesh_candidate(start, #[trigger] r@[j]),
                forall|c: ChunkCoord| #[trigger] listed(coords@, i as int, c) && mesh_candidate(start, c) ==> r@.contains(c),
                coords@.no_duplicates(),
                r@.no_duplicates(),
                forall|j: int| 0 <= j < r@.len() ==> listed(coords@, i as int, #[trigger] r@[j]),
            decreases coords@.len() - i,
        {
            let c = coords[i];
            proof {
                assert forall|x: ChunkCoord| #[trigger]
                    listed(coords@, i + 1, x) == (listed(coords@, i as int, x) || x == c) by {
                    lemma_listed_step(coords@, i as int, x);
                }
                self.lemma_view(c);
            }
            let ghost before = r@;
            match self.shared(&c) {
                Some(current) => {
                    if !current.is_empty() {
                        if !self.mesh_map.contains(&key(&c)) {
                            self.mark_dirty(c);
                            r.push(c);
                        } else if current.needs_update() {
                            r.push(c);
                        }
                    }
                },
                None => {},
            }
            proof {
                assert(self@.chunks =~= Map::new(
                    |x: ChunkCoord| start.chunks.contains_key(x),
                    |x: ChunkCoord|
                        if listed(coords@, i + 1, x) && first_build(start, x) {
                            ChunkView { dirty: true, ..start.chunks[x] }
                        } else {
                            start.chunks[x]
                        },
                ));
                assert forall|x: ChunkCoord| #[trigger] before.contains(x) implies r@.contains(x) by {
                    let j = choose|j: int| 0 <= j < before.len() && before[j] == x;
                    assert(r@[j] == x);
                }
                if r@.len() > before.len() {
                    assert(r@[before.len() as int] == c);
                    assert(!listed(coords@, i as int, c));
                    assert forall|a: int, b: int| 0 <= a < b < r@.len() implies r@[a] != r@[b] by {
                        if b == before.len() {
                            assert(r@[a] == before[a]);
                            assert(listed(coords@, i as int, before[a]));
                        } else {
                            assert(r@[a] == before[a] && r@[b] == before[b]);
                        }
                    }
                }
                assert forall|j: int| 0 <= j < r@.len() implies listed(coords@, i + 1, #[trigger] r@[j]) by {
                    if j < before.len() {
                        assert(r@[j] == before[j]);
                    }
                }
            }
            i = i + 1;
        }
        proof {
            assert forall|c: ChunkCoord| #[trigger] start.chunks.contains_key(c) && within(start.center, c, start.render_distance) implies listed(coords@, coords@.len() as int, c) by {
                let j = choose|j: int| 0 <= j < coords@.len() && coords@[j] == c;
            }
            assert forall|c: ChunkCoord| true implies mesh_candidate(self@, c) == mesh_candidate(start, c) by {
                if start.chunks.contains_key(c) && within(start.center, c, start.render_distance) {
                    assert(listed(coords@, coords@.len() as int, c));
                }
            }
            assert(self@.chunks =~= Map::new(
                |c: ChunkCoord| start.chunks.contains_key(c),
                |c: ChunkCoord|
                    if first_build(start, c) {
                        ChunkView { dirty: true, ..start.chunks[c] }
                    } else {
                        start.chunks[c]
                    },
            ));
        }
        r
    }

    /// The block at world cell `pos`, or `None` when its chunk is not stored
    /// (unknown, which is not air).
    pub fn get_block(&self, pos: [i32; 3]) -> (r: Option<Block>)
        requires
            self.wf(),
        ensures
            r == (if self@.chunks.contains_key(chunk_at(pos)) {
                Some(self@.chunks[chunk_at(pos)].block_at3(local_of(pos[0] as int), local_of(pos[1] as int), local_of(pos[2] as int)))
            } else {
                None
            }),
    {
        let cc = chunk_containing(pos[0], pos[1], pos[2]);
        match self.shared(&cc) {
            Some(chunk) => chunk.get_block((world_to_local(pos[0]), world_to_local(pos[1]), world_to_local(pos[2]))),
            None => None,
        }
    }

    /// The stored chunk at chunk coordinate `(i, j, k)`, shared.
    pub fn get_chunk(&self, pos: (i32, i32, i32)) -> (r: Option<Arc<Chunk>>)
        requires
            self.wf(),
        ensures
            r is Some <==> self@.chunks.contains_key(ChunkCoord { x: pos.0, y: pos.1, z: pos.2 }),
            r matches Some(a) ==> a@ == self@.chunks[ChunkCoord { x: pos.0, y: pos.1, z: pos.2 }],
    {
        self.shared(&ChunkCoord::new(pos.0, pos.1, pos.2))
    }

    /// Writes world cell `pos` when its chunk is stored. When the value
    /// changes and the cell lies on a face of its chunk, the stored face
    /// neighbours of the chunk turn stale too. Returns whether the value
    /// changed.
    pub fn set_block(&mut self, pos: [i32; 3], block: Block) -> (changed: bool)
        requires
            old(self).wf(),
        ensures
            final(self).wf(),
            ({
                let cc = chunk_at(pos);
                let (i, j, k) = (local_of(pos[0] as int), local_of(pos[1] as int), local_of(pos[2] as int));
                let n = cell_index(i, j, k);
                if old(self)@.chunks.contains_key(cc) {
                    &&& changed == (old(self)@.chunks[cc].block_at(n) != block)
                    &&& final(self)@ == (LoaderView {
                        chunks: Map::new(
                            |c: ChunkCoord| old(self)@.chunks.contains_key(c),
                            |c: ChunkCoord|
                                if c == cc {
                                    write_result(old(self)@.chunks[cc], n, block)
                                } else if changed && on_boundary(i, j, k) && adjacent(cc, c) {
                                    ChunkView { dirty: true, ..old(self)@.chunks[c] }
                                } else {
                                    old(self)@.chunks[c]
                                },
                        ),
                        outdated: if changed {
                            outdated_after_write(old(self)@, cc, on_boundary(i, j, k))
                        } else {
                            old(self)@.outdated
                        },
                        ..old(self)@
                    })
                } else {
                    !changed && final(self)@ == old(self)@
                }
            }),
    {
        let cc = chunk_containing(pos[0], pos[1], pos[2]);
        let (i, j, k) = (world_to_local(pos[0]), world_to_local(pos[1]), world_to_local(pos[2]));
        let ghost n = cell_index(i as int, j as int, k as int);
        let current = match self.shared(&cc) {
            Some(a) => a,
            None => {
                return false;
            },
        };
        proof {
            self.lemma_view(cc);
        }
        let mut updated = current.snapshot();
        let changed = updated.set_block((i, j, k), block);
        let kk = key(&cc);
        self.chunk_map.insert(kk, Arc::new(updated));
        if changed && self.queued_meshes.contains(&kk) {
            self.outdated_meshes.insert(kk);
        }
        proof {
            lemma_keyed_insert(old(self).outdated_meshes@, cc);
            assert(self@.outdated =~= Set::new(
                |c: ChunkCoord| old(self)@.outdated.contains(c) || (old(self)@.queued_meshes.contains(c) && changed && c == cc),
            ));
            assert forall|x: ChunkCoord| true implies (#[trigger] self@.chunks.contains_key(x)
                == old(self)@.chunks.contains_key(x)) by {
                lemma_key_injective(x, cc);
                old(self).lemma_view(x);
            }
            assert forall|x: ChunkCoord| #[trigger] self@.chunks.contains_key(x) implies self@.chunks[x]
                == old(self)@.chunks.insert(cc, write_result(old(self)@.chunks[cc], n, block))[x] by {
                lemma_key_injective(x, cc);
            }
            assert(self@.chunks =~= old(self)@.chunks.insert(cc, write_result(old(self)@.chunks[cc], n, block)));
            assert forall|k2: u128| #[trigger] self.mesh_map@.contains(k2) implies self.chunk_map@.contains_key(k2)
                && within(self.center, self.chunk_map@[k2]@.coord, self.render_distance as int) by {
                assert(old(self).mesh_map@.contains(k2));
            }
        }
        let ghost written = self@;
        let boundary = i == 0 || i == 31 || j == 0 || j == 31 || k == 0 || k == 31;
        if changed && boundary {
            let ns = cc.neighbors();
            let mut f: usize = 0;
            assert(self@.outdated =~= Set::new(
                |c: ChunkCoord| written.outdated.contains(c) || (written.queued_meshes.contains(c) && adjacent_before(cc, c, 0)),
            ));
            assert(self@.chunks =~= Map::new(
                |c: ChunkCoord| written.chunks.contains_key(c),
                |c: ChunkCoord|
                    if adjacent_before(cc, c, 0) {
                        ChunkView { dirty: true, ..written.chunks[c] }
                    } else {
                        written.chunks[c]
                    },
            ));
            while f < 6
                invariant
                    0 <= f <= 6,
                    self.wf(),
                    interior(cc),
                    forall|g: int| 0 <= g < 6 ==> #[trigger] ns[g] == step(cc, g),
                    self@ == (LoaderView {
                        chunks: Map::new(
                            |c: ChunkCoord| written.chunks.contains_key(c),
                            |c: ChunkCoord|
                                if adjacent_before(cc, c, f as int) {
                                    ChunkView { dirty: true, ..written.chunks[c] }
                                } else {
                                    written.chunks[c]
                                },
                        ),
                        outdated: Set::new(
                            |c: ChunkCoord| written.outdated.contains(c) || (written.queued_meshes.contains(c)
                                && adjacent_before(cc, c, f as int)),
                        ),
                        ..written
                    }),
                decreases 6 - f,
            {
                self.mark_dirty(ns[f]);
                let ghost before = self.outdated_meshes@;
                let kn = key(&ns[f]);
                if self.queued_meshes.contains(&kn) {
                    self.outdated_meshes.insert(kn);
                }
                proof {
                    lemma_keyed_insert(before, ns[f as int]);
                    assert forall|x: ChunkCoord| true implies #[trigger] adjacent_before(cc, x, f + 1)
                        == (adjacent_before(cc, x, f as int) || x == step(cc, f as int)) by {
                        if adjacent_before(cc, x, f + 1) && !adjacent_before(cc, x, f as int) {
                            let g = choose|g: int| 0 <= g < f + 1 && step(cc, g) == x;
                            assert(g == f);
                        }
                        if x == step(cc, f as int) {
                            assert(0 <= f < f + 1 && step(cc, f as int) == x);
                        }
                    }
                    assert(self@.outdated =~= Set::new(
                        |c: ChunkCoord| written.outdated.contains(c) || (written.queued_meshes.contains(c)
                            && adjacent_before(cc, c, f + 1)),
                    ));
                    assert(self@.chunks =~= Map::new(
                        |c: ChunkCoord| written.chunks.contains_key(c),
                        |c: ChunkCoord|
                            if adjacent_before(cc, c, f + 1) {
                                ChunkView { dirty: true, ..written.chunks[c] }
                            } else {
                                written.chunks[c]
                            },
                    ));
                }
                f = f + 1;
            }
        }
        proof {
            assert forall|x: ChunkCoord| true implies #[trigger] adjacent_before(cc, x, 6) == adjacent(cc, x) by {
                lemma_adjacent(cc, x);
            }
            assert(!adjacent_before(cc, cc, 6)) by {
                lemma_adjacent(cc, cc);
            }
            let expected = Map::new(
                |c: ChunkCoord| old(self)@.chunks.contains_key(c),
                |c: ChunkCoord|
                    if c == cc {
                        write_result(old(self)@.chunks[cc], n, block)
                    } else if changed && on_boundary(i as int, j as int, k as int) && adjacent(cc, c) {
                        ChunkView { dirty: true, ..old(self)@.chunks[c] }
                    } else {
                        old(self)@.chunks[c]
                    },
            );
            assert(self@.chunks =~= expected);
            if changed {
                assert(self@.outdated =~= outdated_after_write(old(self)@, cc, on_boundary(i as int, j as int, k as int)));
            }
        }
        changed
    }

    /// The number of stored chunks.
    pub fn get_number_of_loaded_chunks(&self) -> (r: usize)
        requires
            self.wf(),
        ensures
            r == self@.chunks.dom().len(),
    {
        proof {
            let f = |k: u128| self.chunk_map@[k]@.coord;
            assert forall|k1: u128, k2: u128|
                self.chunk_map@.dom().contains(k1) && self.chunk_map@.dom().contains(k2) && #[trigger] f(k1)
                    == #[trigger] f(k2) implies k1 == k2 by {}
            assert(self.chunk_map@.dom().map(f) =~= self@.chunks.dom()) by {
                assert forall|c: ChunkCoord| #[trigger] self@.chunks.dom().contains(c) implies self.chunk_map@.dom().map(f).contains(c) by {
                    self.lemma_view(c);
                    assert(f(key_of(c)) == c);
                }
            }
            vstd::set_lib::lemma_map_size(self.chunk_map@.dom(), self@.chunks.dom(), f);
        }
        self.chunk_map.len()
    }

    /// The number of built meshes.
    pub fn get_number_of_loaded_meshes(&self) -> (r: usize)
        requires
            self.wf(),
        ensures
            r == self@.meshed.len(),
    {
        proof {
            let f = |k: u128| self.chunk_map@[k]@.coord;
            assert forall|k1: u128, k2: u128|
                self.mesh_map@.contains(k1) && self.mesh_map@.contains(k2) && #[trigger] f(k1)
                    == #[trigger] f(k2) implies k1 == k2 by {}
            assert(self.mesh_map@.map(f) =~= self@.meshed) by {
                assert forall|c: ChunkCoord| #[trigger] self@.meshed.contains(c) implies self.mesh_map@.map(f).contains(c) by {
                    self.lemma_view(c);
                    assert(f(key_of(c)) == c);
                }
            }
            assert(self.mesh_map@.subset_of(self.chunk_map@.dom()));
            vstd::set_lib::lemma_set_subset_finite(self.chunk_map@.dom(), self.mesh_map@);
            vstd::set_lib::lemma_map_size(self.mesh_map@, self@.meshed, f);
        }
        self.mesh_map.len()
    }

    /// Takes in generated chunks, in order.
    fn take_generated(&mut self, generated: Vec<Chunk>)
        requires
            old(self).wf(),
            forall|i: int| 0 <= i < generated@.len() ==> (#[trigger] generated@[i]).wf(),
        ensures
            final(self).wf(),
            final(self)@ == after_inserts(old(self)@, chunk_views(generated@)),
            final(self)@.center == old(self)@.center,
            final(self)@.load_distance == old(self)@.load_distance,
            final(self)@.render_distance == old(self)@.render_distance,
            final(self)@.meshed == old(self)@.meshed,
            final(self)@.queued_meshes == old(self)@.queued_meshes,
    {
        let ghost s1 = self@;
        let ghost all = generated@;
        let ghost views = chunk_views(generated@);
        let mut generated = generated;
        let ghost mut k: int = 0;
        while generated.len() > 0
            invariant
                self.wf(),
                0 <= k <= all.len(),
                generated@ == all.subrange(k, all.len() as int),
                forall|i: int| 0 <= i < all.len() ==> (#[trigger] all[i]).wf(),
                views == chunk_views(all),
                self@ == after_inserts(s1, views.take(k)),
                self@.center == s1.center,
                self@.load_distance == s1.load_distance,
                self@.render_distance == s1.render_distance,
                self@.meshed == s1.meshed,
                self@.queued_meshes == s1.queued_meshes,
            decreases generated@.len(),
        {
            let chunk = generated.remove(0);
            assert(chunk == all[k]);
            self.insert_generated(chunk);
            proof {
                assert(views.take(k + 1).drop_last() =~= views.take(k));
                assert(views.take(k + 1).last() == chunk@);
                k = k + 1;
                assert(generated@ =~= all.subrange(k, all.len() as int));
            }
        }
        proof {
            assert(views.take(k) =~= views);
        }
    }

    /// Takes back finished mesh builds, in order; says for each whether it
    /// was accepted.
    fn take_finished(&mut self, finished: &Vec<(ChunkCoord, bool)>) -> (accepted: Vec<bool>)
        requires
            old(self).wf(),
        ensures
            final(self).wf(),
            final(self)@ == after_finishes(old(self)@, finished@),
            accepted@.len() == finished@.len(),
            forall|a: int|
                0 <= a < finished@.len() ==> accepted@[a] == accepts(
                    after_finishes(old(self)@, finished@.take(a)),
                    #[trigger] finished@[a].0,
                    finished@[a].1,
                ),
            final(self)@.center == old(self)@.center,
            final(self)@.load_distance == old(self)@.load_distance,
            final(self)@.render_distance == old(self)@.render_distance,
            forall|c: ChunkCoord|
                old(self)@.queued_meshes.contains(c) && !final(self)@.queued_meshes.contains(c) ==> reported(
                    finished@,
                    c,
                ),
    {
        let ghost s2 = self@;
        let mut accepted: Vec<bool> = Vec::new();
        let mut i: usize = 0;
        while i < finished.len()
            invariant
                0 <= i <= finished@.len(),
                accepted@.len() == i,
                self.wf(),
                self@ == after_finishes(s2, finished@.take(i as int)),
                forall|a: int|
                    0 <= a < i ==> accepted@[a] == accepts(
                        after_finishes(s2, finished@.take(a)),
                        #[trigger] finished@[a].0,
                        finished@[a].1,
                    ),
                self@.center == s2.center,
                self@.load_distance == s2.load_distance,
                self@.render_distance == s2.render_distance,
                forall|c: ChunkCoord|
                    s2.queued_meshes.contains(c) && !self@.queued_meshes.contains(c) ==> exists|a: int|
                        0 <= a < i && (#[trigger] finished@[a]).0 == c,
            decreases finished@.len() - i,
        {
            let (c, built) = finished[i];
            let ok = self.finish_mesh(c, built);
            accepted.push(ok);
            proof {
                assert forall|x: ChunkCoord|
                    s2.queued_meshes.contains(x) && !self@.queued_meshes.contains(x) implies exists|a: int|
                        0 <= a < i + 1 && (#[trigger] finished@[a]).0 == x by {
                    if x == c {
                        assert(finished@[i as int].0 == x);
                    }
                }
                assert(finished@.take(i + 1).drop_last() =~= finished@.take(i as int));
                assert(finished@.take(i + 1).last() == finished@[i as int]);
            }
            i = i + 1;
        }
        proof {
            assert(finished@.take(i as int) =~= finished@);
            assert forall|c: ChunkCoord|
                s2.queued_meshes.contains(c) && !self@.queued_meshes.contains(c) implies reported(finished@, c) by {
                let a = choose|a: int| 0 <= a < i && (#[trigger] finished@[a]).0 == c;
            }
        }
        accepted
    }

    /// Whether some report in `reports` is for `c`.
    fn is_reported(reports: &Vec<(ChunkCoord, bool)>, c: &ChunkCoord) -> (r: bool)
        ensures
            r == reported(reports@, *c),
    {
        let mut a: usize = 0;
        while a < reports.len()
            invariant
                0 <= a <= reports@.len(),
                forall|b: int| 0 <= b < a ==> (#[trigger] reports@[b]).0 != *c,
            decreases reports@.len() - a,
        {
            if reports[a].0 == *c {
                assert(reports@[a as int].0 == *c);
                return true;
            }
            a = a + 1;
        }
        false
    }

    /// Dispatches every candidate that is ready and has no report in
    /// `reports`, in order.
    fn dispatch_all(&mut self, candidates: &Vec<ChunkCoord>, reports: &Vec<(ChunkCoord, bool)>) -> (jobs: Vec<MeshJob>)
        requires
            old(self).wf(),
            candidates@.no_duplicates(),
            forall|a: int| 0 <= a < candidates@.len() ==> mesh_candidate(old(self)@, #[trigger] candidates@[a]),
        ensures
            final(self).wf(),
            final(self)@ == after_dispatch(old(self)@, job_targets(jobs@)),
            forall|a: int|
                0 <= a < jobs@.len() ==> job_fits(old(self)@, #[trigger] jobs@[a]) && !reported(
                    reports@,
                    jobs@[a].target(),
                ),
            forall|c: ChunkCoord|
                #[trigger] candidates@.contains(c) && ready(old(self)@, c) && !reported(reports@, c) ==> exists|a: int|
                    0 <= a < jobs@.len() && (#[trigger] jobs@[a]).target() == c,
    {
        let ghost base = self@;
        let mut jobs: Vec<MeshJob> = Vec::new();
        let mut j: usize = 0;
        proof {
            assert(after_dispatch(base, job_targets(jobs@)) =~= base) by {
                assert(job_targets(jobs@) =~= Set::<ChunkCoord>::empty());
                assert(base.queued_meshes.union(Set::<ChunkCoord>::empty()) =~= base.queued_meshes);
                assert(base.outdated.difference(Set::<ChunkCoord>::empty()) =~= base.outdated);
            }
        }
        while j < candidates.len()
            invariant
                0 <= j <= candidates@.len(),
                self.wf(),
                base == old(self)@,
                candidates@.no_duplicates(),
                forall|a: int| 0 <= a < candidates@.len() ==> mesh_candidate(base, #[trigger] candidates@[a]),
                self@ == after_dispatch(base, job_targets(jobs@)),
                forall|a: int|
                    0 <= a < jobs@.len() ==> job_fits(base, #[trigger] jobs@[a]) && !reported(reports@, jobs@[a].target())
                        && listed(candidates@, j as int, jobs@[a].target()),
                forall|c: ChunkCoord|
                    #[trigger] listed(candidates@, j as int, c) && ready(base, c) && !reported(reports@, c) ==> exists|a: int|
                        0 <= a < jobs@.len() && (#[trigger] jobs@[a]).target() == c,
            decreases candidates@.len() - j,
        {
            let c = candidates[j];
            proof {
                assert forall|x: ChunkCoord| #[trigger]
                    listed(candidates@, j + 1, x) == (listed(candidates@, j as int, x) || x == c) by {
                    lemma_listed_step(candidates@, j as int, x);
                }
                assert(!listed(candidates@, j as int, c));
                assert(!job_targets(jobs@).contains(c));
                assert(self@.chunks == base.chunks);
                assert(ready(self@, c) == ready(base, c));
            }
            let ghost before = jobs@;
            if !Self::is_reported(reports, &c) {
                match self.dispatch(c) {
                    Some(job) => {
                        jobs.push(job);
                        proof {
                            assert(jobs@[before.len() as int].target() == c);
                            assert(job_targets(jobs@) =~= job_targets(before).insert(c)) by {
                                assert forall|x: ChunkCoord| job_targets(before).insert(c).contains(x) implies job_targets(jobs@).contains(x) by {
                                    if x != c {
                                        let a = choose|a: int| 0 <= a < before.len() && before[a].target() == x;
                                        assert(jobs@[a] == before[a]);
                                    }
                                }
                                assert forall|x: ChunkCoord| job_targets(jobs@).contains(x) implies job_targets(before).insert(c).contains(x) by {
                                    let a = choose|a: int| 0 <= a < jobs@.len() && jobs@[a].target() == x;
                                    if a < before.len() {
                                        assert(jobs@[a] == before[a]);
                                    }
                                }
                            }
                            assert(self@.queued_meshes =~= base.queued_meshes.union(job_targets(jobs@)));
                            assert(self@.outdated =~= base.outdated.difference(job_targets(jobs@)));
                            assert(self@ == after_dispatch(base, job_targets(jobs@)));
                            assert forall|a: int| 0 <= a < jobs@.len() implies job_fits(base, #[trigger] jobs@[a])
                                && !reported(reports@, jobs@[a].target()) && listed(candidates@, j + 1, jobs@[a].target()) by {
                                if a < before.len() {
                                    assert(jobs@[a] == before[a]);
                                }
                            }
                            assert forall|x: ChunkCoord|
                                #[trigger] listed(candidates@, j + 1, x) && ready(base, x) && !reported(reports@, x) implies exists|a: int|
                                    0 <= a < jobs@.len() && (#[trigger] jobs@[a]).target() == x by {
                                if x == c {
                                    assert(jobs@[before.len() as int].target() == x);
                                } else {
                                    let a = choose|a: int| 0 <= a < before.len() && (#[trigger] before[a]).target() == x;
                                    assert(jobs@[a] == before[a]);
                                }
                            }
                        }
                    },
                    None => {},
                }
            }
            j = j + 1;
        }
        proof {
            assert forall|c: ChunkCoord|
                #[trigger] candidates@.contains(c) && ready(base, c) && !reported(reports@, c) implies exists|a: int|
                    0 <= a < jobs@.len() && (#[trigger] jobs@[a]).target() == c by {
                let a0 = choose|a: int| 0 <= a < candidates@.len() && candidates@[a] == c;
                assert(listed(candidates@, candidates@.len() as int, c));
            }
        }
        jobs
    }

    /// One tick of streaming around `viewpoint`, in the order: evict what
    /// lies too far, take in the generated chunks and the finished mesh
    /// builds, then plan generation and dispatch meshing. A coordinate that
    /// was in flight when the tick began gets no new job in it: one still in
    /// flight is not ready, and one whose build came back this tick is left
    /// for the next. The plan's jobs are in flight already. The caller
    /// queues what the plan asks for: it records a queued coordinate with
    /// `mark_generation_queued`, and takes a job it could not hand over back
    /// out of flight with `finish_mesh` and `built` false.
    pub fn update(
        &mut self,
        viewpoint: ChunkCoord,
        generated: Vec<Chunk>,
        finished: &Vec<(ChunkCoord, bool)>,
    ) -> (r: TickPlan)
        requires
            old(self).wf(),
            bounded(viewpoint),
            forall|i: int| 0 <= i < generated@.len() ==> (#[trigger] generated@[i]).wf(),
        ensures
            final(self).wf(),
            final(self)@ == after_dispatch(
                after_selection(after_intake(old(self)@, viewpoint, chunk_views(generated@), finished@)),
                job_targets(r.mesh_jobs@),
            ),
            forall|i: int|
                0 <= i < finished@.len() ==> r.accepted@[i] == accepts(
                    after_finishes(
                        after_inserts(after_retarget(old(self)@, viewpoint), chunk_views(generated@)),
                        finished@.take(i),
                    ),
                    #[trigger] finished@[i].0,
                    finished@[i].1,
                ),
            final(self)@.center == viewpoint,
            final(self)@.load_distance == old(self)@.load_distance,
            final(self)@.render_distance == old(self)@.render_distance,
            forall|c: ChunkCoord| #[trigger] final(self)@.chunks.contains_key(c) ==> within(viewpoint, c, final(self)@.load_distance),
            forall|c: ChunkCoord| #[trigger] final(self)@.meshed.contains(c) ==> within(viewpoint, c, final(self)@.render_distance),
            forall|c: ChunkCoord| #[trigger] r.evicted@.contains(c) <==> old(self)@.meshed.contains(c) && !within(
                viewpoint,
                c,
                old(self)@.render_distance,
            ),
            r.accepted@.len() == finished@.len(),
            forall|i: int|
                0 <= i < r.to_generate@.len() ==> within(viewpoint, #[trigger] r.to_generate@[i], final(self)@.load_distance)
                    && !final(self)@.chunks.contains_key(r.to_generate@[i]) && !final(self)@.queued_chunks.contains(r.to_generate@[i]),
            forall|c: ChunkCoord|
                within(viewpoint, c, final(self)@.load_distance) && !final(self)@.chunks.contains_key(c)
                    && !final(self)@.queued_chunks.contains(c) ==> #[trigger] r.to_generate@.contains(c),
            forall|i: int|
                0 <= i < r.mesh_jobs@.len() ==> job_fits(
                    after_selection(after_intake(old(self)@, viewpoint, chunk_views(generated@), finished@)),
                    #[trigger] r.mesh_jobs@[i],
                ),
            forall|i: int|
                0 <= i < r.mesh_jobs@.len() ==> !old(self)@.queued_meshes.contains(#[trigger] r.mesh_jobs@[i].target()),
            forall|c: ChunkCoord|
                mesh_candidate(after_selection(after_intake(old(self)@, viewpoint, chunk_views(generated@), finished@)), c)
                    && ready(after_selection(after_intake(old(self)@, viewpoint, chunk_views(generated@), finished@)), c)
                    && !reported(finished@, c) ==> exists|i: int|
                    0 <= i < r.mesh_jobs@.len() && (#[trigger] r.mesh_jobs@[i]).target() == c,
    {
        let evicted = self.retarget(viewpoint);
        self.take_generated(generated);
        let accepted = self.take_finished(finished);
        let to_generate = self.chunks_to_generate();
        let candidates = self.mesh_candidates();
        let ghost planned = self@;
        let mesh_jobs = self.dispatch_all(&candidates, finished);
        let plan = TickPlan { evicted, accepted, to_generate, mesh_jobs };
        proof {
            assert forall|c: ChunkCoord|
                mesh_candidate(planned, c) && ready(planned, c) && !reported(finished@, c) implies exists|i: int|
                0 <= i < plan.mesh_jobs@.len() && (#[trigger] plan.mesh_jobs@[i]).target() == c by {
                assert(candidates@.contains(c));
                let a = choose|a: int| 0 <= a < plan.mesh_jobs@.len() && (#[trigger] plan.mesh_jobs@[a]).target() == c;
            }
            assert forall|i: int| 0 <= i < plan.mesh_jobs@.len() implies !old(self)@.queued_meshes.contains(
                #[trigger] plan.mesh_jobs@[i].target(),
            ) by {
                let t = plan.mesh_jobs@[i].target();
                assert(job_fits(planned, plan.mesh_jobs@[i]));
                assert(!planned.queued_meshes.contains(t));
                assert(!reported(finished@, t));
            }
            assert forall|c: ChunkCoord| #[trigger] self@.chunks.contains_key(c) implies within(viewpoint, c, self@.load_distance) by {
                self.lemma_view(c);
            }
            assert forall|c: ChunkCoord| #[trigger] self@.meshed.contains(c) implies within(viewpoint, c, self@.render_distance) by {
                self.lemma_view(c);
            }
        }
        plan
    }
}

/// What one tick asks of the caller.
pub struct TickPlan {
    /// Coordinates whose meshes were dropped.
    pub evicted: Vec<ChunkCoord>,
    /// For each finished build handed in, whether its mesh was accepted.
    pub accepted: Vec<bool>,
    /// Coordinates to queue for generation.
    pub to_generate: Vec<ChunkCoord>,
    /// Mesh builds to queue.
    pub mesh_jobs: Vec<MeshJob>,
}

/// Some report in `fs` is for `c`.
pub open spec fn reported(fs: Seq<(ChunkCoord, bool)>, c: ChunkCoord) -> bool {
    exists|a: int| 0 <= a < fs.len() && (#[trigger] fs[a]).0 == c
}

/// The coordinates that the jobs `js` are for.
pub open spec fn job_targets(js: Seq<MeshJob>) -> Set<ChunkCoord> {
    Set::new(|c: ChunkCoord| exists|a: int| 0 <= a < js.len() && (#[trigger] js[a]).target() == c)
}

/// The store after dispatching jobs for the coordinates `t`: they are in
/// flight and up to date.
pub open spec fn after_dispatch(v: LoaderView, t: Set<ChunkCoord>) -> LoaderView {
    LoaderView { queued_meshes: v.queued_meshes.union(t), outdated: v.outdated.difference(t), ..v }
}

/// Chunk `c` can be handed to meshing: not already queued, and all six
/// face neighbours stored.
pub open spec fn ready(v: LoaderView, c: ChunkCoord) -> bool {
    &&& !v.queued_meshes.contains(c)
    &&& forall|f: int| 0 <= f < 6 ==> v.chunks.contains_key(#[trigger] step(c, f))
}

/// A mesh job for a candidate of the store, taken when it was ready, with
/// the stored chunk and its stored neighbours.
pub open spec fn job_fits(v: LoaderView, j: MeshJob) -> bool {
    &&& j.wf()
    &&& mesh_candidate(v, j.target())
    &&& ready(v, j.target())
    &&& j.center() == v.chunks[j.target()]
    &&& forall|f: int| 0 <= f < 6 ==> #[trigger] j.neighbor(f) == v.chunks[step(j.target(), f)]
}

/// Eviction containment: in every store the operations leave behind, no
/// chunk lies beyond load distance of the viewpoint, no mesh beyond render
/// distance, and every mesh belongs to a stored chunk.
pub proof fn lemma_eviction_containment(l: ChunkLoader)
    requires
        l.wf(),
    ensures
        0 <= l@.render_distance <= l@.load_distance,
        forall|c: ChunkCoord| #[trigger] l@.chunks.contains_key(c) ==> l@.chunks[c].valid(),
        forall|c: ChunkCoord| #[trigger] l@.chunks.contains_key(c) ==> within(l@.center, c, l@.load_distance),
        forall|c: ChunkCoord| #[trigger] l@.meshed.contains(c) ==> l@.chunks.contains_key(c) && within(l@.center, c, l@.render_distance),
{
    assert forall|c: ChunkCoord| #[trigger] l@.chunks.contains_key(c) implies within(l@.center, c, l@.load_distance)
        && l@.chunks[c].valid() by {
        l.lemma_view(c);
        l.chunk_map@[key_of(c)].lemma_valid();
    }
    assert forall|c: ChunkCoord| #[trigger] l@.meshed.contains(c) implies l@.chunks.contains_key(c) && within(l@.center, c, l@.render_distance) by {
        l.lemma_view(c);
    }
}

/// A finished build is taken only for a coordinate in flight. Only
/// `dispatch` puts a coordinate in flight, and only when all six of its
/// neighbours are stored, handing out the job built from them. So every
/// installed mesh was built against a complete neighbourhood.
pub proof fn lemma_accepted_was_in_flight(v: LoaderView, c: ChunkCoord, built: bool)
    requires
        accepts(v, c, built),
    ensures
        v.queued_meshes.contains(c),
        v.chunks.contains_key(c),
{
}

/// Neighbour completeness: a mesh job is only ever handed out for a chunk
/// whose six face neighbours are all stored at that moment.
pub proof fn lemma_job_needs_neighbors(v: LoaderView, j: MeshJob)
    requires
        job_fits(v, j),
    ensures
        forall|f: int| 0 <= f < 6 ==> v.chunks.contains_key(#[trigger] step(j.target(), f)),
{
}

/// The store after moving the viewpoint to `p`: chunks beyond load
/// distance and meshes beyond render distance are gone.
pub open spec fn after_retarget(v: LoaderView, p: ChunkCoord) -> LoaderView {
    LoaderView {
        chunks: v.chunks.restrict(Set::new(|c: ChunkCoord| within(p, c, v.load_distance))),
        meshed: v.meshed.filter(|c: ChunkCoord| within(p, c, v.render_distance)),
        center: p,
        ..v
    }
}

/// A generated chunk is kept when it lies within load distance.
pub open spec fn stores(v: LoaderView, ch: ChunkView) -> bool {
    within(v.center, ch.coord, v.load_distance)
}

/// The store after taking in the generated chunk `ch`. A chunk that
/// replaces one in flight for meshing makes that build stale.
pub open spec fn after_insert(v: LoaderView, ch: ChunkView) -> LoaderView {
    LoaderView {
        chunks: if stores(v, ch) {
            v.chunks.insert(ch.coord, ch)
        } else {
            v.chunks
        },
        queued_chunks: v.queued_chunks.remove(ch.coord),
        outdated: if stores(v, ch) && v.queued_meshes.contains(ch.coord) {
            v.outdated.insert(ch.coord)
        } else {
            v.outdated
        },
        ..v
    }
}

/// The store after taking in the generated chunks `chs`, in order.
pub open spec fn after_inserts(v: LoaderView, chs: Seq<ChunkView>) -> LoaderView
    decreases chs.len(),
{
    if chs.len() == 0 {
        v
    } else {
        after_insert(after_inserts(v, chs.drop_last()), chs.last())
    }
}

/// A finished build of `c` is consumed when `c` is in flight, the build
/// succeeded and `c` is still stored.
pub open spec fn consumes(v: LoaderView, c: ChunkCoord, built: bool) -> bool {
    v.queued_meshes.contains(c) && built && v.chunks.contains_key(c)
}

/// A consumed build's mesh is kept when `c` lies within render distance.
pub open spec fn accepts(v: LoaderView, c: ChunkCoord, built: bool) -> bool {
    consumes(v, c, built) && within(v.center, c, v.render_distance)
}

/// The store after taking back the finished build of `c`.
pub open spec fn after_finish(v: LoaderView, c: ChunkCoord, built: bool) -> LoaderView {
    LoaderView {
        chunks: if consumes(v, c, built) && !v.outdated.contains(c) {
            v.chunks.insert(c, ChunkView { dirty: false, ..v.chunks[c] })
        } else {
            v.chunks
        },
        meshed: if accepts(v, c, built) {
            v.meshed.insert(c)
        } else {
            v.meshed
        },
        queued_meshes: v.queued_meshes.remove(c),
        outdated: v.outdated.remove(c),
        ..v
    }
}

/// The store after taking back the finished builds `fs`, in order.
pub open spec fn after_finishes(v: LoaderView, fs: Seq<(ChunkCoord, bool)>) -> LoaderView
    decreases fs.len(),
{
    if fs.len() == 0 {
        v
    } else {
        after_finish(after_finishes(v, fs.drop_last()), fs.last().0, fs.last().1)
    }
}

/// The store after mesh selection: chunks due for their first build are
/// marked stale.
pub open spec fn after_selection(v: LoaderView) -> LoaderView {
    LoaderView {
        chunks: Map::new(
            |c: ChunkCoord| v.chunks.contains_key(c),
            |c: ChunkCoord|
                if first_build(v, c) {
                    ChunkView { dirty: true, ..v.chunks[c] }
                } else {
                    v.chunks[c]
                },
        ),
        ..v
    }
}

/// The views of a sequence of chunks.
pub open spec fn chunk_views(chs: Seq<Chunk>) -> Seq<ChunkView> {
    chs.map_values(|ch: Chunk| ch@)
}

/// The store in which a tick's intake leaves: evicted, then the generated
/// chunks and the finished builds taken in.
pub open spec fn after_intake(
    v: LoaderView,
    p: ChunkCoord,
    chs: Seq<ChunkView>,
    fs: Seq<(ChunkCoord, bool)>,
) -> LoaderView {
    after_finishes(after_inserts(after_retarget(v, p), chs), fs)
}

/// Chunk `c` is stored, non-empty, within render distance and has no mesh:
/// its first build is due.
pub open spec fn first_build(v: LoaderView, c: ChunkCoord) -> bool {
    &&& v.chunks.contains_key(c)
    &&& v.chunks[c].blocks is Some
    &&& within(v.center, c, v.render_distance)
    &&& !v.meshed.contains(c)
}

/// Chunk `c` is to be meshed: stored, non-empty, within render distance,
/// and without a mesh or with a stale one.
pub open spec fn mesh_candidate(v: LoaderView, c: ChunkCoord) -> bool {
    &&& v.chunks.contains_key(c)
    &&& v.chunks[c].blocks is Some
    &&& within(v.center, c, v.render_distance)
    &&& (!v.meshed.contains(c) || v.chunks[c].dirty)
}

/// The chunk holding world cell `pos`.
pub open spec fn chunk_at(pos: [i32; 3]) -> ChunkCoord {
    ChunkCoord {
        x: chunk_of(pos[0] as int) as i32,
        y: chunk_of(pos[1] as int) as i32,
        z: chunk_of(pos[2] as int) as i32,
    }
}

/// In-flight builds that a change of chunk `cc` makes stale: its own, and
/// with `spread` those of its face neighbours.
pub open spec fn outdated_after_write(v: LoaderView, cc: ChunkCoord, spread: bool) -> Set<ChunkCoord> {
    Set::new(
        |c: ChunkCoord| v.outdated.contains(c) || (v.queued_meshes.contains(c) && (c == cc || (spread && adjacent(cc, c))))
    )
}

/// Local cell `(i, j, k)` lies on a face of its chunk.
pub open spec fn on_boundary(i: int, j: int, k: int) -> bool {
    i == 0 || i == 31 || j == 0 || j == 31 || k == 0 || k == 31
}

/// `c` is a face neighbour of `a`.
pub open spec fn adjacent(a: ChunkCoord, c: ChunkCoord) -> bool {
    abs_diff(a.x as int, c.x as int) + abs_diff(a.y as int, c.y as int) + abs_diff(a.z as int, c.z as int) == 1
}

/// `c` is one of the first `f` face neighbours of `a`.
pub open spec fn adjacent_before(a: ChunkCoord, c: ChunkCoord, f: int) -> bool {
    exists|g: int| 0 <= g < f && step(a, g) == c
}

proof fn lemma_adjacent(a: ChunkCoord, c: ChunkCoord)
    requires
        interior(a),
    ensures
        adjacent_before(a, c, 6) == adjacent(a, c),
{
    if adjacent_before(a, c, 6) {
        let g = choose|g: int| 0 <= g < 6 && step(a, g) == c;
    }
    if adjacent(a, c) {
        let g = if c.x == a.x + 1 {
            0int
        } else if c.x == a.x - 1 {
            1int
        } else if c.y == a.y - 1 {
            2int
        } else if c.y == a.y + 1 {
            3int
        } else if c.z == a.z + 1 {
            4int
        } else {
            5int
        };
        assert(step(a, g) == c);
    }
}

proof fn lemma_keyed_insert(s: Set<u128>, c: ChunkCoord)
    ensures
        Set::new(|x: ChunkCoord| s.insert(key_of(c)).contains(key_of(x))) =~= Set::new(
            |x: ChunkCoord| s.contains(key_of(x)),
        ).insert(c),
{
    assert forall|x: ChunkCoord| true implies (#[trigger] s.insert(key_of(c)).contains(key_of(x))) == (s.contains(
        key_of(x),
    ) || x == c) by {
        lemma_key_injective(x, c);
    }
}

proof fn lemma_keyed_remove(s: Set<u128>, c: ChunkCoord)
    ensures
        Set::new(|x: ChunkCoord| s.remove(key_of(c)).contains(key_of(x))) =~= Set::new(
            |x: ChunkCoord| s.contains(key_of(x)),
        ).remove(c),
{
    assert forall|x: ChunkCoord| true implies (#[trigger] s.remove(key_of(c)).contains(key_of(x))) == (s.contains(
        key_of(x),
    ) && x != c) by {
        lemma_key_injective(x, c);
    }
}

/// `c` is among the first `n` entries of `s`.
pub open spec fn listed(s: Seq<ChunkCoord>, n: int, c: ChunkCoord) -> bool {
    exists|j: int| 0 <= j < n && s[j] == c
}

proof fn lemma_listed_step(s: Seq<ChunkCoord>, n: int, c: ChunkCoord)
    requires
        0 <= n < s.len(),
    ensures
        listed(s, n + 1, c) == (listed(s, n, c) || s[n] == c),
{
    if listed(s, n + 1, c) && !listed(s, n, c) {
        let j = choose|j: int| 0 <= j < n + 1 && s[j] == c;
        assert(j == n);
    }
}

} // verus!
