use vixen::block::Block;
use vixen::chunk::Chunk;
use vixen::coord::ChunkCoord;
use vixen::mesh::Vertex;
use vixen::texture::TextureTable;

fn table() -> TextureTable {
    let mut t = TextureTable::new();
    t.insert(1, [10, 11, 12, 13, 14, 15]);
    t
}

fn solid_chunk(c: ChunkCoord) -> Chunk {
    Chunk::from_cells(c, &vec![Block::new(1, 0); 32768])
}

fn single_block(i: usize, j: usize, k: usize) -> Chunk {
    let mut c = Chunk::empty(ChunkCoord::new(0, 0, 0));
    c.set_block((i, j, k), Block::new(1, 0));
    c
}

#[test]
fn isolated_block_has_six_faces() {
    let center = single_block(5, 5, 5);
    let air: Vec<Chunk> = (0..6).map(|_| Chunk::empty(ChunkCoord::new(0, 0, 0))).collect();
    let n = [&air[0], &air[1], &air[2], &air[3], &air[4], &air[5]];
    let (v, i) = center.gen_mesh(n, &table());
    assert_eq!(v.len(), 24);
    assert_eq!(i.len(), 36);
    // +X face, first corner (1, 0, 0) of cell (5, 5, 5), normal (1, 0, 0).
    assert_eq!(v[0], Vertex { position: 6 | (5 << 6) | (5 << 12) | (1 << 18), atlas_cell: 10, corner: 0 });
    // -X face comes second and carries the sign bits of -1 from bit 18 up.
    assert_eq!(v[4].position, 5 | (5 << 6) | (6 << 12) | 0xfffc_0000);
    assert_eq!(v[4].atlas_cell, 11);
    assert_eq!(v[23].atlas_cell, 15);
    assert_eq!(&i[0..6], &[2, 1, 0, 0, 3, 2]);
    assert_eq!(&i[6..12], &[6, 5, 4, 4, 7, 6]);
    assert_eq!(i[35], 22);
}

#[test]
fn solid_neighborhood_has_no_surface() {
    let center = solid_chunk(ChunkCoord::new(0, 0, 0));
    let around: Vec<Chunk> = (0..6).map(|_| solid_chunk(ChunkCoord::new(0, 0, 0))).collect();
    let n = [&around[0], &around[1], &around[2], &around[3], &around[4], &around[5]];
    let (v, i) = center.gen_mesh(n, &table());
    assert!(v.is_empty());
    assert!(i.is_empty());
}

#[test]
fn solid_chunk_in_air_shows_its_shell() {
    let center = solid_chunk(ChunkCoord::new(0, 0, 0));
    let air: Vec<Chunk> = (0..6).map(|_| Chunk::empty(ChunkCoord::new(0, 0, 0))).collect();
    let n = [&air[0], &air[1], &air[2], &air[3], &air[4], &air[5]];
    let (v, i) = center.gen_mesh(n, &table());
    assert_eq!(v.len(), 6 * 32 * 32 * 4);
    assert_eq!(i.len(), 6 * 32 * 32 * 6);
}

#[test]
fn boundary_face_hidden_by_neighbor() {
    let center = single_block(31, 0, 0);
    let mut right = Chunk::empty(ChunkCoord::new(1, 0, 0));
    right.set_block((0, 0, 0), Block::new(1, 0));
    let air: Vec<Chunk> = (0..5).map(|_| Chunk::empty(ChunkCoord::new(0, 0, 0))).collect();
    let n = [&right, &air[0], &air[1], &air[2], &air[3], &air[4]];
    let (v, i) = center.gen_mesh(n, &table());
    assert_eq!(v.len(), 20);
    assert_eq!(i.len(), 30);
    // The first emitted face is now -X.
    assert_eq!(v[0].atlas_cell, 11);
    // A neighbour across another face does not hide the +X face.
    let n = [&air[0], &right, &air[1], &air[2], &air[3], &air[4]];
    let (v, _) = center.gen_mesh(n, &table());
    assert_eq!(v.len(), 24);
}

#[test]
fn empty_chunk_has_no_surface() {
    let center = Chunk::empty(ChunkCoord::new(0, 0, 0));
    let around: Vec<Chunk> = (0..6).map(|_| solid_chunk(ChunkCoord::new(0, 0, 0))).collect();
    let n = [&around[0], &around[1], &around[2], &around[3], &around[4], &around[5]];
    let (v, i) = center.gen_mesh(n, &table());
    assert!(v.is_empty() && i.is_empty());
}

#[test]
fn table_lookup_and_cover() {
    let t = table();
    assert_eq!(t.face_cell(1, 3), Some(13));
    assert_eq!(t.face_cell(1, 6), None);
    assert_eq!(t.face_cell(2, 0), None);
    assert!(t.covers(&single_block(1, 1, 1)));
    let mut c = Chunk::empty(ChunkCoord::new(0, 0, 0));
    c.set_block((0, 0, 0), Block::new(2, 0));
    assert!(!t.covers(&c));
}
