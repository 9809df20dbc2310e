use vixen::block::Block;
use vixen::chunk::{chunk_grid, Chunk};
use vixen::coord::{chunk_containing, in_distance, world_to_chunk, world_to_local, ChunkCoord};
use vixen::inventory::Inventory;
use vixen::storage::{compress_chunk_bytes, decompress_chunk_bytes};
use vixen::terrain::TerrainGenerator;

fn origin() -> ChunkCoord {
    ChunkCoord::new(0, 0, 0)
}

#[test]
fn coord_steps() {
    let c = ChunkCoord::new(1, -2, 3);
    assert_eq!(c.dx(1), ChunkCoord::new(2, -2, 3));
    assert_eq!(c.dy(-1), ChunkCoord::new(1, -3, 3));
    assert_eq!(c.dz(4), ChunkCoord::new(1, -2, 7));
    let n = c.neighbors();
    assert_eq!(n[0], ChunkCoord::new(2, -2, 3));
    assert_eq!(n[1], ChunkCoord::new(0, -2, 3));
    assert_eq!(n[2], ChunkCoord::new(1, -3, 3));
    assert_eq!(n[3], ChunkCoord::new(1, -1, 3));
    assert_eq!(n[4], ChunkCoord::new(1, -2, 4));
    assert_eq!(n[5], ChunkCoord::new(1, -2, 2));
}

#[test]
fn world_to_chunk_floors() {
    assert_eq!(world_to_chunk(0), 0);
    assert_eq!(world_to_chunk(31), 0);
    assert_eq!(world_to_chunk(32), 1);
    assert_eq!(world_to_chunk(-1), -1);
    assert_eq!(world_to_chunk(-32), -1);
    assert_eq!(world_to_chunk(-33), -2);
    assert_eq!(world_to_chunk(i32::MIN), -67108864);
    assert_eq!(world_to_local(-1), 31);
    assert_eq!(world_to_local(-32), 0);
    assert_eq!(world_to_local(70), 6);
    assert_eq!(chunk_containing(-1, 64, 5), ChunkCoord::new(-1, 2, 0));
}

#[test]
fn distance_is_per_axis() {
    let v = ChunkCoord::new(10, 0, -5);
    assert!(in_distance(&v, &ChunkCoord::new(12, -2, -3), 2));
    assert!(!in_distance(&v, &ChunkCoord::new(13, 0, -5), 2));
    assert!(!in_distance(&v, &ChunkCoord::new(10, 0, -8), 2));
    assert!(in_distance(&v, &v, 0));
}

#[test]
fn empty_chunk_reads_air() {
    let c = Chunk::empty(origin());
    assert!(c.is_empty());
    assert!(!c.needs_update());
    assert_eq!(c.get_block((3, 4, 5)), Some(Block::air()));
    let n = Chunk::new(origin());
    assert!(n.needs_update());
    assert!(n.get_data().is_none());
}

#[test]
fn first_write_allocates_and_marks() {
    let mut c = Chunk::empty(origin());
    let stone = Block::new(1, 0x40a0_0000);
    assert!(c.set_block((1, 2, 3), stone));
    assert!(!c.is_empty());
    assert!(c.needs_update());
    assert_eq!(c.get_block((1, 2, 3)), Some(stone));
    assert_eq!(c.get_block((3, 2, 1)), Some(Block::air()));
}

#[test]
fn writing_air_to_empty_chunk_is_no_change() {
    let mut c = Chunk::empty(origin());
    assert!(!c.set_block((0, 0, 0), Block::air()));
    assert!(!c.needs_update());
}

#[test]
fn idempotent_writes_mark_once() {
    let mut c = Chunk::empty(origin());
    let stone = Block::new(2, 0);
    assert!(c.set_block((7, 7, 7), stone));
    assert!(c.needs_update());
    c.set_updated();
    assert!(!c.needs_update());
    assert!(!c.set_block((7, 7, 7), stone));
    assert!(!c.needs_update());
    // A different health is a different value.
    assert!(c.set_block((7, 7, 7), Block::new(2, 1)));
    assert!(c.needs_update());
}

#[test]
fn request_update_sets_flag() {
    let mut c = Chunk::empty(origin());
    c.request_update();
    assert!(c.needs_update());
    c.set_updated();
    assert!(!c.needs_update());
}

#[test]
fn from_cells_keeps_row_major_order() {
    let mut cells = vec![Block::air(); 32768];
    cells[1 * 1024 + 2 * 32 + 3] = Block::new(9, 0);
    let c = Chunk::from_cells(ChunkCoord::new(4, 5, 6), &cells);
    assert_eq!(c.coord(), ChunkCoord::new(4, 5, 6));
    assert_eq!(c.get_block((1, 2, 3)), Some(Block::new(9, 0)));
    assert_eq!(c.get_block((3, 2, 1)), Some(Block::air()));
    assert!(c.needs_update());
    let s = c.snapshot();
    assert_eq!(s.get_block((1, 2, 3)), Some(Block::new(9, 0)));
}

fn flat_heights(h: i32) -> Vec<i32> {
    vec![h; 1024]
}

#[test]
fn generation_fills_below_surface() {
    let g = TerrainGenerator::new(7);
    assert_eq!(g.get_seed(), 7);
    let c = g.generate_chunk(ChunkCoord::new(0, 0, 0), &flat_heights(10));
    assert!(!c.is_empty());
    assert!(c.needs_update());
    assert_eq!(c.get_block((0, 9, 0)), Some(Block::new(1, 0x40a0_0000)));
    assert_eq!(c.get_block((5, 10, 5)), Some(Block::air()));
    // Column heights are indexed by (i, k).
    let mut heights = flat_heights(0);
    heights[3 * 32 + 4] = 2;
    let c = g.generate_chunk(ChunkCoord::new(0, 0, 0), &heights);
    assert_eq!(c.get_block((3, 1, 4)), Some(Block::new(1, 0x40a0_0000)));
    assert_eq!(c.get_block((4, 1, 3)), Some(Block::air()));
}

#[test]
fn generation_layer_offsets_heights() {
    let g = TerrainGenerator::new(0);
    let c = g.generate_chunk(ChunkCoord::new(0, -1, 0), &flat_heights(-20));
    assert_eq!(c.get_block((0, 11, 0)), Some(Block::new(1, 0x40a0_0000)));
    assert_eq!(c.get_block((0, 12, 0)), Some(Block::air()));
    let above = g.generate_chunk(ChunkCoord::new(0, 1, 0), &flat_heights(-20));
    assert!(above.is_empty());
}

#[test]
fn generation_outside_band_is_empty() {
    let g = TerrainGenerator::new(0);
    let c = g.generate_chunk(ChunkCoord::new(0, 5, 0), &flat_heights(1000));
    assert!(c.is_empty());
    assert!(c.needs_update());
    let c = g.generate_chunk(ChunkCoord::new(0, -5, 0), &flat_heights(1000));
    assert!(c.is_empty());
}

#[test]
fn generation_is_deterministic() {
    let g = TerrainGenerator::new(42);
    let mut heights = Vec::new();
    for n in 0..1024 {
        heights.push((n * 7 % 50) as i32 - 10);
    }
    let a = g.generate_chunk(ChunkCoord::new(2, 0, -3), &heights);
    let b = g.generate_chunk(ChunkCoord::new(2, 0, -3), &heights);
    for i in 0..32 {
        for j in 0..32 {
            for k in 0..32 {
                assert_eq!(a.get_block((i, j, k)), b.get_block((i, j, k)));
            }
        }
    }
}

#[test]
fn compression_round_trip() {
    let data: Vec<u8> = (0..2000u32).map(|n| (n % 13) as u8).collect();
    let packed = compress_chunk_bytes(&data);
    assert_ne!(packed, data);
    assert!(packed.len() < data.len());
    assert_eq!(decompress_chunk_bytes(&packed), Some(data));
}

#[test]
fn decompression_rejects_garbage() {
    assert_eq!(decompress_chunk_bytes(&vec![0xff, 0xff, 0xff, 0xff]), None);
}

#[test]
fn inventory_starts_empty() {
    let _inv = Inventory::new(9);
}


#[test]
fn from_data_takes_a_chunk_grid() {
    let mut cells = vec![Block::air(); 32768];
    cells[31 * 1024 + 31 * 32 + 31] = Block::new(5, 1);
    let c = Chunk::from_data(ChunkCoord::new(0, 1, 0), Box::new(chunk_grid(&cells)));
    assert_eq!(c.get_block((31, 31, 31)), Some(Block::new(5, 1)));
    assert_eq!(c.get_block((0, 0, 0)), Some(Block::air()));
    assert!(c.needs_update());
    assert!(c.get_data().is_some());
}
