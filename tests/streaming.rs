use vixen::block::Block;
use vixen::chunk::Chunk;
use vixen::coord::ChunkCoord;
use vixen::frustum::Frustum;
use vixen::loader::ChunkLoader;
use vixen::texture::TextureTable;

fn c(x: i32, y: i32, z: i32) -> ChunkCoord {
    ChunkCoord::new(x, y, z)
}

fn stone_at(coord: ChunkCoord) -> Chunk {
    let mut ch = Chunk::new(coord);
    ch.set_block((0, 0, 0), Block::new(1, 0));
    ch
}

/// A store with render distance 1 and load distance 2 holding a 3x3x3 block
/// of chunks around the origin, minus `missing`.
fn block_store(missing: Option<ChunkCoord>) -> ChunkLoader {
    let mut l = ChunkLoader::with_distances(1, 2);
    let mut generated = Vec::new();
    for x in -1..=1 {
        for y in -1..=1 {
            for z in -1..=1 {
                if Some(c(x, y, z)) != missing {
                    generated.push(stone_at(c(x, y, z)));
                }
            }
        }
    }
    l.update(c(0, 0, 0), generated, &Vec::new());
    l
}

/// A store with render distance 1 and load distance 2 holding every chunk
/// within load distance of the origin.
fn wide_store() -> ChunkLoader {
    let mut l = ChunkLoader::with_distances(1, 2);
    let mut generated = Vec::new();
    for x in -2..=2 {
        for y in -2..=2 {
            for z in -2..=2 {
                generated.push(stone_at(c(x, y, z)));
            }
        }
    }
    l.update(c(0, 0, 0), generated, &Vec::new());
    l
}

fn queue(l: &mut ChunkLoader, coord: ChunkCoord) {
    // Already in flight when an earlier tick dispatched it.
    let _ = l.dispatch(coord);
    assert!(l.mesh_job(coord).is_none());
}

#[test]
fn new_store_is_empty() {
    let l = ChunkLoader::new();
    assert_eq!(l.get_number_of_loaded_chunks(), 0);
    assert_eq!(l.get_number_of_loaded_meshes(), 0);
    assert_eq!(l.get_block([0, 0, 0]), None);
}

#[test]
fn admission_lists_the_load_box() {
    let mut l = ChunkLoader::with_distances(1, 2);
    let plan = l.update(c(0, 0, 0), Vec::new(), &Vec::new());
    assert_eq!(plan.to_generate.len(), 125);
    assert!(plan.to_generate.contains(&c(2, -2, 1)));
    assert!(!plan.to_generate.contains(&c(3, 0, 0)));
    // Queued coordinates are not asked for again.
    l.mark_generation_queued(c(2, -2, 1));
    let plan = l.update(c(0, 0, 0), Vec::new(), &Vec::new());
    assert_eq!(plan.to_generate.len(), 124);
    assert!(!plan.to_generate.contains(&c(2, -2, 1)));
}

#[test]
fn generated_chunks_are_stored_and_dequeued() {
    let mut l = ChunkLoader::with_distances(1, 2);
    l.mark_generation_queued(c(1, 0, 0));
    assert!(l.insert_generated(stone_at(c(1, 0, 0))));
    assert_eq!(l.get_number_of_loaded_chunks(), 1);
    assert_eq!(l.get_block([32, 0, 0]), Some(Block::new(1, 0)));
    assert_eq!(l.get_block([33, 0, 0]), Some(Block::air()));
    // Beyond load distance a generated chunk is dropped.
    assert!(!l.insert_generated(stone_at(c(5, 0, 0))));
    assert_eq!(l.get_number_of_loaded_chunks(), 1);
    let plan = l.update(c(0, 0, 0), Vec::new(), &Vec::new());
    assert!(!plan.to_generate.contains(&c(1, 0, 0)));
    assert!(plan.to_generate.contains(&c(5 - 3, 0, 0)));
}

#[test]
fn center_waits_for_missing_neighbor() {
    let mut l = block_store(Some(c(1, 0, 0)));
    assert!(l.mesh_job(c(0, 0, 0)).is_none());
    let plan = l.update(c(0, 0, 0), Vec::new(), &Vec::new());
    assert!(plan.mesh_jobs.iter().all(|j| j.coord() != c(0, 0, 0)));
    // Once the neighbour arrives the centre is dispatched.
    let plan = l.update(c(0, 0, 0), vec![stone_at(c(1, 0, 0))], &Vec::new());
    assert!(plan.mesh_jobs.iter().any(|j| j.coord() == c(0, 0, 0)));
}

#[test]
fn mesh_cycle_clears_dirty_flag() {
    let mut l = block_store(None);
    // The first tick dispatched the centre; take that job back and dispatch
    // it again to hold the job here.
    l.finish_mesh(c(0, 0, 0), false);
    let job = l.dispatch(c(0, 0, 0)).expect("centre is ready");
    let mut t = TextureTable::new();
    t.insert(1, [0, 1, 2, 3, 4, 5]);
    let (v, i) = job.build(&t).expect("table covers the chunk");
    assert_eq!(v.len(), 24);
    assert_eq!(i.len(), 36);
    assert!(l.mesh_job(c(0, 0, 0)).is_none());
    let plan = l.update(c(0, 0, 0), Vec::new(), &vec![(c(0, 0, 0), true)]);
    assert_eq!(plan.accepted, vec![true]);
    assert_eq!(l.get_number_of_loaded_meshes(), 1);
    assert!(!l.get_chunk((0, 0, 0)).unwrap().needs_update());
    assert!(plan.mesh_jobs.iter().all(|j| j.coord() != c(0, 0, 0)));
    // A second report of the same build is ignored.
    let plan = l.update(c(0, 0, 0), Vec::new(), &vec![(c(0, 0, 0), true)]);
    assert_eq!(plan.accepted, vec![false]);
    // A write that changes nothing keeps the mesh.
    assert!(!l.set_block([0, 0, 0], Block::new(1, 0)));
    assert!(!l.get_chunk((0, 0, 0)).unwrap().needs_update());
    // A change on the boundary makes the chunk and its neighbours stale.
    assert!(l.set_block([0, 0, 0], Block::air()));
    assert!(l.get_chunk((0, 0, 0)).unwrap().needs_update());
    assert!(l.get_chunk((-1, 0, 0)).unwrap().needs_update());
    let plan = l.update(c(0, 0, 0), Vec::new(), &Vec::new());
    assert!(plan.mesh_jobs.iter().any(|j| j.coord() == c(0, 0, 0)));
}

#[test]
fn failed_build_is_not_accepted() {
    let mut l = block_store(None);
    queue(&mut l, c(0, 0, 0));
    let plan = l.update(c(0, 0, 0), Vec::new(), &vec![(c(0, 0, 0), false)]);
    assert_eq!(plan.accepted, vec![false]);
    assert_eq!(l.get_number_of_loaded_meshes(), 0);
    // Not sent again in the tick that took its build back.
    assert!(plan.mesh_jobs.iter().all(|j| j.coord() != c(0, 0, 0)));
    let plan = l.update(c(0, 0, 0), Vec::new(), &Vec::new());
    assert!(plan.mesh_jobs.iter().any(|j| j.coord() == c(0, 0, 0)));
}

#[test]
fn interior_write_leaves_neighbors() {
    let mut l = wide_store();
    queue(&mut l, c(1, 0, 0));
    l.update(c(0, 0, 0), Vec::new(), &vec![(c(1, 0, 0), true)]);
    assert!(!l.get_chunk((1, 0, 0)).unwrap().needs_update());
    assert!(l.set_block([5, 5, 5], Block::new(3, 0)));
    assert!(!l.get_chunk((1, 0, 0)).unwrap().needs_update());
    assert_eq!(l.get_block([5, 5, 5]), Some(Block::new(3, 0)));
}

#[test]
fn unloaded_cells_are_unknown() {
    let mut l = block_store(None);
    assert_eq!(l.get_block([200, 0, 0]), None);
    assert!(!l.set_block([200, 0, 0], Block::new(1, 0)));
    assert_eq!(l.get_block([-1, -1, -1]), Some(Block::air()));
    assert!(l.get_chunk((7, 0, 0)).is_none());
    assert!(l.get_chunk((-1, -1, -1)).is_some());
}

#[test]
fn eviction_follows_the_viewpoint() {
    let mut l = wide_store();
    queue(&mut l, c(0, 0, 0));
    queue(&mut l, c(-1, 0, 0));
    l.update(c(0, 0, 0), Vec::new(), &vec![(c(0, 0, 0), true), (c(-1, 0, 0), true)]);
    assert_eq!(l.get_number_of_loaded_meshes(), 2);
    // Two chunks along +X: (-1, 0, 0) leaves render distance but stays loaded.
    let plan = l.update(c(1, 0, 0), Vec::new(), &Vec::new());
    assert_eq!(plan.evicted, vec![c(-1, 0, 0)]);
    assert_eq!(l.get_number_of_loaded_meshes(), 1);
    assert_eq!(l.get_number_of_loaded_chunks(), 100);
    // Far away everything goes.
    let plan = l.update(c(10, 0, 0), Vec::new(), &Vec::new());
    assert_eq!(plan.evicted, vec![c(0, 0, 0)]);
    assert_eq!(l.get_number_of_loaded_chunks(), 0);
    assert_eq!(l.get_number_of_loaded_meshes(), 0);
    assert_eq!(l.get_block([0, 0, 0]), None);
}

#[test]
fn retarget_keeps_chunks_inside_load_distance() {
    let mut l = block_store(None);
    let evicted = l.retarget(c(3, 0, 0));
    assert!(evicted.is_empty());
    // Only x = 1 lies within 2 chunks of x = 3.
    assert_eq!(l.get_number_of_loaded_chunks(), 9);
}

fn camera() -> [[i32; 4]; 4] {
    // Looking down +Z from the origin: clip x = x, y = y, w = z and
    // clip z = z - 2, all scaled by 1000.
    [[1000, 0, 0, 0], [0, 1000, 0, 0], [0, 0, 1000, 1000], [0, 0, -2000, 0]]
}

#[test]
fn frustum_keeps_look_at_point() {
    let f = Frustum::new(&camera());
    // The look-at point (0, 0, 100) lies in chunk (0, 0, 3).
    assert!(f.contains(&[0, 0, 3]));
    assert!(f.contains(&[-1, -1, 3]));
}

#[test]
fn frustum_culls_outside_boxes() {
    let f = Frustum::new(&camera());
    // Behind the camera.
    assert!(!f.contains(&[0, 0, -5]));
    // Far to the side at small depth.
    assert!(!f.contains(&[10, 0, 1]));
    assert!(!f.contains(&[0, -10, 1]));
}

#[test]
fn frustum_box_test_is_relaxed() {
    // The identity clip box [-1, 1]^3 touches chunk (0, 0, 0) at a corner.
    let id = [[1, 0, 0, 0], [0, 1, 0, 0], [0, 0, 1, 0], [0, 0, 0, 1]];
    let f = Frustum::new(&id);
    assert!(f.contains(&[0, 0, 0]));
    assert!(f.contains(&[-1, -1, -1]));
    assert!(!f.contains(&[1, 0, 0]));
}

#[test]
fn unqueued_report_is_ignored() {
    let mut l = block_store(Some(c(1, 0, 0)));
    let plan = l.update(c(0, 0, 0), Vec::new(), &vec![(c(0, 0, 0), true)]);
    assert_eq!(plan.accepted, vec![false]);
    assert_eq!(l.get_number_of_loaded_meshes(), 0);
}

#[test]
fn build_beyond_render_distance_clears_flag() {
    let mut l = wide_store();
    queue(&mut l, c(-1, 0, 0));
    l.retarget(c(1, 0, 0));
    assert!(l.finish_mesh(c(-1, 0, 0), true) == false);
    assert!(!l.get_chunk((-1, 0, 0)).unwrap().needs_update());
    assert_eq!(l.get_number_of_loaded_meshes(), 0);
}

#[test]
fn write_during_build_keeps_chunk_dirty() {
    let mut l = wide_store();
    queue(&mut l, c(0, 0, 0));
    queue(&mut l, c(-1, 0, 0));
    // A boundary write makes both in-flight builds stale.
    assert!(l.set_block([0, 3, 3], Block::new(2, 0)));
    assert!(l.finish_mesh(c(0, 0, 0), true));
    assert!(l.finish_mesh(c(-1, 0, 0), true));
    assert!(l.get_chunk((0, 0, 0)).unwrap().needs_update());
    assert!(l.get_chunk((-1, 0, 0)).unwrap().needs_update());
    let plan = l.update(c(0, 0, 0), Vec::new(), &Vec::new());
    assert!(plan.mesh_jobs.iter().any(|j| j.coord() == c(0, 0, 0)));
}

#[test]
fn store_write_reads_back() {
    let mut l = block_store(None);
    assert!(l.set_block([-5, 7, 40], Block::new(4, 9)));
    assert_eq!(l.get_block([-5, 7, 40]), Some(Block::new(4, 9)));
    assert!(!l.set_block([-5, 7, 40], Block::new(4, 9)));
}

#[test]
fn stale_build_is_not_redispatched_in_its_tick() {
    let mut l = wide_store();
    queue(&mut l, c(0, 0, 0));
    assert!(l.set_block([5, 5, 5], Block::new(2, 0)));
    let plan = l.update(c(0, 0, 0), Vec::new(), &vec![(c(0, 0, 0), true)]);
    assert_eq!(plan.accepted, vec![true]);
    assert!(l.get_chunk((0, 0, 0)).unwrap().needs_update());
    assert!(plan.mesh_jobs.iter().all(|j| j.coord() != c(0, 0, 0)));
    let plan = l.update(c(0, 0, 0), Vec::new(), &Vec::new());
    assert!(plan.mesh_jobs.iter().any(|j| j.coord() == c(0, 0, 0)));
}

#[test]
fn dispatch_puts_in_flight_once() {
    let mut l = block_store(None);
    // The first tick already dispatched the centre.
    assert!(l.dispatch(c(0, 0, 0)).is_none());
    assert!(l.finish_mesh(c(0, 0, 0), false) == false);
    let job = l.dispatch(c(0, 0, 0)).expect("ready again");
    assert_eq!(job.coord(), c(0, 0, 0));
    assert!(l.dispatch(c(0, 0, 0)).is_none());
    assert!(l.dispatch(c(1, 0, 0)).is_none());
}
