use std::collections::HashSet;

use voxel_world::block::Block;
use voxel_world::chunk::{Chunk, ChunkPos};
use voxel_world::stream::{
    desired_chunks, load_local_chunks, update_chunk_manager, update_chunk_neighbors, ChunkManager,
    ChunkSource, Handle,
};
use voxel_world::world::WorldSave;

#[test]
fn desired_set_is_a_sphere() {
    let d = desired_chunks(ChunkPos::new(0, 0, 0), 2);
    assert!(d.contains(&ChunkPos::new(2, 0, 0)));
    assert!(!d.contains(&ChunkPos::new(2, 1, 0)));
    assert!(d.contains(&ChunkPos::new(1, 1, 1)));
    assert!(!d.contains(&ChunkPos::new(2, 2, 0)));
    assert_eq!(d.len(), 33);
    let set: HashSet<ChunkPos> = d.iter().copied().collect();
    assert_eq!(set.len(), d.len());
}

#[test]
fn desired_set_radius_zero_and_grid_edge() {
    assert_eq!(desired_chunks(ChunkPos::new(4, -5, 6), 0), vec![ChunkPos::new(4, -5, 6)]);
    let d = desired_chunks(ChunkPos::new(i32::MAX, 0, 0), 1);
    assert_eq!(d.len(), 6);
    assert!(!d.iter().any(|p| p.x < i32::MAX - 1));
}

#[test]
fn streaming_converges_without_duplicates() {
    let mut m = ChunkManager::new();
    let observer = ChunkPos::new(0, 0, 0);
    update_chunk_manager(&mut m, observer, 2, &vec![]);
    assert_eq!(m.load_queue.len(), 33);
    let save: WorldSave<Block> = WorldSave::new();
    let mut all_loads = Vec::new();
    for _ in 0..5 {
        let plan = load_local_chunks(&mut m, 8, &save, &vec![]);
        assert!(plan.loads.len() <= 8);
        assert!(plan.unload.is_none());
        all_loads.extend(plan.loads.iter().map(|l| l.pos));
    }
    assert!(m.load_queue.is_empty());
    let loaded: HashSet<ChunkPos> = m.loaded_chunks.iter().copied().collect();
    let desired: HashSet<ChunkPos> = desired_chunks(observer, 2).into_iter().collect();
    assert_eq!(loaded, desired);
    let unique: HashSet<ChunkPos> = all_loads.iter().copied().collect();
    assert_eq!(unique.len(), all_loads.len());
    assert_eq!(all_loads.len(), 33);
}

#[test]
fn streaming_with_budget_one() {
    let mut m = ChunkManager::new();
    update_chunk_manager(&mut m, ChunkPos::new(10, 10, 10), 1, &vec![]);
    let save: WorldSave<Block> = WorldSave::new();
    let mut n = 0;
    for _ in 0..7 {
        n += load_local_chunks(&mut m, 1, &save, &vec![]).loads.len();
    }
    assert_eq!(n, 7);
    assert_eq!(m.loaded_chunks.len(), 7);
    assert!(load_local_chunks(&mut m, 1, &save, &vec![]).loads.is_empty());
}

#[test]
fn existing_chunks_are_not_requeued_and_far_ones_unload() {
    let mut m = ChunkManager::new();
    let chunks: Vec<(Handle, ChunkPos)> = vec![(7, ChunkPos::new(0, 0, 0)), (9, ChunkPos::new(5, 0, 0))];
    update_chunk_manager(&mut m, ChunkPos::new(0, 0, 0), 1, &chunks);
    assert_eq!(m.loaded_chunks, vec![ChunkPos::new(0, 0, 0), ChunkPos::new(5, 0, 0)]);
    assert_eq!(m.load_queue.len(), 6);
    assert!(!m.load_queue.contains(&ChunkPos::new(0, 0, 0)));
    assert_eq!(m.unload_queue, vec![9]);
    // a second trigger queues nothing new
    update_chunk_manager(&mut m, ChunkPos::new(0, 0, 0), 1, &chunks);
    assert_eq!(m.load_queue.len(), 6);
    assert_eq!(m.unload_queue, vec![9]);

    let save: WorldSave<Block> = WorldSave::new();
    let plan = load_local_chunks(&mut m, 8, &save, &chunks);
    assert_eq!(plan.loads.len(), 6);
    assert_eq!(plan.unload, Some(9));
    assert!(m.unload_queue.is_empty());
    // each new chunk beside the origin chunk asks it to refresh
    for l in &plan.loads {
        assert_eq!(l.source, ChunkSource::Generated);
        let refs: Vec<Handle> = l.neighbors.iter().flatten().copied().collect();
        assert_eq!(refs, vec![7]);
    }
    // a handle that no longer exists is dropped without a removal
    m.unload_queue.push_back(42);
    let plan = load_local_chunks(&mut m, 8, &save, &chunks);
    assert_eq!(plan.unload, None);
    assert!(plan.loads.is_empty());
}

#[test]
fn loaded_list_has_each_position_once() {
    let mut m = ChunkManager::new();
    let chunks: Vec<(Handle, ChunkPos)> =
        vec![(1, ChunkPos::new(0, 0, 0)), (2, ChunkPos::new(0, 0, 0)), (3, ChunkPos::new(0, 1, 0))];
    update_chunk_manager(&mut m, ChunkPos::new(0, 0, 0), 1, &chunks);
    assert_eq!(m.loaded_chunks, vec![ChunkPos::new(0, 0, 0), ChunkPos::new(0, 1, 0)]);
    assert_eq!(m.load_queue.len(), 5);
}

#[test]
fn saved_chunks_load_from_the_save() {
    let c: Chunk<Block> = Chunk::new();
    let save = WorldSave::from_chunks(&vec![(ChunkPos::new(0, 0, 0), &c)]);
    let mut m = ChunkManager::new();
    update_chunk_manager(&mut m, ChunkPos::new(0, 0, 0), 0, &vec![]);
    let plan = load_local_chunks(&mut m, 8, &save, &vec![]);
    assert_eq!(plan.loads.len(), 1);
    assert_eq!(plan.loads[0].source, ChunkSource::Saved(0));
}

#[test]
fn neighbor_links() {
    let chunks: Vec<(Handle, ChunkPos)> = vec![
        (1, ChunkPos::new(0, 0, 0)),
        (2, ChunkPos::new(1, 0, 0)),
        (3, ChunkPos::new(0, -1, 0)),
        (4, ChunkPos::new(0, 0, 1)),
        (5, ChunkPos::new(0, 0, 0)),
    ];
    let n = update_chunk_neighbors(1, ChunkPos::new(0, 0, 0), &chunks);
    assert_eq!(n, [None, Some(2), Some(3), None, None, Some(4)]);
    let n = update_chunk_neighbors(2, ChunkPos::new(1, 0, 0), &chunks);
    assert_eq!(n, [Some(1), None, None, None, None, None]);
}
