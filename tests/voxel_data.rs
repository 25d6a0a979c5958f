use voxel_world::block::Block;
use voxel_world::chunk::{Chunk, ChunkPos, CHUNK_SIZE};
use voxel_world::face::Face;
use voxel_world::voxel::{same_voxel, Voxel};

#[test]
fn block_defaults_and_opacity() {
    assert_eq!(Block::default_empty(), Block::Air);
    assert_eq!(Block::default_opaque(), Block::Stone);
    assert!(!Block::Air.is_opaque());
    assert!(Block::Stone.is_opaque());
    assert!(Block::Dirt.is_opaque());
    assert!(Block::Grass.is_opaque());
}

#[test]
fn block_lerp_is_a_threshold_at_one_half() {
    // t = 49/100 stays on the first value, t = 1/2 and above picks the second.
    assert_eq!(Block::lerp(Block::Air, Block::Stone, 49, 100), Block::Air);
    assert_eq!(Block::lerp(Block::Air, Block::Stone, 50, 100), Block::Stone);
    assert_eq!(Block::lerp(Block::Air, Block::Stone, 1, 2), Block::Stone);
    assert_eq!(Block::lerp(Block::Air, Block::Stone, 0, 7), Block::Air);
    assert_eq!(Block::lerp(Block::Dirt, Block::Grass, 7, 7), Block::Grass);
}

#[test]
fn block_ids_follow_enumeration_order() {
    let all = Block::all();
    assert_eq!(all, vec![Block::Air, Block::Stone, Block::Dirt, Block::Grass]);
    for (i, b) in all.iter().enumerate() {
        assert_eq!(b.raw() as usize, i);
    }
    assert!(same_voxel(&Block::Dirt, &Block::Dirt));
    assert!(!same_voxel(&Block::Dirt, &Block::Grass));
}

#[test]
fn face_signs_and_slots() {
    let faces = Face::all();
    let signs: Vec<bool> = faces.iter().map(|f| f.sign()).collect();
    assert_eq!(signs, vec![false, true, false, true, false, true]);
    for (i, f) in faces.iter().enumerate() {
        assert_eq!(f.index(), i);
    }
    assert_eq!(Face::Top.normal(), [0, 1, 0]);
    assert_eq!(Face::Back.normal(), [0, 0, -1]);
    assert_eq!(Face::Top.atlas_row(), 4);
    assert_eq!(Face::Left.atlas_row(), 0);
    assert_eq!(Face::Front.atlas_row(), 5);
}

#[test]
fn face_positions_winding() {
    let p = Face::Top.positions([0, 0, 0], [1, 1, 1]);
    assert_eq!(p, [[1, 1, 0], [0, 1, 0], [0, 1, 1], [1, 1, 1]]);
    let p = Face::Left.positions([2, 3, 4], [3, 4, 5]);
    assert_eq!(p, [[2, 3, 5], [2, 4, 5], [2, 4, 4], [2, 3, 4]]);
}

#[test]
fn chunk_pos_offsets() {
    let o = ChunkPos::new(1, 2, 3).offsets();
    assert_eq!(o[0], ChunkPos::new(0, 2, 3));
    assert_eq!(o[1], ChunkPos::new(2, 2, 3));
    assert_eq!(o[2], ChunkPos::new(1, 1, 3));
    assert_eq!(o[3], ChunkPos::new(1, 3, 3));
    assert_eq!(o[4], ChunkPos::new(1, 2, 2));
    assert_eq!(o[5], ChunkPos::new(1, 2, 4));
}

#[test]
fn new_chunk_is_empty_and_writes_read_back() {
    let mut c: Chunk<Block> = Chunk::new();
    assert_eq!(c.cells().len(), CHUNK_SIZE);
    assert!(c.cells().iter().all(|b| *b == Block::Air));
    *c.get_mut([3, 4, 5]) = Block::Dirt;
    assert_eq!(*c.get([3, 4, 5]), Block::Dirt);
    assert_eq!(*c.get([5, 4, 3]), Block::Air);
    assert_eq!(Chunk::<Block>::to_index([3, 4, 5]), 3 * 256 + 4 * 16 + 5);
    assert_eq!(c.cells()[3 * 256 + 4 * 16 + 5], Block::Dirt);
}

#[test]
fn from_cells_checks_length() {
    assert!(Chunk::from_cells(vec![Block::Air; CHUNK_SIZE]).is_some());
    assert!(Chunk::from_cells(vec![Block::Air; CHUNK_SIZE - 1]).is_none());
    assert!(Chunk::from_cells(vec![Block::Air; CHUNK_SIZE + 1]).is_none());
}

#[test]
fn defaults_are_empty() {
    let c: Chunk<Block> = Chunk::default();
    assert!(c.cells().iter().all(|b| *b == Block::Air));
    let m = voxel_world::stream::ChunkManager::default();
    assert!(m.loaded_chunks.is_empty() && m.load_queue.is_empty() && m.unload_queue.is_empty());
    let s: voxel_world::world::WorldSave<Block> = Default::default();
    assert!(s.chunks.is_empty());
}
