use voxel_world::block::Block;
use voxel_world::chunk::{Chunk, ChunkPos, CHUNK_SIZE};
use voxel_world::terrain::{classify_voxel, TerrainSamples};
use voxel_world::world::WorldSave;

fn samples(surface_base: i64) -> TerrainSamples {
    let surface: Vec<i64> = (0..256).map(|k| surface_base + (k % 7) as i64 - (k / 16) as i64 % 5).collect();
    let density: Vec<i64> = (0..CHUNK_SIZE)
        .map(|k| ((k as i64 * 7919) % 900_001) - 450_000)
        .collect();
    TerrainSamples::new(surface, density).unwrap()
}

#[test]
fn empty_chunk_encodes_as_one_run() {
    let c: Chunk<Block> = Chunk::new();
    assert_eq!(c.to_rle(), vec![(4096u16, Block::Air)]);
}

#[test]
fn runs_are_maximal_and_positive() {
    let mut c: Chunk<Block> = Chunk::new();
    *c.get_mut([0, 0, 0]) = Block::Stone;
    *c.get_mut([0, 0, 1]) = Block::Stone;
    *c.get_mut([15, 15, 15]) = Block::Grass;
    let rle = c.to_rle();
    assert_eq!(rle, vec![(2, Block::Stone), (4093, Block::Air), (1, Block::Grass)]);
    let total: usize = rle.iter().map(|r| r.0 as usize).sum();
    assert_eq!(total, CHUNK_SIZE);
}

#[test]
fn decode_rejects_wrong_totals() {
    assert!(Chunk::<Block>::from_rle(&[(4095, Block::Air)]).is_none());
    assert!(Chunk::<Block>::from_rle(&[(4096, Block::Air), (1, Block::Stone)]).is_none());
    assert!(Chunk::<Block>::from_rle(&[]).is_none());
    let c = Chunk::<Block>::from_rle(&[(4000, Block::Stone), (0, Block::Dirt), (96, Block::Air)]).unwrap();
    assert_eq!(*c.get([15, 9, 15]), Block::Stone);
    assert_eq!(*c.get([15, 10, 0]), Block::Air);
}

#[test]
fn generated_chunk_round_trips() {
    let c = Chunk::generate(ChunkPos::new(0, -1, 2), &samples(-4));
    let rle = c.to_rle();
    assert!(rle.iter().all(|r| r.0 > 0));
    for w in rle.windows(2) {
        assert!(w[0].1 != w[1].1 || w[0].0 == u16::MAX);
    }
    let back = Chunk::from_rle(&rle).unwrap();
    assert_eq!(back.cells(), c.cells());
}

#[test]
fn generation_is_deterministic() {
    let a = Chunk::generate(ChunkPos::new(3, 0, -2), &samples(5));
    let b = Chunk::generate(ChunkPos::new(3, 0, -2), &samples(5));
    assert_eq!(a.cells(), b.cells());
}

#[test]
fn classification_bands() {
    // surface at 10: grass in 6..10, dirt in 2..6, stone in -6..2, caves below.
    assert_eq!(classify_voxel(10, 10, 0), Block::Air);
    assert_eq!(classify_voxel(9, 10, 0), Block::Grass);
    assert_eq!(classify_voxel(6, 10, 0), Block::Grass);
    assert_eq!(classify_voxel(5, 10, 0), Block::Dirt);
    assert_eq!(classify_voxel(2, 10, 0), Block::Dirt);
    assert_eq!(classify_voxel(1, 10, 0), Block::Stone);
    assert_eq!(classify_voxel(-6, 10, 0), Block::Stone);
    // cave zone: density -0.3 ..= 0.3 is the lerp band; t = 1/2 at density 0;
    // rock above the band, void below it.
    assert_eq!(classify_voxel(-7, 10, 0), Block::Stone);
    assert_eq!(classify_voxel(-7, 10, -1), Block::Air);
    assert_eq!(classify_voxel(-7, 10, 300_000), Block::Stone);
    assert_eq!(classify_voxel(-7, 10, 300_001), Block::Stone);
    assert_eq!(classify_voxel(-7, 10, 2_000_000), Block::Stone);
    assert_eq!(classify_voxel(-7, 10, -300_001), Block::Air);
    assert_eq!(classify_voxel(i64::MIN, i64::MAX, 0), Block::Stone);
}

#[test]
fn generate_uses_world_height() {
    let surface = vec![20i64; 256];
    let density = vec![-1i64; CHUNK_SIZE];
    let s = TerrainSamples::new(surface, density).unwrap();
    let c = Chunk::generate(ChunkPos::new(0, 1, 0), &s);
    // world y = 16 + y: grass for 16..20, air above.
    assert_eq!(*c.get([0, 0, 0]), Block::Grass);
    assert_eq!(*c.get([7, 3, 9]), Block::Grass);
    assert_eq!(*c.get([7, 4, 9]), Block::Air);
    let c = Chunk::generate(ChunkPos::new(0, 0, 0), &TerrainSamples::new(vec![20i64; 256], vec![-1i64; CHUNK_SIZE]).unwrap());
    assert_eq!(*c.get([0, 3, 0]), Block::Air);
    assert_eq!(*c.get([0, 4, 0]), Block::Stone);
    assert_eq!(*c.get([0, 12, 0]), Block::Dirt);
    assert_eq!(*c.get([0, 15, 0]), Block::Dirt);
}

#[test]
fn samples_check_shapes() {
    assert!(TerrainSamples::new(vec![0; 255], vec![0; CHUNK_SIZE]).is_none());
    assert!(TerrainSamples::new(vec![0; 256], vec![0; CHUNK_SIZE - 1]).is_none());
}

#[test]
fn world_save_encodes_and_finds() {
    let mut a: Chunk<Block> = Chunk::new();
    *a.get_mut([1, 1, 1]) = Block::Stone;
    let b: Chunk<Block> = Chunk::new();
    let save = WorldSave::from_chunks(&vec![(ChunkPos::new(1, 0, 0), &a), (ChunkPos::new(-2, 5, 7), &b)]);
    assert_eq!(save.chunks.len(), 2);
    assert_eq!(save.chunks[1].1, vec![(4096u16, Block::Air)]);
    assert_eq!(save.find(ChunkPos::new(-2, 5, 7)), Some(1));
    assert_eq!(save.find(ChunkPos::new(1, 0, 0)), Some(0));
    assert_eq!(save.find(ChunkPos::new(0, 0, 0)), None);
    let back = Chunk::from_rle(&save.chunks[0].1).unwrap();
    assert_eq!(*back.get([1, 1, 1]), Block::Stone);
    assert!(WorldSave::<Block>::new().chunks.is_empty());
}
