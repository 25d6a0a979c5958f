use vstd::prelude::*;

use crate::block::Block;
use crate::chunk::{Chunk, ChunkPos, CHUNK_SIZE};
use crate::voxel::Voxel;

verus! {

/// Densities are fixed-point numbers: `DENSITY_SCALE` stands for 1.
pub const DENSITY_SCALE: i64 = 1_000_000;

/// Half-width of the density band around the iso-level where the cave wall is
/// decided by `lerp`, in density units (0.3).
pub const CAVE_BAND: i64 = 300_000;

/// Depth below the surface where the cave zone starts.
pub const CAVE_DEPTH: i64 = 16;

/// Depth below the surface where stone starts.
pub const STONE_DEPTH: i64 = 8;

/// Depth below the surface where dirt starts; above it lies grass.
pub const DIRT_DEPTH: i64 = 4;

/// The kind of the voxel at world height `wy` in a column whose surface lies at
/// `surface` (the first height above ground), where the cave density is `density`.
/// In the cave zone the density decides: rock where it is at least the iso-level 0,
/// a void pocket below it. Within `CAVE_BAND` of the iso-level the choice is made by
/// `lerp` from empty to rock at `t = (density + CAVE_BAND) / (2 * CAVE_BAND)`, whose
/// cut at `t = 1/2` falls on density 0; above the band lies rock, below it void.
pub open spec fn classify(wy: int, surface: int, density: int) -> Block {
    if wy < surface - CAVE_DEPTH {
        if 0 <= density {
            Block::Stone
        } else {
            Block::Air
        }
    } else if wy < surface - STONE_DEPTH {
        Block::Stone
    } else if wy < surface - DIRT_DEPTH {
        Block::Dirt
    } else if wy < surface {
        Block::Grass
    } else {
        Block::Air
    }
}

/// Classifies one voxel; see `classify`.
pub fn classify_voxel(wy: i64, surface: i64, density: i64) -> (r: Block)
    ensures
        r == classify(wy as int, surface as int, density as int),
{
    let wy = wy as i128;
    let surface = surface as i128;
    let density = density as i128;
    if wy < surface - CAVE_DEPTH as i128 {
        if density < -(CAVE_BAND as i128) {
            Block::Air
        } else if density > CAVE_BAND as i128 {
            Block::Stone
        } else {
            let t_num = (density + CAVE_BAND as i128) as u64;
            let t_den = (2 * CAVE_BAND) as u64;
            Block::lerp(Block::Air, Block::Stone, t_num, t_den)
        }
    } else if wy < surface - STONE_DEPTH as i128 {
        Block::Stone
    } else if wy < surface - DIRT_DEPTH as i128 {
        Block::Dirt
    } else if wy < surface {
        Block::Grass
    } else {
        Block::Air
    }
}

/// The noise fields of one chunk, sampled: the surface level of each column
/// (`x * 16 + z`) and the fixed-point cave density of each cell (storage order).
pub struct TerrainSamples {
    surface: Vec<i64>,
    density: Vec<i64>,
}

impl TerrainSamples {
    pub closed spec fn spec_surface(&self) -> Seq<i64> {
        self.surface@
    }

    pub closed spec fn spec_density(&self) -> Seq<i64> {
        self.density@
    }

    /// Samples of a chunk: 256 surface levels and `CHUNK_SIZE` densities.
    pub closed spec fn wf(&self) -> bool {
        self.surface@.len() == 256 && self.density@.len() == CHUNK_SIZE
    }

    /// `None` unless there are 256 surface levels and `CHUNK_SIZE` densities.
    pub fn new(surface: Vec<i64>, density: Vec<i64>) -> (r: Option<Self>)
        ensures
            r is Some <==> surface@.len() == 256 && density@.len() == CHUNK_SIZE,
            r is Some ==> r->0.wf() && r->0.spec_surface() == surface@ && r->0.spec_density()
                == density@,
    {
        if surface.len() == 256 && density.len() == CHUNK_SIZE {
            Some(TerrainSamples { surface, density })
        } else {
            None
        }
    }
}

/// The cells of the chunk at `pos` generated from the sampled fields.
pub open spec fn generated_cells(pos: ChunkPos, surface: Seq<i64>, density: Seq<i64>) -> Seq<
    Block,
> {
    Seq::new(
        CHUNK_SIZE as nat,
        |i: int|
            classify(
                pos.y * 16 + (i / 16) % 16,
                surface[(i / 256) * 16 + i % 16] as int,
                density[i] as int,
            ),
    )
}

/// Generating twice from the same position and samples gives the same chunk.
pub proof fn lemma_generate_deterministic(
    pos: ChunkPos,
    a: TerrainSamples,
    b: TerrainSamples,
)
    requires
        a.spec_surface() == b.spec_surface(),
        a.spec_density() == b.spec_density(),
    ensures
        generated_cells(pos, a.spec_surface(), a.spec_density()) == generated_cells(
            pos,
            b.spec_surface(),
            b.spec_density(),
        ),
{
}

impl Chunk<Block> {
    /// Fills a chunk from the sampled terrain fields: the cell `(x, y, z)` is
    /// classified at world height `pos.y * 16 + y` against its column's surface
    /// level and its own density.
    pub fn generate(pos: ChunkPos, samples: &TerrainSamples) -> (r: Self)
        requires
            samples.wf(),
        ensures
            r.wf(),
            r@ == generated_cells(pos, samples.spec_surface(), samples.spec_density()),
    {
        let mut data: Vec<Block> = Vec::new();
        let base_y: i64 = pos.y as i64 * 16;
        let mut i: usize = 0;
        while i < CHUNK_SIZE
            invariant
                0 <= i <= CHUNK_SIZE,
                samples.wf(),
                base_y == pos.y * 16,
                data@.len() == i,
                forall|k: int|
                    0 <= k < i ==> #[trigger] data@[k] == generated_cells(
                        pos,
                        samples.spec_surface(),
                        samples.spec_density(),
                    )[k],
            decreases CHUNK_SIZE - i,
        {
            let x: usize = i / 256;
            let y: usize = (i / 16) % 16;
            let z: usize = i % 16;
            let block = classify_voxel(
                base_y + y as i64,
                samples.surface[x * 16 + z],
                samples.density[i],
            );
            data.push(block);
            i += 1;
        }
        proof {
            assert(data@ =~= generated_cells(pos, samples.spec_surface(), samples.spec_density()));
        }
        let r = Chunk::from_cells(data);
        match r {
            Some(c) => c,
            None => Chunk::new(),
        }
    }
}

} // verus!
