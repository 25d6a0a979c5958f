use vstd::prelude::*;

use crate::face::{spec_face_at, spec_step, Face};
use crate::voxel::Voxel;

verus! {

/// Edge length of a chunk, in voxels.
pub const CHUNK_WIDTH: u8 = 16;

/// Number of voxels in a chunk: `CHUNK_WIDTH` cubed.
pub const CHUNK_SIZE: usize = 4096;

/// Linear position of local coordinate `(x, y, z)` in a chunk's storage.
pub open spec fn cell_index(x: int, y: int, z: int) -> int {
    x * 256 + y * 16 + z
}

/// The storage layout is the one of a chunk `CHUNK_WIDTH` cells wide: the literals
/// above are its square and cube.
pub proof fn lemma_layout(x: int, y: int, z: int)
    ensures
        CHUNK_SIZE == CHUNK_WIDTH * CHUNK_WIDTH * CHUNK_WIDTH,
        cell_index(x, y, z) == (x * CHUNK_WIDTH + y) * CHUNK_WIDTH + z,
{
    assert(CHUNK_WIDTH == 16);
    assert(16int * 16 * 16 == 4096) by (nonlinear_arith);
    assert((x * 16 + y) * 16 + z == x * 256 + y * 16 + z) by (nonlinear_arith);
}

/// Whether a local coordinate lies inside a chunk.
pub open spec fn in_chunk(p: [u8; 3]) -> bool {
    p[0] < CHUNK_WIDTH && p[1] < CHUNK_WIDTH && p[2] < CHUNK_WIDTH
}

/// Linear position of an in-chunk coordinate.
pub open spec fn pos_index(p: [u8; 3]) -> int {
    cell_index(p[0] as int, p[1] as int, p[2] as int)
}

/// Position of a chunk on the chunk grid; its world position is this times `CHUNK_WIDTH`.
#[derive(Clone, Copy, Debug, Default, PartialEq, Eq, Hash, Structural)]
pub struct ChunkPos {
    pub x: i32,
    pub y: i32,
    pub z: i32,
}

/// The chunk position one step from `p` in direction `f`, when it is on the grid.
pub open spec fn spec_neighbor_pos(p: ChunkPos, f: Face) -> (int, int, int) {
    (p.x + spec_step(f, 0), p.y + spec_step(f, 1), p.z + spec_step(f, 2))
}

/// Whether `q` is the neighbour of `p` in direction `f`.
pub open spec fn is_neighbor(p: ChunkPos, f: Face, q: ChunkPos) -> bool {
    spec_neighbor_pos(p, f) == (q.x as int, q.y as int, q.z as int)
}

impl ChunkPos {
    pub fn new(x: i32, y: i32, z: i32) -> (r: Self)
        ensures
            r.x == x && r.y == y && r.z == z,
    {
        ChunkPos { x, y, z }
    }

    /// The six neighbouring positions, in face-slot order.
    pub fn offsets(&self) -> (r: [Self; 6])
        requires
            i32::MIN < self.x < i32::MAX,
            i32::MIN < self.y < i32::MAX,
            i32::MIN < self.z < i32::MAX,
        ensures
            forall|i: int| 0 <= i < 6 ==> is_neighbor(*self, spec_face_at(i), #[trigger] r[i]),
    {
        let (cx, cy, cz) = (self.x, self.y, self.z);
        [
            ChunkPos { x: cx - 1, y: cy, z: cz },
            ChunkPos { x: cx + 1, y: cy, z: cz },
            ChunkPos { x: cx, y: cy - 1, z: cz },
            ChunkPos { x: cx, y: cy + 1, z: cz },
            ChunkPos { x: cx, y: cy, z: cz - 1 },
            ChunkPos { x: cx, y: cy, z: cz + 1 },
        ]
    }
}

/// The voxels of one chunk, stored densely in `cell_index` order.
pub struct Chunk<V> {
    cells: Vec<V>,
}

impl<V> View for Chunk<V> {
    type V = Seq<V>;

    closed spec fn view(&self) -> Seq<V> {
        self.cells@
    }
}

impl<V> Chunk<V> {
    /// A well-formed chunk holds exactly `CHUNK_SIZE` voxels.
    pub open spec fn wf(&self) -> bool {
        self@.len() == CHUNK_SIZE
    }
}

impl<V: Voxel> Chunk<V> {
    /// A chunk whose every cell is the empty voxel.
    pub fn new() -> (r: Self)
        ensures
            r.wf(),
            r@ == Seq::new(CHUNK_SIZE as nat, |i: int| V::spec_empty()),
    {
        let e = V::default_empty();
        let mut cells: Vec<V> = Vec::new();
        let mut i: usize = 0;
        while i < CHUNK_SIZE
            invariant
                i <= CHUNK_SIZE,
                cells@ == Seq::new(i as nat, |k: int| V::spec_empty()),
                e == V::spec_empty(),
            decreases CHUNK_SIZE - i,
        {
            cells.push(e);
            i += 1;
            assert(cells@ =~= Seq::new(i as nat, |k: int| V::spec_empty()));
        }
        Chunk { cells }
    }

    /// A chunk holding `cells` in `cell_index` order, if there are exactly `CHUNK_SIZE`.
    pub fn from_cells(cells: Vec<V>) -> (r: Option<Self>)
        ensures
            r is Some <==> cells@.len() == CHUNK_SIZE,
            r is Some ==> r->0@ == cells@ && r->0.wf(),
    {
        if cells.len() == CHUNK_SIZE {
            Some(Chunk { cells })
        } else {
            None
        }
    }

    /// The cells in `cell_index` order.
    pub fn cells(&self) -> (r: &Vec<V>)
        ensures
            r@ == self@,
    {
        &self.cells
    }

    pub fn to_index(pos: [u8; 3]) -> (r: usize)
        requires
            in_chunk(pos),
        ensures
            r as int == pos_index(pos),
            r < CHUNK_SIZE,
    {
        pos[0] as usize * 256 + pos[1] as usize * 16 + pos[2] as usize
    }

    pub fn get(&self, pos: [u8; 3]) -> (r: &V)
        requires
            self.wf(),
            in_chunk(pos),
        ensures
            *r == self@[pos_index(pos)],
    {
        let index = Self::to_index(pos);
        &self.cells[index]
    }

    /// The voxel at `pos`, to be overwritten in place.
    pub fn get_mut(&mut self, pos: [u8; 3]) -> (r: &mut V)
        requires
            old(self).wf(),
            in_chunk(pos),
        ensures
            *r == old(self)@[pos_index(pos)],
            final(self)@ == old(self)@.update(pos_index(pos), *final(r)),
    {
        let index = Self::to_index(pos);
        &mut self.cells[index]
    }
}

impl<V: Voxel> Default for Chunk<V> {
    fn default() -> (r: Self)
        ensures
            r.wf(),
            r@ == Seq::new(CHUNK_SIZE as nat, |i: int| V::spec_empty()),
    {
        Chunk::new()
    }
}

} // verus!
