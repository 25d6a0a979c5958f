use vstd::prelude::*;

use crate::chunk::{Chunk, ChunkPos};
use crate::codec::is_encoding_of;
use crate::voxel::Voxel;

verus! {

/// The index of the first saved entry for `pos`, if any.
pub open spec fn saved_index<V>(chunks: Seq<(ChunkPos, Vec<(u16, V)>)>, pos: ChunkPos) -> Option<
    int,
>
    decreases chunks.len(),
{
    if chunks.len() == 0 {
        None
    } else if chunks.last().0 == pos && saved_index(chunks.drop_last(), pos) is None {
        Some(chunks.len() - 1)
    } else {
        saved_index(chunks.drop_last(), pos)
    }
}

/// The persisted world: for each saved chunk, its position and its runs.
pub struct WorldSave<V> {
    pub chunks: Vec<(ChunkPos, Vec<(u16, V)>)>,
}

impl<V: Voxel> WorldSave<V> {
    /// An empty save: every chunk falls back to generation.
    pub fn new() -> (r: Self)
        ensures
            r.chunks@.len() == 0,
    {
        WorldSave { chunks: Vec::new() }
    }

    /// A save holding the given chunks, each encoded as runs.
    pub fn from_chunks(chunks: &Vec<(ChunkPos, &Chunk<V>)>) -> (r: Self)
        requires
            forall|k: int| 0 <= k < chunks@.len() ==> (#[trigger] chunks@[k]).1.wf(),
        ensures
            r.chunks@.len() == chunks@.len(),
            forall|k: int|
                0 <= k < chunks@.len() ==> (#[trigger] r.chunks@[k]).0 == chunks@[k].0
                    && is_encoding_of(r.chunks@[k].1@, chunks@[k].1@),
    {
        let mut out: Vec<(ChunkPos, Vec<(u16, V)>)> = Vec::new();
        let mut i: usize = 0;
        while i < chunks.len()
            invariant
                0 <= i <= chunks@.len(),
                forall|k: int| 0 <= k < chunks@.len() ==> (#[trigger] chunks@[k]).1.wf(),
                out@.len() == i,
                forall|k: int|
                    0 <= k < i ==> (#[trigger] out@[k]).0 == chunks@[k].0 && is_encoding_of(
                        out@[k].1@,
                        chunks@[k].1@,
                    ),
            decreases chunks@.len() - i,
        {
            let (pos, chunk) = chunks[i];
            let runs = chunk.to_rle();
            out.push((pos, runs));
            i += 1;
        }
        WorldSave { chunks: out }
    }

    /// The index of the first entry saved for `pos`.
    pub fn find(&self, pos: ChunkPos) -> (r: Option<usize>)
        ensures
            r matches Some(i) ==> saved_index(self.chunks@, pos) == Some(i as int),
            r is None ==> saved_index(self.chunks@, pos) is None,
    {
        let mut i: usize = 0;
        while i < self.chunks.len()
            invariant
                0 <= i <= self.chunks@.len(),
                saved_index(self.chunks@.subrange(0, i as int), pos) is None,
            decreases self.chunks@.len() - i,
        {
            proof {
                let pre = self.chunks@.subrange(0, i + 1);
                assert(pre.drop_last() =~= self.chunks@.subrange(0, i as int));
            }
            if self.chunks[i].0 == pos {
                proof {
                    lemma_saved_index_extend(self.chunks@, i + 1, pos, i as int);
                }
                return Some(i);
            }
            i += 1;
        }
        proof {
            assert(self.chunks@.subrange(0, self.chunks@.len() as int) =~= self.chunks@);
        }
        None
    }
}

impl<V: Voxel> Default for WorldSave<V> {
    fn default() -> (r: Self)
        ensures
            r.chunks@.len() == 0,
    {
        WorldSave::new()
    }
}

/// Once an entry for a position is found in a prefix, it stays the first one.
proof fn lemma_saved_index_extend<V>(chunks: Seq<(ChunkPos, Vec<(u16, V)>)>, n: int, pos: ChunkPos, j: int)
    requires
        0 <= n <= chunks.len(),
        saved_index(chunks.subrange(0, n), pos) == Some(j),
    ensures
        saved_index(chunks, pos) == Some(j),
    decreases chunks.len() - n,
{
    if n < chunks.len() {
        assert(chunks.subrange(0, n + 1).drop_last() =~= chunks.subrange(0, n));
        lemma_saved_index_extend(chunks, n + 1, pos, j);
    } else {
        assert(chunks.subrange(0, n) =~= chunks);
    }
}

} // verus!
