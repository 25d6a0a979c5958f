use vstd::prelude::*;

use crate::chunk::{Chunk, CHUNK_SIZE};
use crate::voxel::{same_voxel, Voxel};

verus! {

/// `n` copies of `v`.
pub open spec fn repeat<V>(v: V, n: nat) -> Seq<V> {
    Seq::new(n, |i: int| v)
}

/// The cells that a run list stands for: each `(count, value)` as `count` copies of
/// `value`, in order.
pub open spec fn expand<V>(runs: Seq<(u16, V)>) -> Seq<V>
    decreases runs.len(),
{
    if runs.len() == 0 {
        Seq::empty()
    } else {
        expand(runs.drop_last()) + repeat(runs.last().1, runs.last().0 as nat)
    }
}

/// The sum of the counts of a run list.
pub open spec fn total<V>(runs: Seq<(u16, V)>) -> nat
    decreases runs.len(),
{
    if runs.len() == 0 {
        0
    } else {
        total(runs.drop_last()) + runs.last().0 as nat
    }
}

/// No run is empty.
pub open spec fn runs_positive<V>(runs: Seq<(u16, V)>) -> bool {
    forall|j: int| 0 <= j < runs.len() ==> (#[trigger] runs[j]).0 > 0
}

/// Two adjacent runs share a value only where the first is full.
pub open spec fn runs_maximal<V>(runs: Seq<(u16, V)>) -> bool {
    forall|j: int|
        0 <= j < runs.len() - 1 ==> (#[trigger] runs[j]).1 != runs[j + 1].1 || runs[j].0
            == u16::MAX
}

/// `runs` is the run-length encoding of `cells`.
pub open spec fn is_encoding_of<V>(runs: Seq<(u16, V)>, cells: Seq<V>) -> bool {
    runs_positive(runs) && runs_maximal(runs) && expand(runs) == cells
}

pub proof fn lemma_expand_push<V>(runs: Seq<(u16, V)>, r: (u16, V))
    ensures
        expand(runs.push(r)) == expand(runs) + repeat(r.1, r.0 as nat),
        total(runs.push(r)) == total(runs) + r.0 as nat,
{
    assert(runs.push(r).drop_last() =~= runs);
}

pub proof fn lemma_expand_len<V>(runs: Seq<(u16, V)>)
    ensures
        expand(runs).len() == total(runs),
    decreases runs.len(),
{
    if runs.len() > 0 {
        lemma_expand_len(runs.drop_last());
    }
}

/// Decoding an encoding gives back the cells: a chunk's encoding always has
/// `CHUNK_SIZE` cells in total, and expands to exactly the chunk's cells.
pub proof fn lemma_round_trip<V>(cells: Seq<V>, runs: Seq<(u16, V)>)
    requires
        cells.len() == CHUNK_SIZE,
        is_encoding_of(runs, cells),
    ensures
        total(runs) == CHUNK_SIZE,
        expand(runs) == cells,
{
    lemma_expand_len(runs);
}

impl<V: Voxel> Chunk<V> {
    /// The run-length encoding of the chunk's cells in storage order; runs are cut at
    /// `u16::MAX` cells.
    pub fn to_rle(&self) -> (r: Vec<(u16, V)>)
        requires
            self.wf(),
        ensures
            is_encoding_of(r@, self@),
            total(r@) == CHUNK_SIZE,
    {
        let cells = self.cells();
        let mut rle: Vec<(u16, V)> = Vec::new();
        let mut count: u16 = 0;
        let mut last: V = cells[0];
        let mut i: usize = 0;
        while i < CHUNK_SIZE
            invariant
                cells@ == self@,
                cells@.len() == CHUNK_SIZE,
                0 <= i <= CHUNK_SIZE,
                i == 0 ==> count == 0 && rle@.len() == 0 && last == cells@[0],
                i > 0 ==> count > 0,
                runs_positive(rle@),
                runs_maximal(rle@),
                rle@.len() > 0 ==> rle@.last().1 != last || rle@.last().0 == u16::MAX,
                expand(rle@) + repeat(last, count as nat) == cells@.subrange(0, i as int),
            decreases CHUNK_SIZE - i,
        {
            let voxel = cells[i];
            let ghost old_rle = rle@;
            proof {
                assert(cells@.subrange(0, i + 1) =~= cells@.subrange(0, i as int).push(voxel));
            }
            if same_voxel(&voxel, &last) && count < u16::MAX {
                proof {
                    assert(repeat(last, (count + 1) as nat) =~= repeat(last, count as nat).push(
                        voxel,
                    ));
                }
                count = count + 1;
            } else {
                rle.push((count, last));
                proof {
                    lemma_expand_push(old_rle, (count, last));
                    assert(repeat(voxel, 1) =~= seq![voxel]);
                    assert forall|j: int| 0 <= j < rle@.len() - 1 implies (#[trigger] rle@[j]).1
                        != rle@[j + 1].1 || rle@[j].0 == u16::MAX by {
                        if j < old_rle.len() - 1 {
                            assert(rle@[j] == old_rle[j] && rle@[j + 1] == old_rle[j + 1]);
                        }
                    }
                    assert(expand(rle@) + repeat(voxel, 1) =~= cells@.subrange(0, i + 1));
                }
                count = 1;
                last = voxel;
            }
            i += 1;
        }
        let ghost old_rle = rle@;
        rle.push((count, last));
        proof {
            lemma_expand_push(old_rle, (count, last));
            assert(cells@.subrange(0, CHUNK_SIZE as int) =~= cells@);
            assert forall|j: int| 0 <= j < rle@.len() - 1 implies (#[trigger] rle@[j]).1 != rle@[j
                + 1].1 || rle@[j].0 == u16::MAX by {
                if j < old_rle.len() - 1 {
                    assert(rle@[j] == old_rle[j] && rle@[j + 1] == old_rle[j + 1]);
                }
            }
            lemma_round_trip(self@, rle@);
        }
        rle
    }

    /// Rebuilds a chunk from its runs; `None` when the runs do not cover exactly
    /// `CHUNK_SIZE` cells.
    pub fn from_rle(rle: &[(u16, V)]) -> (r: Option<Self>)
        ensures
            r is Some <==> total(rle@) == CHUNK_SIZE,
            r is Some ==> r->0.wf() && r->0@ == expand(rle@),
    {
        let mut data: Vec<V> = Vec::new();
        let mut i: usize = 0;
        while i < rle.len()
            invariant
                0 <= i <= rle@.len(),
                data@ == expand(rle@.subrange(0, i as int)),
                data@.len() <= CHUNK_SIZE,
            decreases rle@.len() - i,
        {
            let (count, value) = rle[i];
            proof {
                assert(rle@.subrange(0, i + 1) =~= rle@.subrange(0, i as int).push((count, value)));
                lemma_expand_push(rle@.subrange(0, i as int), (count, value));
            }
            if data.len() + count as usize > CHUNK_SIZE {
                proof {
                    lemma_total_prefix(rle@, i + 1);
                    lemma_expand_len(rle@.subrange(0, i + 1));
                }
                return None;
            }
            let ghost before = data@;
            let mut k: u16 = 0;
            while k < count
                invariant
                    k <= count,
                    data@ == before + repeat(value, k as nat),
                    before.len() + count <= CHUNK_SIZE,
                decreases count - k,
            {
                data.push(value);
                k += 1;
                assert(data@ =~= before + repeat(value, k as nat));
            }
            i += 1;
        }
        proof {
            assert(rle@.subrange(0, rle@.len() as int) =~= rle@);
            lemma_expand_len(rle@);
        }
        Chunk::from_cells(data)
    }
}

/// A prefix of a run list never has a larger total than the list.
pub proof fn lemma_total_prefix<V>(runs: Seq<(u16, V)>, n: int)
    requires
        0 <= n <= runs.len(),
    ensures
        total(runs.subrange(0, n)) <= total(runs),
    decreases runs.len(),
{
    if n < runs.len() {
        assert(runs.drop_last() =~= runs.subrange(0, runs.len() - 1));
        assert(runs.drop_last().subrange(0, n) =~= runs.subrange(0, n));
        lemma_total_prefix(runs.drop_last(), n);
    } else {
        assert(runs.subrange(0, n) =~= runs);
    }
}

} // verus!
