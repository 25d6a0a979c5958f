use vstd::prelude::*;

use crate::chunk::{cell_index, Chunk};
use crate::face::{spec_axis, spec_index, Face};
use crate::mesh::{
    covers, exposed, neighbor_views, neighbors_wf, quad_nonempty, quads_cover_exposed,
    quads_disjoint, quads_sound, Quad,
};
use crate::voxel::{same_voxel, Voxel};

verus! {

/// The cell at in-slice position `(i, j)` of slice `c` across the axis of `f`.
pub open spec fn slice_cell(f: Face, c: int, i: int, j: int) -> (int, int, int) {
    if spec_axis(f) == 0 {
        (c, i, j)
    } else if spec_axis(f) == 1 {
        (i, c, j)
    } else {
        (i, j, c)
    }
}

/// The slice of cell `(x, y, z)` across the axis of `f`.
pub open spec fn slice_of(f: Face, x: int, y: int, z: int) -> int {
    if spec_axis(f) == 0 {
        x
    } else if spec_axis(f) == 1 {
        y
    } else {
        z
    }
}

/// The first in-slice coordinate of cell `(x, y, z)`.
pub open spec fn slice_u(f: Face, x: int, y: int, z: int) -> int {
    if spec_axis(f) == 0 {
        y
    } else {
        x
    }
}

/// The second in-slice coordinate of cell `(x, y, z)`.
pub open spec fn slice_v(f: Face, x: int, y: int, z: int) -> int {
    if spec_axis(f) == 2 {
        y
    } else {
        z
    }
}

/// Whether the face `f` of the cell at `(i, j)` of slice `c` is exposed.
pub open spec fn slice_exposed<V: Voxel>(
    cells: Seq<V>,
    nb: Seq<Option<Seq<V>>>,
    f: Face,
    c: int,
    i: int,
    j: int,
) -> bool {
    let p = slice_cell(f, c, i, j);
    exposed(cells, nb, p.0, p.1, p.2, f)
}

/// The voxel at `(i, j)` of slice `c`.
pub open spec fn slice_voxel<V>(cells: Seq<V>, f: Face, c: int, i: int, j: int) -> V {
    let p = slice_cell(f, c, i, j);
    cells[cell_index(p.0, p.1, p.2)]
}

/// Whether `(i, j)` is marked in a slice mask.
pub open spec fn masked(m: Seq<bool>, i: int, j: int) -> bool {
    m[j * 16 + i]
}

/// Whether the cell at `(i, j)` may join a quad of voxel `v`: unmarked, exposed and
/// of kind `v`.
pub open spec fn open_cell<V: Voxel>(
    cells: Seq<V>,
    nb: Seq<Option<Seq<V>>>,
    m: Seq<bool>,
    f: Face,
    c: int,
    i: int,
    j: int,
    v: V,
) -> bool {
    !masked(m, i, j) && slice_exposed(cells, nb, f, c, i, j) && slice_voxel(cells, f, c, i, j) == v
}

/// Quad `q` is the `w` by `h` rectangle at `(i, j)` of slice `c`.
pub open spec fn is_rect_quad(q: Quad, f: Face, c: int, i: int, j: int, w: int, h: int) -> bool {
    q.face == f && (q.min[0] as int, q.min[1] as int, q.min[2] as int) == slice_cell(f, c, i, j) && (
    q.max[0] as int, q.max[1] as int, q.max[2] as int) == slice_cell(f, c + 1, i + w, j + h)
}

proof fn lemma_rect_covers(
    q: Quad,
    f: Face,
    c: int,
    i: int,
    j: int,
    w: int,
    h: int,
    x: int,
    y: int,
    z: int,
    g: Face,
)
    requires
        0 <= c < 16,
        0 <= i && 0 < w && i + w <= 16,
        0 <= j && 0 < h && j + h <= 16,
        is_rect_quad(q, f, c, i, j, w, h),
    ensures
        covers(q, x, y, z, g) <==> (g == f && slice_of(f, x, y, z)
            == c && i <= slice_u(f, x, y, z) < i + w && j <= slice_v(f, x, y, z) < j + h),
        slice_cell(f, slice_of(f, x, y, z), slice_u(f, x, y, z), slice_v(f, x, y, z)) == (x, y, z),
{
}

proof fn lemma_slice_inverse(f: Face, x: int, y: int, z: int)
    ensures
        slice_cell(f, slice_of(f, x, y, z), slice_u(f, x, y, z), slice_v(f, x, y, z)) == (x, y, z),
{
}

/// The coordinate of the cell at `(i, j)` of slice `c`.
fn slice_pos(face: Face, c: u8, i: u8, j: u8) -> (r: [u8; 3])
    ensures
        (r[0] as int, r[1] as int, r[2] as int) == slice_cell(face, c as int, i as int, j as int),
{
    match face {
        Face::Left | Face::Right => [c, i, j],
        Face::Bottom | Face::Top => [i, c, j],
        Face::Back | Face::Front => [i, j, c],
    }
}

/// Marks the `w` by `h` rectangle at `(i, j)` in a slice mask.
fn mark_rect(mask: &mut Vec<bool>, i: u8, j: u8, w: u8, h: u8)
    requires
        old(mask)@.len() == 256,
        i + w <= 16,
        j + h <= 16,
    ensures
        final(mask)@.len() == 256,
        forall|a: int, b: int|
            0 <= a < 16 && 0 <= b < 16 ==> #[trigger] masked(final(mask)@, a, b) == (masked(
                old(mask)@,
                a,
                b,
            ) || (i <= a < i + w && j <= b < j + h)),
{
    let ghost m0 = mask@;
    let mut hh: u8 = 0;
    while hh < h
        invariant
            0 <= hh <= h,
            i + w <= 16,
            j + h <= 16,
            mask@.len() == 256,
            forall|a: int, b: int|
                0 <= a < 16 && 0 <= b < 16 ==> #[trigger] masked(mask@, a, b) == (masked(m0, a, b)
                    || (i <= a < i + w && j <= b < j + hh)),
        decreases h - hh,
    {
        let mut ww: u8 = 0;
        while ww < w
            invariant
                0 <= hh < h,
                0 <= ww <= w,
                i + w <= 16,
                j + h <= 16,
                mask@.len() == 256,
                forall|a: int, b: int|
                    0 <= a < 16 && 0 <= b < 16 ==> #[trigger] masked(mask@, a, b) == (masked(
                        m0,
                        a,
                        b,
                    ) || (i <= a < i + w && j <= b < j + hh) || (b == j + hh && i <= a < i + ww)),
            decreases w - ww,
        {
            let idx = (j + hh) as usize * 16 + (i + ww) as usize;
            let ghost before = mask@;
            mask.set(idx, true);
            proof {
                assert forall|a: int, b: int| 0 <= a < 16 && 0 <= b < 16 implies #[trigger] masked(
                    mask@,
                    a,
                    b,
                ) == (masked(m0, a, b) || (i <= a < i + w && j <= b < j + hh) || (b == j + hh && i
                    <= a < i + ww + 1)) by {
                    assert(masked(before, a, b) == before[b * 16 + a]);
                    if b * 16 + a == idx {
                        assert(b == j + hh && a == i + ww);
                    }
                }
            }
            ww += 1;
        }
        hh += 1;
    }
}

/// No quad holds a face looking in direction `f` in slice `c`.
pub open spec fn slice_untouched(qs: Seq<Quad>, f: Face, c: int) -> bool {
    forall|k: int, x: int, y: int, z: int|
        0 <= k < qs.len() && #[trigger] covers(qs[k], x, y, z, f) ==> slice_of(f, x, y, z) != c
}

/// Whether quad `q` holds face `f` of the cell at `(a, b)` of slice `c`.
pub open spec fn covers_cell(q: Quad, f: Face, c: int, a: int, b: int) -> bool {
    let p = slice_cell(f, c, a, b);
    covers(q, p.0, p.1, p.2, f)
}

/// Whether the cell at `(a, b)` of slice `c` may still join a quad of voxel `v` once
/// the quads `pre` are placed: exposed, of kind `v`, and held by none of them.
pub open spec fn free_after<V: Voxel>(
    cells: Seq<V>,
    nb: Seq<Option<Seq<V>>>,
    pre: Seq<Quad>,
    f: Face,
    c: int,
    a: int,
    b: int,
    v: V,
) -> bool {
    &&& slice_exposed(cells, nb, f, c, a, b)
    &&& slice_voxel(cells, f, c, a, b) == v
    &&& !exists|k: int| 0 <= k < pre.len() && #[trigger] covers_cell(pre[k], f, c, a, b)
}

/// Quad `q`, placed after the quads `pre`, is the greedy choice in its slice: it is
/// a rectangle of the slice that starts at the first exposed cell, in row-by-row
/// scan order, that `pre` leaves uncovered; its width cannot grow by the next cell
/// of its row, and its height cannot grow by the next row within its width.
pub open spec fn greedy_choice<V: Voxel>(
    cells: Seq<V>,
    nb: Seq<Option<Seq<V>>>,
    pre: Seq<Quad>,
    q: Quad,
) -> bool {
    let f = q.face;
    let c = slice_of(f, q.min[0] as int, q.min[1] as int, q.min[2] as int);
    let i = slice_u(f, q.min[0] as int, q.min[1] as int, q.min[2] as int);
    let j = slice_v(f, q.min[0] as int, q.min[1] as int, q.min[2] as int);
    let w = slice_u(f, q.max[0] as int, q.max[1] as int, q.max[2] as int) - i;
    let h = slice_v(f, q.max[0] as int, q.max[1] as int, q.max[2] as int) - j;
    let v = slice_voxel(cells, f, c, i, j);
    &&& 0 <= c < 16 && 0 <= i && 0 < w && i + w <= 16 && 0 <= j && 0 < h && j + h <= 16
    &&& is_rect_quad(q, f, c, i, j, w, h)
    &&& forall|a: int, b: int|
        0 <= a < 16 && 0 <= b < 16 && b * 16 + a < j * 16 + i && #[trigger] slice_exposed(
            cells,
            nb,
            f,
            c,
            a,
            b,
        ) ==> exists|k: int| 0 <= k < pre.len() && #[trigger] covers_cell(pre[k], f, c, a, b)
    &&& (i + w == 16 || !free_after(cells, nb, pre, f, c, i + w, j, v))
    &&& (j + h == 16 || exists|a: int|
        i <= a < i + w && !#[trigger] free_after(cells, nb, pre, f, c, a, j + h, v))
}

proof fn lemma_slice_coords(f: Face, c: int, i: int, j: int)
    ensures
        ({
            let p = slice_cell(f, c, i, j);
            slice_of(f, p.0, p.1, p.2) == c && slice_u(f, p.0, p.1, p.2) == i && slice_v(
                f,
                p.0,
                p.1,
                p.2,
            ) == j
        }),
{
}

impl<V: Voxel> Chunk<V> {
    /// Whether the cell at `(i, j)` of slice `c` may join a quad of voxel `voxel`.
    fn open_at(
        &self,
        face: Face,
        c: u8,
        i: u8,
        j: u8,
        voxel: &V,
        neighbors: &[Option<&Chunk<V>>; 6],
        mask: &Vec<bool>,
    ) -> (r: bool)
        requires
            self.wf(),
            neighbors_wf(*neighbors),
            c < 16 && i < 16 && j < 16,
            mask@.len() == 256,
        ensures
            r == open_cell(
                self@,
                neighbor_views(*neighbors),
                mask@,
                face,
                c as int,
                i as int,
                j as int,
                *voxel,
            ),
    {
        if mask[j as usize * 16 + i as usize] {
            return false;
        }
        let p = slice_pos(face, c, i, j);
        let v = self.get(p);
        if !same_voxel(v, voxel) || !v.is_opaque() {
            return false;
        }
        !self.cull_face(p, face, neighbors)
    }

    /// Whether the cells `i .. i + w` of row `j` of slice `c` may all join a quad of
    /// voxel `voxel`.
    fn row_open(
        &self,
        face: Face,
        c: u8,
        i: u8,
        w: u8,
        j: u8,
        voxel: &V,
        neighbors: &[Option<&Chunk<V>>; 6],
        mask: &Vec<bool>,
    ) -> (r: bool)
        requires
            self.wf(),
            neighbors_wf(*neighbors),
            c < 16 && j < 16 && i + w <= 16,
            mask@.len() == 256,
        ensures
            r == forall|a: int|
                i <= a < i + w ==> #[trigger] open_cell(
                    self@,
                    neighbor_views(*neighbors),
                    mask@,
                    face,
                    c as int,
                    a,
                    j as int,
                    *voxel,
                ),
    {
        let mut k: u8 = 0;
        while k < w
            invariant
                0 <= k <= w,
                i + w <= 16,
                self.wf(),
                neighbors_wf(*neighbors),
                c < 16 && j < 16,
                mask@.len() == 256,
                forall|a: int|
                    i <= a < i + k ==> #[trigger] open_cell(
                        self@,
                        neighbor_views(*neighbors),
                        mask@,
                        face,
                        c as int,
                        a,
                        j as int,
                        *voxel,
                    ),
            decreases w - k,
        {
            if !self.open_at(face, c, i + k, j, voxel, neighbors, mask) {
                return false;
            }
            k += 1;
        }
        true
    }

    /// Greedy quads of slice `c` for faces looking in direction `face`: scanning the
    /// slice row by row, each unmarked exposed cell starts a quad that grows along
    /// the row over unmarked exposed cells of the same kind, then row by row while a
    /// whole row of its width qualifies; the quad's cells are then marked.
    fn greedy_slice(
        &self,
        face: Face,
        c: u8,
        neighbors: &[Option<&Chunk<V>>; 6],
        quads: &mut Vec<Quad>,
    )
        requires
            self.wf(),
            neighbors_wf(*neighbors),
            c < 16,
            quads_sound(self@, neighbor_views(*neighbors), old(quads)@),
            quads_disjoint(old(quads)@),
            slice_untouched(old(quads)@, face, c as int),
            forall|k: int| 0 <= k < old(quads)@.len() ==> quad_nonempty(#[trigger] old(quads)@[k]),
        ensures
            forall|k: int| 0 <= k < final(quads)@.len() ==> quad_nonempty(#[trigger] final(quads)@[k]),
            forall|k: int|
                old(quads)@.len() <= k < final(quads)@.len() ==> greedy_choice(
                    self@,
                    neighbor_views(*neighbors),
                    final(quads)@.subrange(0, k),
                    #[trigger] final(quads)@[k],
                ),
            old(quads)@.len() <= final(quads)@.len() <= old(quads)@.len() + 256,
            final(quads)@.subrange(0, old(quads)@.len() as int) == old(quads)@,
            quads_sound(self@, neighbor_views(*neighbors), final(quads)@),
            quads_disjoint(final(quads)@),
            forall|k: int, x: int, y: int, z: int, g: Face|
                old(quads)@.len() <= k < final(quads)@.len() && #[trigger] covers(
                    final(quads)@[k],
                    x,
                    y,
                    z,
                    g,
                ) ==> g == face && slice_of(face, x, y, z) == c,
            forall|a: int, b: int|
                0 <= a < 16 && 0 <= b < 16 && #[trigger] slice_exposed(
                    self@,
                    neighbor_views(*neighbors),
                    face,
                    c as int,
                    a,
                    b,
                ) ==> exists|k: int|
                    0 <= k < final(quads)@.len() && #[trigger] covers_cell(
                        final(quads)@[k],
                        face,
                        c as int,
                        a,
                        b,
                    ),
    {
        let ghost cells = self@;
        let ghost nbv = neighbor_views(*neighbors);
        let ghost q0 = quads@;
        let ghost n0 = q0.len();
        let mut mask: Vec<bool> = Vec::new();
        let mut t: usize = 0;
        while t < 256
            invariant
                0 <= t <= 256,
                mask@.len() == t,
                forall|k: int| 0 <= k < t ==> !#[trigger] mask@[k],
            decreases 256 - t,
        {
            mask.push(false);
            t += 1;
        }
        let mut s: usize = 0;
        while s < 256
            invariant
                0 <= s <= 256,
                self.wf(),
                neighbors_wf(*neighbors),
                c < 16,
                cells == self@,
                nbv == neighbor_views(*neighbors),
                mask@.len() == 256,
                n0 == q0.len(),
                n0 <= quads@.len() <= n0 + s,
                quads@.subrange(0, n0 as int) == q0,
                slice_untouched(q0, face, c as int),
                forall|k: int| 0 <= k < quads@.len() ==> quad_nonempty(#[trigger] quads@[k]),
                forall|k: int|
                    n0 <= k < quads@.len() ==> greedy_choice(
                        cells,
                        nbv,
                        quads@.subrange(0, k),
                        #[trigger] quads@[k],
                    ),
                quads_sound(cells, nbv, quads@),
                quads_disjoint(quads@),
                forall|k: int, x: int, y: int, z: int, g: Face|
                    n0 <= k < quads@.len() && #[trigger] covers(quads@[k], x, y, z, g) ==> g == face
                        && slice_of(face, x, y, z) == c,
                forall|a: int, b: int|
                    0 <= a < 16 && 0 <= b < 16 ==> (#[trigger] masked(mask@, a, b) <==> exists|k: int|
                        n0 <= k < quads@.len() && #[trigger] covers_cell(quads@[k], face, c as int, a, b)),
                forall|a: int, b: int|
                    0 <= a < 16 && 0 <= b < 16 && b * 16 + a < s && #[trigger] slice_exposed(
                        cells,
                        nbv,
                        face,
                        c as int,
                        a,
                        b,
                    ) ==> masked(mask@, a, b),
            decreases 256 - s,
        {
            let i: u8 = (s % 16) as u8;
            let j: u8 = (s / 16) as u8;
            proof {
                assert(j as int * 16 + i as int == s) by (nonlinear_arith)
                    requires
                        i == s % 16,
                        j == s / 16,
                ;
                assert(masked(mask@, i as int, j as int) == mask@[s as int]);
            }
            if !mask[s] {
                let p = slice_pos(face, c, i, j);
                let voxel = *self.get(p);
                if voxel.is_opaque() && !self.cull_face(p, face, neighbors) {
                    let ghost before = quads@;
                    self.add_rect(face, c, i, j, voxel, neighbors, &mut mask, quads, Ghost(n0 as int));
                    proof {
                        assert(quads@.subrange(0, before.len() as int) =~= before);
                        assert forall|k: int|
                            n0 <= k < quads@.len() implies greedy_choice(
                            cells,
                            nbv,
                            quads@.subrange(0, k),
                            #[trigger] quads@[k],
                        ) by {
                            if k < before.len() {
                                assert(quads@[k] == before[k]);
                                assert(quads@.subrange(0, k) =~= before.subrange(0, k));
                            }
                        }
                    }
                }
            }
            s += 1;
        }
        proof {
            assert forall|a: int, b: int|
                0 <= a < 16 && 0 <= b < 16 && #[trigger] slice_exposed(
                    cells,
                    nbv,
                    face,
                    c as int,
                    a,
                    b,
                ) implies exists|k: int|
                    0 <= k < quads@.len() && #[trigger] covers_cell(quads@[k], face, c as int, a, b) by {
                assert(masked(mask@, a, b));
            }
        }
    }

    /// Grows the quad that starts at the open cell `(i, j)` of slice `c`, marks it and
    /// appends it. `n0` is where this slice's quads begin in `quads`.
    #[verifier::rlimit(40)]
    fn add_rect(
        &self,
        face: Face,
        c: u8,
        i: u8,
        j: u8,
        voxel: V,
        neighbors: &[Option<&Chunk<V>>; 6],
        mask: &mut Vec<bool>,
        quads: &mut Vec<Quad>,
        Ghost(n0): Ghost<int>,
    )
        requires
            self.wf(),
            neighbors_wf(*neighbors),
            c < 16 && i < 16 && j < 16,
            old(mask)@.len() == 256,
            0 <= n0 <= old(quads)@.len(),
            open_cell(self@, neighbor_views(*neighbors), old(mask)@, face, c as int, i as int, j as int, voxel),
            slice_untouched(old(quads)@.subrange(0, n0), face, c as int),
            quads_sound(self@, neighbor_views(*neighbors), old(quads)@),
            quads_disjoint(old(quads)@),
            forall|k: int, x: int, y: int, z: int, g: Face|
                n0 <= k < old(quads)@.len() && #[trigger] covers(old(quads)@[k], x, y, z, g) ==> g == face
                    && slice_of(face, x, y, z) == c,
            forall|a: int, b: int|
                0 <= a < 16 && 0 <= b < 16 ==> (#[trigger] masked(old(mask)@, a, b) <==> exists|k: int|
                    n0 <= k < old(quads)@.len() && #[trigger] covers_cell(old(quads)@[k], face, c as int, a, b)),
            forall|k: int| 0 <= k < old(quads)@.len() ==> quad_nonempty(#[trigger] old(quads)@[k]),
            forall|a: int, b: int|
                0 <= a < 16 && 0 <= b < 16 && b * 16 + a < j * 16 + i && #[trigger] slice_exposed(
                    self@,
                    neighbor_views(*neighbors),
                    face,
                    c as int,
                    a,
                    b,
                ) ==> masked(old(mask)@, a, b),
        ensures
            forall|k: int| 0 <= k < final(quads)@.len() ==> quad_nonempty(#[trigger] final(quads)@[k]),
            greedy_choice(self@, neighbor_views(*neighbors), old(quads)@, final(quads)@[old(quads)@.len() as int]),
            final(mask)@.len() == 256,
            final(quads)@.len() == old(quads)@.len() + 1,
            final(quads)@.subrange(0, old(quads)@.len() as int) == old(quads)@,
            quads_sound(self@, neighbor_views(*neighbors), final(quads)@),
            quads_disjoint(final(quads)@),
            forall|k: int, x: int, y: int, z: int, g: Face|
                n0 <= k < final(quads)@.len() && #[trigger] covers(final(quads)@[k], x, y, z, g) ==> g == face
                    && slice_of(face, x, y, z) == c,
            forall|a: int, b: int|
                0 <= a < 16 && 0 <= b < 16 ==> (#[trigger] masked(final(mask)@, a, b) <==> exists|k: int|
                    n0 <= k < final(quads)@.len() && #[trigger] covers_cell(final(quads)@[k], face, c as int, a, b)),
            masked(final(mask)@, i as int, j as int),
            forall|a: int, b: int|
                0 <= a < 16 && 0 <= b < 16 && masked(old(mask)@, a, b) ==> #[trigger] masked(final(mask)@, a, b),
    {
        let ghost cells = self@;
        let ghost nbv = neighbor_views(*neighbors);
        let ghost m0 = mask@;
        let ghost qs0 = quads@;
        let mut w: u8 = 1;
        while i + w < 16 && self.open_at(face, c, i + w, j, &voxel, neighbors, mask)
            invariant
                self.wf(),
                neighbors_wf(*neighbors),
                c < 16 && i < 16 && j < 16,
                mask@ == m0,
                m0.len() == 256,
                1 <= w && i + w <= 16,
                forall|a: int|
                    i <= a < i + w ==> #[trigger] open_cell(cells, nbv, m0, face, c as int, a, j as int, voxel),
                cells == self@,
                nbv == neighbor_views(*neighbors),
            decreases 16 - w,
        {
            w += 1;
        }
        let mut h: u8 = 1;
        while j + h < 16 && self.row_open(face, c, i, w, j + h, &voxel, neighbors, mask)
            invariant
                self.wf(),
                neighbors_wf(*neighbors),
                c < 16 && i < 16 && j < 16,
                mask@ == m0,
                m0.len() == 256,
                1 <= w && i + w <= 16,
                1 <= h && j + h <= 16,
                forall|a: int, b: int|
                    i <= a < i + w && j <= b < j + h ==> #[trigger] open_cell(
                        cells,
                        nbv,
                        m0,
                        face,
                        c as int,
                        a,
                        b,
                        voxel,
                    ),
                cells == self@,
                nbv == neighbor_views(*neighbors),
            decreases 16 - h,
        {
            h += 1;
        }
        mark_rect(mask, i, j, w, h);
        let mn = slice_pos(face, c, i, j);
        let mx = slice_pos(face, c + 1, i + w, j + h);
        let raw = voxel.raw();
        let q = Quad { face, min: mn, max: mx, raw };
        quads.push(q);
        proof {
            let (ii, jj, ww, hh) = (i as int, j as int, w as int, h as int);
            let n = qs0.len() as int;
            assert(is_rect_quad(q, face, c as int, ii, jj, ww, hh));
            assert(quad_nonempty(q));
            // the greedy choice, read off the loops' exits
            lemma_slice_coords(face, c as int, ii, jj);
            lemma_slice_coords(face, c as int + 1, ii + ww, jj + hh);
            assert(slice_voxel(cells, face, c as int, ii, jj) == voxel);
            assert forall|a: int, b: int| 0 <= a < 16 && 0 <= b < 16 implies #[trigger] free_after(
                cells,
                nbv,
                qs0,
                face,
                c as int,
                a,
                b,
                voxel,
            ) == open_cell(cells, nbv, m0, face, c as int, a, b, voxel) by {
                if exists|k: int| 0 <= k < qs0.len() && #[trigger] covers_cell(qs0[k], face, c as int, a, b) {
                    let k = choose|k: int| 0 <= k < qs0.len() && #[trigger] covers_cell(qs0[k], face, c as int, a, b);
                    lemma_slice_coords(face, c as int, a, b);
                    if k < n0 {
                        assert(qs0.subrange(0, n0)[k] == qs0[k]);
                        let p = slice_cell(face, c as int, a, b);
                        assert(covers(qs0.subrange(0, n0)[k], p.0, p.1, p.2, face));
                    } else {
                        assert(masked(m0, a, b));
                    }
                }
                if masked(m0, a, b) {
                    let k = choose|k: int| n0 <= k < qs0.len() && #[trigger] covers_cell(qs0[k], face, c as int, a, b);
                }
            }
            assert(ii + ww == 16 || !open_cell(cells, nbv, m0, face, c as int, ii + ww, jj, voxel));
            if jj + hh < 16 {
                let a = choose|a: int| ii <= a < ii + ww && !#[trigger] open_cell(cells, nbv, m0, face, c as int, a, jj + hh, voxel);
                assert(!free_after(cells, nbv, qs0, face, c as int, a, jj + hh, voxel));
            }
            assert forall|a: int, b: int|
                0 <= a < 16 && 0 <= b < 16 && b * 16 + a < jj * 16 + ii && #[trigger] slice_exposed(
                    cells,
                    nbv,
                    face,
                    c as int,
                    a,
                    b,
                ) implies exists|k: int| 0 <= k < qs0.len() && #[trigger] covers_cell(qs0[k], face, c as int, a, b) by {
                assert(masked(m0, a, b));
            }
            assert(greedy_choice(cells, nbv, qs0, q));
            assert(quads@[n] == q);
            V::lemma_raw(voxel, voxel);
            assert forall|k: int| 0 <= k < n implies #[trigger] quads@[k] == qs0[k] by {}
            assert(quads@.subrange(0, n) =~= qs0);
            // the quad holds exactly the rectangle, all of whose cells were open
            assert forall|x: int, y: int, z: int, g: Face| #[trigger] covers(q, x, y, z, g) implies g == face
                && slice_of(face, x, y, z) == c && open_cell(
                    cells,
                    nbv,
                    m0,
                    face,
                    c as int,
                    slice_u(face, x, y, z),
                    slice_v(face, x, y, z),
                    voxel,
                ) by {
                lemma_rect_covers(q, face, c as int, ii, jj, ww, hh, x, y, z, g);
            }
            assert forall|k: int, x: int, y: int, z: int, f: Face|
                0 <= k < quads@.len() && #[trigger] covers(quads@[k], x, y, z, f) implies exposed(
                    cells,
                    nbv,
                    x,
                    y,
                    z,
                    f,
                ) && cells[cell_index(x, y, z)].spec_raw() == quads@[k].raw by {
                if k == n {
                    lemma_rect_covers(q, face, c as int, ii, jj, ww, hh, x, y, z, f);
                    let a = slice_u(face, x, y, z);
                    let b = slice_v(face, x, y, z);
                    assert(open_cell(cells, nbv, m0, face, c as int, a, b, voxel));
                } else {
                    assert(quads@[k] == qs0[k]);
                }
            }
            assert forall|k1: int, k2: int, x: int, y: int, z: int, f: Face|
                0 <= k1 < k2 < quads@.len() && #[trigger] covers(quads@[k1], x, y, z, f) implies !#[trigger] covers(
                    quads@[k2],
                    x,
                    y,
                    z,
                    f,
                ) by {
                assert(quads@[k1] == qs0[k1]);
                if k2 == n && covers(q, x, y, z, f) {
                    lemma_rect_covers(q, face, c as int, ii, jj, ww, hh, x, y, z, f);
                    let a = slice_u(face, x, y, z);
                    let b = slice_v(face, x, y, z);
                    assert(open_cell(cells, nbv, m0, face, c as int, a, b, voxel));
                    if k1 < n0 {
                        assert(qs0.subrange(0, n0)[k1] == qs0[k1]);
                        assert(covers(qs0.subrange(0, n0)[k1], x, y, z, face));
                    } else {
                        assert(covers_cell(qs0[k1], face, c as int, a, b));
                        assert(masked(m0, a, b));
                    }
                } else if k2 < n {
                    assert(quads@[k2] == qs0[k2]);
                }
            }
            assert forall|k: int, x: int, y: int, z: int, g: Face|
                n0 <= k < quads@.len() && #[trigger] covers(quads@[k], x, y, z, g) implies g == face
                    && slice_of(face, x, y, z) == c by {
                if k < n {
                    assert(quads@[k] == qs0[k]);
                }
            }
            assert forall|a: int, b: int|
                0 <= a < 16 && 0 <= b < 16 implies (#[trigger] masked(mask@, a, b) <==> exists|k: int|
                    n0 <= k < quads@.len() && #[trigger] covers_cell(quads@[k], face, c as int, a, b)) by {
                let p = slice_cell(face, c as int, a, b);
                lemma_rect_covers(q, face, c as int, ii, jj, ww, hh, p.0, p.1, p.2, face);
                if masked(mask@, a, b) {
                    if masked(m0, a, b) {
                        let k = choose|k: int| n0 <= k < qs0.len() && #[trigger] covers_cell(qs0[k], face, c as int, a, b);
                        assert(quads@[k] == qs0[k]);
                        assert(covers_cell(quads@[k], face, c as int, a, b));
                    } else {
                        assert(covers_cell(quads@[n], face, c as int, a, b));
                    }
                }
                if exists|k: int| n0 <= k < quads@.len() && #[trigger] covers_cell(quads@[k], face, c as int, a, b) {
                    let k = choose|k: int| n0 <= k < quads@.len() && #[trigger] covers_cell(quads@[k], face, c as int, a, b);
                    if k < n {
                        assert(quads@[k] == qs0[k]);
                        assert(covers_cell(qs0[k], face, c as int, a, b));
                    }
                }
            }
        }
    }

    /// Greedy quads for every face direction and slice: each exposed face is held by
    /// exactly one quad, and each quad shows one voxel kind.
    pub fn greedy_quads(&self, neighbors: &[Option<&Chunk<V>>; 6]) -> (r: Vec<Quad>)
        requires
            self.wf(),
            neighbors_wf(*neighbors),
        ensures
            quads_cover_exposed(self@, neighbor_views(*neighbors), r@),
            forall|k: int| 0 <= k < r@.len() ==> quad_nonempty(#[trigger] r@[k]),
            forall|k: int|
                0 <= k < r@.len() ==> greedy_choice(
                    self@,
                    neighbor_views(*neighbors),
                    r@.subrange(0, k),
                    #[trigger] r@[k],
                ),
            r@.len() <= 24576,
    {
        let ghost cells = self@;
        let ghost nbv = neighbor_views(*neighbors);
        let faces = Face::all();
        let mut quads: Vec<Quad> = Vec::new();
        let mut t: usize = 0;
        while t < 96
            invariant
                0 <= t <= 96,
                self.wf(),
                neighbors_wf(*neighbors),
                cells == self@,
                nbv == neighbor_views(*neighbors),
                forall|i: int| 0 <= i < 6 ==> spec_index(#[trigger] faces[i]) == i,
                quads@.len() <= 256 * t,
                forall|k: int| 0 <= k < quads@.len() ==> quad_nonempty(#[trigger] quads@[k]),
                forall|k: int|
                    0 <= k < quads@.len() ==> greedy_choice(
                        cells,
                        nbv,
                        quads@.subrange(0, k),
                        #[trigger] quads@[k],
                    ),
                quads_sound(cells, nbv, quads@),
                quads_disjoint(quads@),
                forall|k: int, x: int, y: int, z: int, g: Face|
                    0 <= k < quads@.len() && #[trigger] covers(quads@[k], x, y, z, g) ==> spec_index(g)
                        * 16 + slice_of(g, x, y, z) < t,
                forall|x: int, y: int, z: int, g: Face|
                    #[trigger] exposed(cells, nbv, x, y, z, g) && spec_index(g) * 16 + slice_of(
                        g,
                        x,
                        y,
                        z,
                    ) < t ==> exists|k: int| 0 <= k < quads@.len() && #[trigger] covers(quads@[k], x, y, z, g),
            decreases 96 - t,
        {
            let fi: usize = t / 16;
            let c: u8 = (t % 16) as u8;
            let face = faces[fi];
            proof {
                assert(fi as int * 16 + c as int == t) by (nonlinear_arith)
                    requires
                        fi == t / 16,
                        c == t % 16,
                ;
                assert(spec_index(face) == fi);
            }
            let ghost q0 = quads@;
            self.greedy_slice(face, c, neighbors, &mut quads);
            proof {
                assert forall|k: int| 0 <= k < q0.len() implies #[trigger] quads@[k] == q0[k] by {
                    assert(quads@.subrange(0, q0.len() as int)[k] == q0[k]);
                }
                assert forall|k: int|
                    0 <= k < quads@.len() implies greedy_choice(
                    cells,
                    nbv,
                    quads@.subrange(0, k),
                    #[trigger] quads@[k],
                ) by {
                    if k < q0.len() {
                        assert(quads@[k] == q0[k]);
                        assert(quads@.subrange(0, k) =~= q0.subrange(0, k));
                    }
                }
                assert forall|k: int, x: int, y: int, z: int, g: Face|
                    0 <= k < quads@.len() && #[trigger] covers(quads@[k], x, y, z, g) implies spec_index(g)
                        * 16 + slice_of(g, x, y, z) < t + 1 by {
                    if k < q0.len() {
                        assert(covers(q0[k], x, y, z, g));
                    }
                }
                assert forall|x: int, y: int, z: int, g: Face|
                    #[trigger] exposed(cells, nbv, x, y, z, g) && spec_index(g) * 16 + slice_of(
                        g,
                        x,
                        y,
                        z,
                    ) < t + 1 implies exists|k: int| 0 <= k < quads@.len() && #[trigger] covers(quads@[k], x, y, z, g) by {
                    if spec_index(g) * 16 + slice_of(g, x, y, z) < t {
                        let k = choose|k: int| 0 <= k < q0.len() && #[trigger] covers(q0[k], x, y, z, g);
                        assert(covers(quads@[k], x, y, z, g));
                    } else {
                        lemma_slice_inverse(g, x, y, z);
                        assert(g == face);
                        let a = slice_u(g, x, y, z);
                        let b = slice_v(g, x, y, z);
                        assert(slice_exposed(cells, nbv, face, c as int, a, b));
                        let k = choose|k: int| 0 <= k < quads@.len() && #[trigger] covers_cell(quads@[k], face, c as int, a, b);
                        assert(covers(quads@[k], x, y, z, g));
                    }
                }
            }
            t += 1;
        }
        proof {
            assert forall|x: int, y: int, z: int, g: Face|
                #[trigger] exposed(cells, nbv, x, y, z, g) implies exists|k: int|
                    0 <= k < quads@.len() && #[trigger] covers(quads@[k], x, y, z, g) by {
                assert(spec_index(g) * 16 + slice_of(g, x, y, z) < 96);
            }
        }
        quads
    }
}

} // verus!
