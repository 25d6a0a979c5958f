use vstd::prelude::*;

use crate::chunk::{cell_index, in_chunk, pos_index, Chunk, CHUNK_WIDTH};
use crate::face::{spec_atlas_row, spec_index, spec_normal, spec_positions, spec_step, Face};
use crate::voxel::Voxel;

verus! {

/// Whether `n` is a local coordinate inside a chunk.
pub open spec fn in_range(n: int) -> bool {
    0 <= n < CHUNK_WIDTH
}

/// The local coordinate in the adjacent chunk of a coordinate one step outside.
pub open spec fn wrap(n: int) -> int {
    if n < 0 {
        n + CHUNK_WIDTH
    } else if n >= CHUNK_WIDTH {
        n - CHUNK_WIDTH
    } else {
        n
    }
}

/// The cells of the present neighbour chunks, by face slot.
pub open spec fn neighbor_views<V>(nb: [Option<&Chunk<V>>; 6]) -> Seq<Option<Seq<V>>> {
    Seq::new(
        6,
        |i: int|
            match nb[i] {
                Some(c) => Some(c@),
                None => None,
            },
    )
}

/// Every present neighbour chunk is well formed.
pub open spec fn neighbors_wf<V>(nb: [Option<&Chunk<V>>; 6]) -> bool {
    forall|i: int| 0 <= i < 6 ==> (#[trigger] nb[i] is Some) ==> nb[i]->0.wf()
}

/// Whether face `f` of cell `(x, y, z)` is covered by an opaque cell: in the same
/// chunk, or across the boundary in the neighbour chunk of that direction. A missing
/// neighbour leaves the boundary open.
pub open spec fn face_hidden<V: Voxel>(
    cells: Seq<V>,
    nb: Seq<Option<Seq<V>>>,
    x: int,
    y: int,
    z: int,
    f: Face,
) -> bool {
    let nx = x + spec_step(f, 0);
    let ny = y + spec_step(f, 1);
    let nz = z + spec_step(f, 2);
    if in_range(nx) && in_range(ny) && in_range(nz) {
        cells[cell_index(nx, ny, nz)].spec_is_opaque()
    } else {
        match nb[spec_index(f)] {
            Some(n) => n[cell_index(wrap(nx), wrap(ny), wrap(nz))].spec_is_opaque(),
            None => false,
        }
    }
}

/// Whether face `f` of cell `(x, y, z)` is drawn: the cell is opaque and the face is
/// not hidden.
pub open spec fn exposed<V: Voxel>(
    cells: Seq<V>,
    nb: Seq<Option<Seq<V>>>,
    x: int,
    y: int,
    z: int,
    f: Face,
) -> bool {
    in_range(x) && in_range(y) && in_range(z) && cells[cell_index(x, y, z)].spec_is_opaque()
        && !face_hidden(cells, nb, x, y, z, f)
}

/// An axis-aligned rectangle of voxel faces that all look in direction `face`: the
/// faces of the cells in the box `min..max`, which is one cell thick along the
/// face's axis. `raw` is the id of the voxel kind that it shows.
#[derive(Clone, Copy, Debug, PartialEq, Eq)]
pub struct Quad {
    pub face: Face,
    pub min: [u8; 3],
    pub max: [u8; 3],
    pub raw: u32,
}

/// Whether quad `q` holds face `f` of cell `(x, y, z)`.
pub open spec fn covers(q: Quad, x: int, y: int, z: int, f: Face) -> bool {
    q.face == f && q.min[0] <= x < q.max[0] && q.min[1] <= y < q.max[1] && q.min[2] <= z
        < q.max[2]
}

/// Every face a quad list holds is exposed and shows its cell's voxel kind.
pub open spec fn quads_sound<V: Voxel>(
    cells: Seq<V>,
    nb: Seq<Option<Seq<V>>>,
    qs: Seq<Quad>,
) -> bool {
    forall|k: int, x: int, y: int, z: int, f: Face|
        0 <= k < qs.len() && #[trigger] covers(qs[k], x, y, z, f) ==> exposed(
            cells,
            nb,
            x,
            y,
            z,
            f,
        ) && cells[cell_index(x, y, z)].spec_raw() == qs[k].raw
}

/// Every exposed face is held by some quad.
pub open spec fn quads_complete<V: Voxel>(
    cells: Seq<V>,
    nb: Seq<Option<Seq<V>>>,
    qs: Seq<Quad>,
) -> bool {
    forall|x: int, y: int, z: int, f: Face|
        #[trigger] exposed(cells, nb, x, y, z, f) ==> exists|k: int|
            0 <= k < qs.len() && #[trigger] covers(qs[k], x, y, z, f)
}

/// No face is held by two quads.
pub open spec fn quads_disjoint(qs: Seq<Quad>) -> bool {
    forall|k1: int, k2: int, x: int, y: int, z: int, f: Face|
        0 <= k1 < k2 < qs.len() && #[trigger] covers(qs[k1], x, y, z, f) ==> !#[trigger] covers(
            qs[k2],
            x,
            y,
            z,
            f,
        )
}

/// The quads hold each exposed face exactly once, and nothing else.
pub open spec fn quads_cover_exposed<V: Voxel>(
    cells: Seq<V>,
    nb: Seq<Option<Seq<V>>>,
    qs: Seq<Quad>,
) -> bool {
    quads_sound(cells, nb, qs) && quads_complete(cells, nb, qs) && quads_disjoint(qs)
}

/// The faces a quad list holds.
pub open spec fn faces_of(qs: Seq<Quad>) -> Set<(int, int, int, Face)> {
    Set::new(
        |t: (int, int, int, Face)|
            exists|k: int| 0 <= k < qs.len() && #[trigger] covers(qs[k], t.0, t.1, t.2, t.3),
    )
}

/// The exposed faces of a chunk.
pub open spec fn exposed_faces<V: Voxel>(cells: Seq<V>, nb: Seq<Option<Seq<V>>>) -> Set<
    (int, int, int, Face),
> {
    Set::new(|t: (int, int, int, Face)| exposed(cells, nb, t.0, t.1, t.2, t.3))
}

/// Quads that hold each exposed face once hold exactly the exposed faces.
pub proof fn lemma_faces_of_cover<V: Voxel>(
    cells: Seq<V>,
    nb: Seq<Option<Seq<V>>>,
    qs: Seq<Quad>,
)
    requires
        quads_cover_exposed(cells, nb, qs),
    ensures
        faces_of(qs) == exposed_faces(cells, nb),
{
    assert forall|t: (int, int, int, Face)| faces_of(qs).contains(t) implies exposed_faces(
        cells,
        nb,
    ).contains(t) by {
        let k = choose|k: int| 0 <= k < qs.len() && #[trigger] covers(qs[k], t.0, t.1, t.2, t.3);
        assert(covers(qs[k], t.0, t.1, t.2, t.3));
    }
    assert forall|t: (int, int, int, Face)| exposed_faces(cells, nb).contains(t) implies faces_of(
        qs,
    ).contains(t) by {
        assert(exposed(cells, nb, t.0, t.1, t.2, t.3));
    }
    assert(faces_of(qs) =~= exposed_faces(cells, nb));
}

/// A quad holds at least one cell.
pub open spec fn quad_nonempty(q: Quad) -> bool {
    q.min[0] < q.max[0] && q.min[1] < q.max[1] && q.min[2] < q.max[2]
}

/// Quad `q` is the single face `f` of cell `(x, y, z)`.
pub open spec fn unit_quad_at(q: Quad, x: int, y: int, z: int) -> bool {
    q.min[0] == x && q.min[1] == y && q.min[2] == z && q.max[0] == x + 1 && q.max[1] == y + 1
        && q.max[2] == z + 1
}

/// The scan position of face `f` of cell `(x, y, z)`: cells in storage order, the
/// faces of a cell in slot order.
pub open spec fn face_key(x: int, y: int, z: int, f: Face) -> int {
    cell_index(x, y, z) * 6 + spec_index(f)
}

/// The scan position of a unit quad.
pub open spec fn quad_key(q: Quad) -> int {
    face_key(q.min[0] as int, q.min[1] as int, q.min[2] as int, q.face)
}

/// The unit quad for face `f` of cell `p` showing voxel id `raw`.
pub open spec fn unit_quad(p: [u8; 3], f: Face, raw: u32) -> Quad {
    Quad { face: f, min: p, max: [(p[0] + 1) as u8, (p[1] + 1) as u8, (p[2] + 1) as u8], raw }
}

/// All quads are exposed unit faces scanned before `bound`, showing their cell's kind.
pub open spec fn units_below<V: Voxel>(
    cells: Seq<V>,
    nb: Seq<Option<Seq<V>>>,
    qs: Seq<Quad>,
    bound: int,
) -> bool {
    forall|k: int|
        0 <= k < qs.len() ==> {
            let q = #[trigger] qs[k];
            &&& unit_quad_at(q, q.min[0] as int, q.min[1] as int, q.min[2] as int)
            &&& quad_key(q) < bound
            &&& exposed(cells, nb, q.min[0] as int, q.min[1] as int, q.min[2] as int, q.face)
            &&& cells[cell_index(q.min[0] as int, q.min[1] as int, q.min[2] as int)].spec_raw()
                == q.raw
        }
}

/// Scan positions strictly increase along the list.
pub open spec fn keys_increasing(qs: Seq<Quad>) -> bool {
    forall|k1: int, k2: int|
        0 <= k1 < k2 < qs.len() ==> quad_key(#[trigger] qs[k1]) < quad_key(#[trigger] qs[k2])
}

/// Every exposed face scanned in `lo..hi` is held by a quad.
pub open spec fn complete_between<V: Voxel>(
    cells: Seq<V>,
    nb: Seq<Option<Seq<V>>>,
    qs: Seq<Quad>,
    lo: int,
    hi: int,
) -> bool {
    forall|x: int, y: int, z: int, f: Face|
        #[trigger] exposed(cells, nb, x, y, z, f) && lo <= face_key(x, y, z, f) < hi ==> exists|
            k: int,
        |
            0 <= k < qs.len() && #[trigger] covers(qs[k], x, y, z, f)
}

proof fn lemma_face_key_inj(x1: int, y1: int, z1: int, f1: Face, x2: int, y2: int, z2: int, f2: Face)
    requires
        in_range(x1) && in_range(y1) && in_range(z1),
        in_range(x2) && in_range(y2) && in_range(z2),
        face_key(x1, y1, z1, f1) == face_key(x2, y2, z2, f2),
    ensures
        x1 == x2 && y1 == y2 && z1 == z2 && f1 == f2,
{
}

proof fn lemma_complete_grow<V: Voxel>(
    cells: Seq<V>,
    nb: Seq<Option<Seq<V>>>,
    qs: Seq<Quad>,
    qs2: Seq<Quad>,
    lo: int,
    hi: int,
)
    requires
        complete_between(cells, nb, qs, lo, hi),
        qs.len() <= qs2.len(),
        qs2.subrange(0, qs.len() as int) == qs,
    ensures
        complete_between(cells, nb, qs2, lo, hi),
{
    assert forall|x: int, y: int, z: int, f: Face|
        #[trigger] exposed(cells, nb, x, y, z, f) && lo <= face_key(x, y, z, f) < hi implies exists|
            k: int,
        |
            0 <= k < qs2.len() && #[trigger] covers(qs2[k], x, y, z, f) by {
        let k = choose|k: int| 0 <= k < qs.len() && #[trigger] covers(qs[k], x, y, z, f);
        assert(qs2[k] == qs2.subrange(0, qs.len() as int)[k]);
    }
}

/// A unit-quad list built in scan order that holds every exposed face holds each
/// exposed face exactly once.
proof fn lemma_units_cover<V: Voxel>(cells: Seq<V>, nb: Seq<Option<Seq<V>>>, qs: Seq<Quad>)
    requires
        units_below(cells, nb, qs, 24576int),
        keys_increasing(qs),
        complete_between(cells, nb, qs, 0, 24576int),
    ensures
        quads_cover_exposed(cells, nb, qs),
{
    assert forall|k: int, x: int, y: int, z: int, f: Face|
        0 <= k < qs.len() && #[trigger] covers(qs[k], x, y, z, f) implies exposed(
            cells,
            nb,
            x,
            y,
            z,
            f,
        ) && cells[cell_index(x, y, z)].spec_raw() == qs[k].raw by {
        let q = qs[k];
        assert(unit_quad_at(q, q.min[0] as int, q.min[1] as int, q.min[2] as int));
    }
    assert forall|x: int, y: int, z: int, f: Face|
        #[trigger] exposed(cells, nb, x, y, z, f) implies exists|k: int|
            0 <= k < qs.len() && #[trigger] covers(qs[k], x, y, z, f) by {
        assert(0 <= face_key(x, y, z, f) < 24576int);
    }
    assert forall|k1: int, k2: int, x: int, y: int, z: int, f: Face|
        0 <= k1 < k2 < qs.len() && #[trigger] covers(qs[k1], x, y, z, f) implies !#[trigger] covers(
            qs[k2],
            x,
            y,
            z,
            f,
        ) by {
        let q1 = qs[k1];
        let q2 = qs[k2];
        assert(unit_quad_at(q1, q1.min[0] as int, q1.min[1] as int, q1.min[2] as int));
        assert(unit_quad_at(q2, q2.min[0] as int, q2.min[1] as int, q2.min[2] as int));
        assert(quad_key(q1) < quad_key(q2));
    }
}

/// The place of one texture in the atlas, a grid of `columns` by `rows` cells:
/// it spans `u0 / columns .. u1 / columns` across and `v0 / rows .. v1 / rows` down.
#[derive(Clone, Copy, Debug, PartialEq, Eq, Structural)]
pub struct AtlasRect {
    pub u0: u32,
    pub v0: u32,
    pub u1: u32,
    pub v1: u32,
    pub columns: u32,
    pub rows: u32,
}

/// The atlas cell of voxel id `raw` seen from direction `f`, in an atlas for
/// `count` voxel kinds: column `raw` of `count - 1`, the direction's row of 6.
pub open spec fn spec_atlas_rect(raw: int, f: Face, count: int) -> AtlasRect {
    AtlasRect {
        u0: raw as u32,
        v0: spec_atlas_row(f) as u32,
        u1: (raw + 1) as u32,
        v1: (spec_atlas_row(f) + 1) as u32,
        columns: (count - 1) as u32,
        rows: 6,
    }
}

/// The atlas cell of voxel id `raw` seen from direction `face`, in an atlas for
/// `variant_count` voxel kinds.
pub fn atlas_rect_for(raw: u32, face: Face, variant_count: usize) -> (r: AtlasRect)
    requires
        1 <= variant_count <= u32::MAX,
        raw < u32::MAX,
    ensures
        r == spec_atlas_rect(raw as int, face, variant_count as int),
{
    let row = face.atlas_row();
    AtlasRect {
        u0: raw,
        v0: row,
        u1: raw + 1,
        v1: row + 1,
        columns: (variant_count - 1) as u32,
        rows: 6,
    }
}

/// The atlas cell that shows voxel `voxel` on faces looking in direction `face`.
pub fn atlas_rect<V: Voxel>(voxel: &V, face: Face) -> (r: AtlasRect)
    ensures
        r == spec_atlas_rect(voxel.spec_raw() as int, face, V::spec_count() as int),
{
    proof {
        V::lemma_raw(*voxel, *voxel);
    }
    atlas_rect_for(voxel.raw(), face, V::all().len())
}

/// A triangle-list mesh in whole units: corner positions in voxels, outward normals,
/// texture coordinates in atlas cells (a `columns` by `rows` grid), and three
/// indices per triangle.
pub struct ChunkMesh {
    pub positions: Vec<[u32; 3]>,
    pub normals: Vec<[i32; 3]>,
    pub uvs: Vec<[u32; 2]>,
    pub indices: Vec<u32>,
    pub columns: u32,
    pub rows: u32,
}

/// A local coordinate as a mesh position.
pub open spec fn widen(p: [u8; 3]) -> [u32; 3] {
    [p[0] as u32, p[1] as u32, p[2] as u32]
}

/// The texture coordinates of the four corners of a quad.
pub open spec fn quad_uvs(q: Quad) -> [[u32; 2]; 4] {
    let r = spec_atlas_row(q.face);
    [
        [q.raw, (r + 1) as u32],
        [q.raw, r as u32],
        [(q.raw + 1) as u32, r as u32],
        [(q.raw + 1) as u32, (r + 1) as u32],
    ]
}

/// Quad `q` stands at slot `k` of the buffers: four vertices from `4 * k` and two
/// triangles from index `6 * k`.
pub open spec fn quad_emitted(
    pos: Seq<[u32; 3]>,
    nrm: Seq<[i32; 3]>,
    uv: Seq<[u32; 2]>,
    idx: Seq<u32>,
    q: Quad,
    k: int,
) -> bool {
    let c = spec_positions(q.face, widen(q.min), widen(q.max));
    let t = quad_uvs(q);
    let n = spec_normal(q.face);
    let b = 4 * k;
    &&& pos[b] == c[0] && pos[b + 1] == c[1] && pos[b + 2] == c[2] && pos[b + 3] == c[3]
    &&& nrm[b] == n && nrm[b + 1] == n && nrm[b + 2] == n && nrm[b + 3] == n
    &&& uv[b] == t[0] && uv[b + 1] == t[1] && uv[b + 2] == t[2] && uv[b + 3] == t[3]
    &&& idx[6 * k] == b && idx[6 * k + 1] == b + 1 && idx[6 * k + 2] == b + 2
    &&& idx[6 * k + 3] == b && idx[6 * k + 4] == b + 2 && idx[6 * k + 5] == b + 3
}

/// Mesh `m` draws the quads `qs`, in order, in an atlas of `columns` columns.
pub open spec fn mesh_of_quads(m: ChunkMesh, qs: Seq<Quad>, columns: int) -> bool {
    &&& m.columns == columns && m.rows == 6
    &&& m.positions@.len() == 4 * qs.len() && m.normals@.len() == 4 * qs.len()
    &&& m.uvs@.len() == 4 * qs.len() && m.indices@.len() == 6 * qs.len()
    &&& forall|k: int|
        0 <= k < qs.len() ==> quad_emitted(
            m.positions@,
            m.normals@,
            m.uvs@,
            m.indices@,
            #[trigger] qs[k],
            k,
        )
}

/// Turns quads into mesh buffers for an atlas of `columns` columns.
pub fn mesh_from_quads(quads: &Vec<Quad>, columns: u32) -> (r: ChunkMesh)
    requires
        4 * quads@.len() <= u32::MAX + 1,
        forall|k: int| 0 <= k < quads@.len() ==> (#[trigger] quads@[k]).raw < u32::MAX,
    ensures
        mesh_of_quads(r, quads@, columns as int),
{
    let mut positions: Vec<[u32; 3]> = Vec::new();
    let mut normals: Vec<[i32; 3]> = Vec::new();
    let mut uvs: Vec<[u32; 2]> = Vec::new();
    let mut indices: Vec<u32> = Vec::new();
    let mut k: usize = 0;
    while k < quads.len()
        invariant
            0 <= k <= quads@.len(),
            4 * quads@.len() <= u32::MAX + 1,
            forall|j: int| 0 <= j < quads@.len() ==> (#[trigger] quads@[j]).raw < u32::MAX,
            positions@.len() == 4 * k && normals@.len() == 4 * k,
            uvs@.len() == 4 * k && indices@.len() == 6 * k,
            forall|j: int|
                0 <= j < k ==> quad_emitted(
                    positions@,
                    normals@,
                    uvs@,
                    indices@,
                    #[trigger] quads@[j],
                    j,
                ),
        decreases quads@.len() - k,
    {
        let q = quads[k];
        let ghost (pos0, nrm0, uv0, idx0) = (positions@, normals@, uvs@, indices@);
        let c = q.face.positions(
            [q.min[0] as u32, q.min[1] as u32, q.min[2] as u32],
            [q.max[0] as u32, q.max[1] as u32, q.max[2] as u32],
        );
        positions.push(c[0]);
        positions.push(c[1]);
        positions.push(c[2]);
        positions.push(c[3]);
        let n = q.face.normal();
        normals.push(n);
        normals.push(n);
        normals.push(n);
        normals.push(n);
        let row = q.face.atlas_row();
        uvs.push([q.raw, row + 1]);
        uvs.push([q.raw, row]);
        uvs.push([q.raw + 1, row]);
        uvs.push([q.raw + 1, row + 1]);
        let base = (4 * k) as u32;
        indices.push(base);
        indices.push(base + 1);
        indices.push(base + 2);
        indices.push(base);
        indices.push(base + 2);
        indices.push(base + 3);
        proof {
            assert(widen(q.min) == [q.min[0] as u32, q.min[1] as u32, q.min[2] as u32]);
            assert(widen(q.max) == [q.max[0] as u32, q.max[1] as u32, q.max[2] as u32]);
            assert forall|j: int|
                0 <= j < k + 1 implies quad_emitted(
                positions@,
                normals@,
                uvs@,
                indices@,
                #[trigger] quads@[j],
                j,
            ) by {
                if j < k {
                    assert(quad_emitted(pos0, nrm0, uv0, idx0, quads@[j], j));
                    assert(positions@.subrange(0, 4 * k) =~= pos0);
                    assert(normals@.subrange(0, 4 * k) =~= nrm0);
                    assert(uvs@.subrange(0, 4 * k) =~= uv0);
                    assert(indices@.subrange(0, 6 * k) =~= idx0);
                }
            }
        }
        k += 1;
    }
    ChunkMesh { positions, normals, uvs, indices, columns, rows: 6 }
}

impl<V: Voxel> Chunk<V> {
    /// Whether face `face` of the cell at `pos` is hidden behind an opaque cell.
    pub fn cull_face(&self, pos: [u8; 3], face: Face, neighbors: &[Option<&Chunk<V>>; 6]) -> (r:
        bool)
        requires
            self.wf(),
            neighbors_wf(*neighbors),
            in_chunk(pos),
        ensures
            r == face_hidden(
                self@,
                neighbor_views(*neighbors),
                pos[0] as int,
                pos[1] as int,
                pos[2] as int,
                face,
            ),
    {
        let x = pos[0];
        let y = pos[1];
        let z = pos[2];
        let ghost nbv = neighbor_views(*neighbors);
        match face {
            Face::Left => {
                if x == 0 {
                    assert(nbv[0] == match neighbors[0] { Some(c) => Some(c@), None => None });
                    match neighbors[0] {
                        Some(c) => c.get([CHUNK_WIDTH - 1, y, z]).is_opaque(),
                        None => false,
                    }
                } else {
                    self.get([x - 1, y, z]).is_opaque()
                }
            },
            Face::Right => {
                if x == CHUNK_WIDTH - 1 {
                    assert(nbv[1] == match neighbors[1] { Some(c) => Some(c@), None => None });
                    match neighbors[1] {
                        Some(c) => c.get([0, y, z]).is_opaque(),
                        None => false,
                    }
                } else {
                    self.get([x + 1, y, z]).is_opaque()
                }
            },
            Face::Bottom => {
                if y == 0 {
                    assert(nbv[2] == match neighbors[2] { Some(c) => Some(c@), None => None });
                    match neighbors[2] {
                        Some(c) => c.get([x, CHUNK_WIDTH - 1, z]).is_opaque(),
                        None => false,
                    }
                } else {
                    self.get([x, y - 1, z]).is_opaque()
                }
            },
            Face::Top => {
                if y == CHUNK_WIDTH - 1 {
                    assert(nbv[3] == match neighbors[3] { Some(c) => Some(c@), None => None });
                    match neighbors[3] {
                        Some(c) => c.get([x, 0, z]).is_opaque(),
                        None => false,
                    }
                } else {
                    self.get([x, y + 1, z]).is_opaque()
                }
            },
            Face::Back => {
                if z == 0 {
                    assert(nbv[4] == match neighbors[4] { Some(c) => Some(c@), None => None });
                    match neighbors[4] {
                        Some(c) => c.get([x, y, CHUNK_WIDTH - 1]).is_opaque(),
                        None => false,
                    }
                } else {
                    self.get([x, y, z - 1]).is_opaque()
                }
            },
            Face::Front => {
                if z == CHUNK_WIDTH - 1 {
                    assert(nbv[5] == match neighbors[5] { Some(c) => Some(c@), None => None });
                    match neighbors[5] {
                        Some(c) => c.get([x, y, 0]).is_opaque(),
                        None => false,
                    }
                } else {
                    self.get([x, y, z + 1]).is_opaque()
                }
            },
        }
    }

    /// Appends the unit quad of face `face` of the opaque cell at `pos` when that face
    /// is exposed.
    fn add_face_if_visible(
        &self,
        pos: [u8; 3],
        face: Face,
        voxel: &V,
        neighbors: &[Option<&Chunk<V>>; 6],
        quads: &mut Vec<Quad>,
    )
        requires
            self.wf(),
            neighbors_wf(*neighbors),
            in_chunk(pos),
            *voxel == self@[pos_index(pos)],
            voxel.spec_is_opaque(),
        ensures
            exposed(
                self@,
                neighbor_views(*neighbors),
                pos[0] as int,
                pos[1] as int,
                pos[2] as int,
                face,
            ) ==> final(quads)@ == old(quads)@.push(unit_quad(pos, face, voxel.spec_raw() as u32)),
            !exposed(
                self@,
                neighbor_views(*neighbors),
                pos[0] as int,
                pos[1] as int,
                pos[2] as int,
                face,
            ) ==> final(quads)@ == old(quads)@,
    {
        if self.cull_face(pos, face, neighbors) {
            return;
        }
        let raw = voxel.raw();
        quads.push(Quad { face, min: pos, max: [pos[0] + 1, pos[1] + 1, pos[2] + 1], raw });
    }

    /// Appends the unit quads of the exposed faces of the cell at `pos`, in slot order.
    fn add_cell_faces(&self, pos: [u8; 3], neighbors: &[Option<&Chunk<V>>; 6], quads: &mut Vec<Quad>)
        requires
            self.wf(),
            neighbors_wf(*neighbors),
            in_chunk(pos),
            units_below(self@, neighbor_views(*neighbors), old(quads)@, 6 * pos_index(pos)),
            keys_increasing(old(quads)@),
        ensures
            units_below(self@, neighbor_views(*neighbors), final(quads)@, 6 * pos_index(pos) + 6),
            keys_increasing(final(quads)@),
            old(quads)@.len() <= final(quads)@.len(),
            final(quads)@.subrange(0, old(quads)@.len() as int) == old(quads)@,
            complete_between(
                self@,
                neighbor_views(*neighbors),
                final(quads)@,
                6 * pos_index(pos),
                6 * pos_index(pos) + 6,
            ),
            final(quads)@.len() <= old(quads)@.len() + 6,
    {
        let ghost nbv = neighbor_views(*neighbors);
        let ghost cells = self@;
        let ghost old_q = quads@;
        let ghost base = 6 * pos_index(pos);
        let ghost (px, py, pz) = (pos[0] as int, pos[1] as int, pos[2] as int);
        let voxel = self.get(pos);
        if !voxel.is_opaque() {
            assert forall|x: int, y: int, z: int, f: Face|
                #[trigger] exposed(cells, nbv, x, y, z, f) && base <= face_key(x, y, z, f) < base
                    + 6 implies exists|k: int|
                0 <= k < quads@.len() && #[trigger] covers(quads@[k], x, y, z, f) by {
                lemma_face_key_inj(x, y, z, f, px, py, pz, f);
            }
            assert(quads@.subrange(0, old_q.len() as int) =~= old_q);
            return;
        }
        let faces = Face::all();
        let mut fi: usize = 0;
        while fi < 6
            invariant
                0 <= fi <= 6,
                self.wf(),
                neighbors_wf(*neighbors),
                in_chunk(pos),
                cells == self@,
                nbv == neighbor_views(*neighbors),
                base == 6 * pos_index(pos),
                px == pos[0] && py == pos[1] && pz == pos[2],
                *voxel == cells[pos_index(pos)],
                voxel.spec_is_opaque(),
                forall|i: int| 0 <= i < 6 ==> spec_index(#[trigger] faces[i]) == i,
                units_below(cells, nbv, quads@, base + fi),
                keys_increasing(quads@),
                old_q.len() <= quads@.len() <= old_q.len() + fi,
                quads@.subrange(0, old_q.len() as int) == old_q,
                complete_between(cells, nbv, quads@, base, base + fi),
            decreases 6 - fi,
        {
            let face = faces[fi];
            let ghost before = quads@;
            self.add_face_if_visible(pos, face, voxel, neighbors, quads);
            proof {
                let key = base + fi;
                assert(faces[fi as int] == face);
                assert(spec_index(face) == fi);
                assert(pos_index(pos) == cell_index(px, py, pz));
                assert(face_key(px, py, pz, face) == key);
                V::lemma_raw(*voxel, *voxel);
                if quads@.len() > before.len() {
                    let nq = unit_quad(pos, face, voxel.spec_raw() as u32);
                    assert(quads@ == before.push(nq));
                    assert(quads@[before.len() as int] == nq);
                    assert(quad_key(nq) == key);
                    assert forall|k: int| 0 <= k < quads@.len() implies {
                        let q = #[trigger] quads@[k];
                        &&& unit_quad_at(q, q.min[0] as int, q.min[1] as int, q.min[2] as int)
                        &&& quad_key(q) < base + fi + 1
                        &&& exposed(cells, nbv, q.min[0] as int, q.min[1] as int, q.min[2] as int, q.face)
                        &&& cells[cell_index(q.min[0] as int, q.min[1] as int, q.min[2] as int)].spec_raw() == q.raw
                    } by {
                        if k < before.len() {
                            assert(quads@[k] == before[k]);
                        }
                    }
                    assert forall|k1: int, k2: int|
                        0 <= k1 < k2 < quads@.len() implies quad_key(#[trigger] quads@[k1]) < quad_key(#[trigger] quads@[k2]) by {
                        assert(quads@[k1] == before[k1]);
                        if k2 < before.len() {
                            assert(quads@[k2] == before[k2]);
                        }
                    }
                    assert(before.subrange(0, before.len() as int) =~= before);
                    assert(quads@.subrange(0, before.len() as int) =~= before);
                    lemma_complete_grow(cells, nbv, before, quads@, base, base + fi);
                    assert forall|x: int, y: int, z: int, f: Face|
                        #[trigger] exposed(cells, nbv, x, y, z, f) && base <= face_key(x, y, z, f)
                            < base + fi + 1 implies exists|k: int|
                        0 <= k < quads@.len() && #[trigger] covers(quads@[k], x, y, z, f) by {
                        if face_key(x, y, z, f) == key {
                            lemma_face_key_inj(x, y, z, f, px, py, pz, face);
                            assert(covers(quads@[before.len() as int], x, y, z, f));
                        }
                    }
                } else {
                    assert forall|x: int, y: int, z: int, f: Face|
                        #[trigger] exposed(cells, nbv, x, y, z, f) && base <= face_key(x, y, z, f)
                            < base + fi + 1 implies exists|k: int|
                        0 <= k < quads@.len() && #[trigger] covers(quads@[k], x, y, z, f) by {
                        if face_key(x, y, z, f) == key {
                            lemma_face_key_inj(x, y, z, f, px, py, pz, face);
                        }
                    }
                }
                assert(quads@.subrange(0, old_q.len() as int) =~= old_q);
            }
            fi += 1;
        }
    }

    /// One unit quad for every exposed face, in scan order.
    pub fn naive_quads(&self, neighbors: &[Option<&Chunk<V>>; 6]) -> (r: Vec<Quad>)
        requires
            self.wf(),
            neighbors_wf(*neighbors),
        ensures
            quads_cover_exposed(self@, neighbor_views(*neighbors), r@),
            forall|k: int|
                0 <= k < r@.len() ==> unit_quad_at(
                    #[trigger] r@[k],
                    r@[k].min[0] as int,
                    r@[k].min[1] as int,
                    r@[k].min[2] as int,
                ),
            forall|k: int| 0 <= k < r@.len() ==> quad_nonempty(#[trigger] r@[k]),
            r@.len() <= 24576,
    {
        let ghost nbv = neighbor_views(*neighbors);
        let ghost cells = self@;
        let mut quads: Vec<Quad> = Vec::new();
        let mut i: usize = 0;
        while i < 4096
            invariant
                0 <= i <= 4096,
                self.wf(),
                neighbors_wf(*neighbors),
                cells == self@,
                nbv == neighbor_views(*neighbors),
                units_below(cells, nbv, quads@, 6 * i),
                keys_increasing(quads@),
                complete_between(cells, nbv, quads@, 0, 6 * i),
                quads@.len() <= 6 * i,
            decreases 4096 - i,
        {
            let x: u8 = (i / 256) as u8;
            let y: u8 = ((i / 16) % 16) as u8;
            let z: u8 = (i % 16) as u8;
            let pos = [x, y, z];
            proof {
                assert(x as int * 256 + y as int * 16 + z as int == i) by (nonlinear_arith)
                    requires
                        x == i / 256,
                        y == (i / 16) % 16,
                        z == i % 16,
                        i < 4096,
                ;
                assert(pos_index(pos) == i);
            }
            let ghost before = quads@;
            self.add_cell_faces(pos, neighbors, &mut quads);
            proof {
                lemma_complete_grow(cells, nbv, before, quads@, 0, 6 * i);
                assert forall|x: int, y: int, z: int, f: Face|
                    #[trigger] exposed(cells, nbv, x, y, z, f) && 0 <= face_key(x, y, z, f) < 6 * (i
                        + 1) implies exists|k: int|
                    0 <= k < quads@.len() && #[trigger] covers(quads@[k], x, y, z, f) by {}
            }
            i += 1;
        }
        proof {
            lemma_units_cover(cells, nbv, quads@);
            assert forall|k: int| 0 <= k < quads@.len() implies unit_quad_at(
                #[trigger] quads@[k],
                quads@[k].min[0] as int,
                quads@[k].min[1] as int,
                quads@[k].min[2] as int,
            ) by {}
        }
        quads
    }

    /// The mesh of the chunk beside `neighbors`, one quad per exposed face or greedy
    /// merged quads as `strategy` says, textured from an atlas with one column per
    /// voxel kind after the empty one.
    pub fn generate_mesh(&self, neighbors: &[Option<&Chunk<V>>; 6], strategy: MeshStrategy) -> (r:
        ChunkMesh)
        requires
            self.wf(),
            neighbors_wf(*neighbors),
        ensures
            exists|qs: Seq<Quad>|
                quads_cover_exposed(self@, neighbor_views(*neighbors), qs) && mesh_of_quads(
                    r,
                    qs,
                    V::spec_count() - 1,
                ) && (forall|k: int| 0 <= k < qs.len() ==> quad_nonempty(#[trigger] qs[k])) && (strategy == MeshStrategy::Naive ==> forall|k: int|
                    0 <= k < qs.len() ==> unit_quad_at(
                        #[trigger] qs[k],
                        qs[k].min[0] as int,
                        qs[k].min[1] as int,
                        qs[k].min[2] as int,
                    )),
    {
        let quads = match strategy {
            MeshStrategy::Naive => self.naive_quads(neighbors),
            MeshStrategy::Greedy => self.greedy_quads(neighbors),
        };
        let ghost nbv = neighbor_views(*neighbors);
        proof {
            assert forall|k: int| 0 <= k < quads@.len() implies (#[trigger] quads@[k]).raw < u32::MAX by {
                let q = quads@[k];
                assert(covers(q, q.min[0] as int, q.min[1] as int, q.min[2] as int, q.face));
                let v = self@[cell_index(q.min[0] as int, q.min[1] as int, q.min[2] as int)];
                V::lemma_raw(v, v);
            }
            let e = V::spec_empty();
            V::lemma_raw(e, e);
        }
        let count = V::all().len();
        let r = mesh_from_quads(&quads, (count - 1) as u32);
        r
    }
}

/// How a chunk's faces are turned into quads.
#[derive(Clone, Copy, Debug, PartialEq, Eq, Structural)]
pub enum MeshStrategy {
    /// One unit quad per exposed face.
    Naive,
    /// Exposed faces of equal voxels merged into rectangles, slice by slice.
    Greedy,
}

/// Both meshing strategies draw the same surface: any two quad lists that each hold
/// every exposed face once decompose into the same unit faces, the exposed ones.
pub proof fn lemma_strategies_agree<V: Voxel>(
    cells: Seq<V>,
    nb: Seq<Option<Seq<V>>>,
    naive: Seq<Quad>,
    greedy: Seq<Quad>,
)
    requires
        quads_cover_exposed(cells, nb, naive),
        quads_cover_exposed(cells, nb, greedy),
    ensures
        faces_of(naive) == faces_of(greedy),
        faces_of(naive) == exposed_faces(cells, nb),
{
    lemma_faces_of_cover(cells, nb, naive);
    lemma_faces_of_cover(cells, nb, greedy);
}

/// An opaque cell whose six neighbours in the same chunk are all opaque gets no
/// quad on any face.
pub proof fn lemma_interior_hidden<V: Voxel>(
    cells: Seq<V>,
    nb: Seq<Option<Seq<V>>>,
    qs: Seq<Quad>,
    x: int,
    y: int,
    z: int,
)
    requires
        quads_cover_exposed(cells, nb, qs),
        1 <= x < CHUNK_WIDTH - 1 && 1 <= y < CHUNK_WIDTH - 1 && 1 <= z < CHUNK_WIDTH - 1,
        cells[cell_index(x - 1, y, z)].spec_is_opaque(),
        cells[cell_index(x + 1, y, z)].spec_is_opaque(),
        cells[cell_index(x, y - 1, z)].spec_is_opaque(),
        cells[cell_index(x, y + 1, z)].spec_is_opaque(),
        cells[cell_index(x, y, z - 1)].spec_is_opaque(),
        cells[cell_index(x, y, z + 1)].spec_is_opaque(),
    ensures
        forall|k: int, f: Face| 0 <= k < qs.len() ==> !#[trigger] covers(qs[k], x, y, z, f),
{
    assert forall|k: int, f: Face| 0 <= k < qs.len() implies !#[trigger] covers(qs[k], x, y, z, f) by {
        if covers(qs[k], x, y, z, f) {
            assert(exposed(cells, nb, x, y, z, f));
        }
    }
}

/// An opaque cell on the chunk's boundary whose neighbour chunk in that direction
/// is absent gets a quad on that face.
pub proof fn lemma_open_boundary<V: Voxel>(
    cells: Seq<V>,
    nb: Seq<Option<Seq<V>>>,
    qs: Seq<Quad>,
    x: int,
    y: int,
    z: int,
    f: Face,
)
    requires
        quads_cover_exposed(cells, nb, qs),
        in_range(x) && in_range(y) && in_range(z),
        cells[cell_index(x, y, z)].spec_is_opaque(),
        !(in_range(x + spec_step(f, 0)) && in_range(y + spec_step(f, 1)) && in_range(
            z + spec_step(f, 2),
        )),
        nb[spec_index(f)] is None,
    ensures
        exists|k: int| 0 <= k < qs.len() && #[trigger] covers(qs[k], x, y, z, f),
{
    assert(exposed(cells, nb, x, y, z, f));
}

} // verus!
