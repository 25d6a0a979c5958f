use std::collections::VecDeque;

use vstd::prelude::*;

use crate::chunk::{spec_neighbor_pos, ChunkPos};
use crate::face::spec_face_at;
use crate::world::{saved_index, WorldSave};
use crate::voxel::Voxel;

verus! {

/// Load radius, in chunks.
pub const RENDER_DISTANCE: u8 = 8;

/// Most chunks loaded in one tick.
pub const CHUNKS_PER_FRAME: u8 = 8;

/// Whether `p` lies in the ball of radius `r` chunks around `c`.
pub open spec fn in_sphere(c: ChunkPos, r: int, p: ChunkPos) -> bool {
    let dx = p.x - c.x;
    let dy = p.y - c.y;
    let dz = p.z - c.z;
    dx * dx + dy * dy + dz * dz <= r * r
}

/// The chunk positions that must be loaded around an observer in chunk `c`.
pub open spec fn desired_set(c: ChunkPos, r: int) -> Set<ChunkPos> {
    Set::new(|p: ChunkPos| in_sphere(c, r, p))
}

/// `p` comes before offset `(dx, dy, dz)` from `c` in scan order (x, then y, then z).
pub open spec fn scanned_before(c: ChunkPos, p: ChunkPos, dx: int, dy: int, dz: int) -> bool {
    p.x - c.x < dx || (p.x - c.x == dx && p.y - c.y < dy) || (p.x - c.x == dx && p.y - c.y == dy
        && p.z - c.z < dz)
}

proof fn lemma_square_bound(d: int, s: int, r: int)
    requires
        0 <= r,
        0 <= s,
        d * d + s <= r * r,
    ensures
        -r <= d <= r,
{
    assert(-r <= d <= r) by (nonlinear_arith)
        requires
            0 <= r,
            d * d <= r * r,
    ;
}

proof fn lemma_sphere_bounds(c: ChunkPos, r: int, p: ChunkPos)
    requires
        0 <= r,
        in_sphere(c, r, p),
    ensures
        -r <= p.x - c.x <= r,
        -r <= p.y - c.y <= r,
        -r <= p.z - c.z <= r,
{
    let dx = p.x - c.x;
    let dy = p.y - c.y;
    let dz = p.z - c.z;
    assert(dy * dy >= 0 && dz * dz >= 0 && dx * dx >= 0) by (nonlinear_arith);
    lemma_square_bound(dx, dy * dy + dz * dz, r);
    lemma_square_bound(dy, dx * dx + dz * dz, r);
    lemma_square_bound(dz, dx * dx + dy * dy, r);
}

/// The desired set as a list: every position within `radius` chunks of `center`
/// (by the spherical test), each once, in scan order. Positions off the grid are
/// left out.
pub fn desired_chunks(center: ChunkPos, radius: u8) -> (r: Vec<ChunkPos>)
    ensures
        r@.no_duplicates(),
        forall|p: ChunkPos| #[trigger] r@.contains(p) <==> in_sphere(center, radius as int, p),
        r@.to_set() == desired_set(center, radius as int),
{
    let ghost c = center;
    let ghost rr = radius as int;
    let rd: i64 = radius as i64;
    let mut out: Vec<ChunkPos> = Vec::new();
    let mut dx: i64 = -rd;
    proof {
        assert forall|p: ChunkPos|
            in_sphere(c, rr, p) && #[trigger] scanned_before(c, p, -rr, -rr, -rr) implies out@.contains(
            p,
        ) by {
            lemma_sphere_bounds(c, rr, p);
        }
    }
    while dx <= rd
        invariant
            rd == rr,
            c == center,
            0 <= rr <= 255,
            -rr <= dx <= rr + 1,
            out@.no_duplicates(),
            forall|k: int|
                0 <= k < out@.len() ==> in_sphere(c, rr, #[trigger] out@[k]) && scanned_before(
                    c,
                    out@[k],
                    dx as int,
                    -rr,
                    -rr,
                ),
            forall|p: ChunkPos|
                in_sphere(c, rr, p) && #[trigger] scanned_before(c, p, dx as int, -rr, -rr)
                    ==> out@.contains(p),
        decreases rd + 1 - dx,
    {
        let mut dy: i64 = -rd;
        while dy <= rd
            invariant
                rd == rr,
                c == center,
                0 <= rr <= 255,
                -rr <= dx <= rr,
                -rr <= dy <= rr + 1,
                out@.no_duplicates(),
                forall|k: int|
                    0 <= k < out@.len() ==> in_sphere(c, rr, #[trigger] out@[k]) && scanned_before(
                        c,
                        out@[k],
                        dx as int,
                        dy as int,
                        -rr,
                    ),
                forall|p: ChunkPos|
                    in_sphere(c, rr, p) && #[trigger] scanned_before(c, p, dx as int, dy as int, -rr)
                        ==> out@.contains(p),
            decreases rd + 1 - dy,
        {
            let mut dz: i64 = -rd;
            while dz <= rd
                invariant
                    rd == rr,
                    c == center,
                    0 <= rr <= 255,
                    -rr <= dx <= rr,
                    -rr <= dy <= rr,
                    -rr <= dz <= rr + 1,
                    out@.no_duplicates(),
                    forall|k: int|
                        0 <= k < out@.len() ==> in_sphere(c, rr, #[trigger] out@[k])
                            && scanned_before(c, out@[k], dx as int, dy as int, dz as int),
                    forall|p: ChunkPos|
                        in_sphere(c, rr, p) && #[trigger] scanned_before(
                            c,
                            p,
                            dx as int,
                            dy as int,
                            dz as int,
                        ) ==> out@.contains(p),
                decreases rd + 1 - dz,
            {
                let px = center.x as i64 + dx;
                let py = center.y as i64 + dy;
                let pz = center.z as i64 + dz;
                let ghost before = out@;
                proof {
                    assert(0 <= dx * dx <= 65536 && 0 <= dy * dy <= 65536 && 0 <= dz * dz <= 65536
                        && 0 <= rd * rd <= 65536) by (nonlinear_arith)
                        requires
                            -256 <= dx <= 256,
                            -256 <= dy <= 256,
                            -256 <= dz <= 256,
                            0 <= rd <= 256,
                    ;
                }
                if dx * dx + dy * dy + dz * dz <= rd * rd && i32::MIN as i64 <= px && px
                    <= i32::MAX as i64 && i32::MIN as i64 <= py && py <= i32::MAX as i64
                    && i32::MIN as i64 <= pz && pz <= i32::MAX as i64 {
                    let p = ChunkPos { x: px as i32, y: py as i32, z: pz as i32 };
                    out.push(p);
                    proof {
                        assert(p.x - c.x == dx && p.y - c.y == dy && p.z - c.z == dz);
                        assert(in_sphere(c, rr, p));
                        assert(!scanned_before(c, p, dx as int, dy as int, dz as int));
                        assert(!before.contains(p)) by {
                            if before.contains(p) {
                                let k = choose|k: int| 0 <= k < before.len() && before[k] == p;
                                assert(scanned_before(c, before[k], dx as int, dy as int, dz as int));
                            }
                        }
                        assert forall|k: int| 0 <= k < out@.len() implies in_sphere(c, rr, #[trigger] out@[k])
                            && scanned_before(c, out@[k], dx as int, dy as int, dz + 1) by {
                            if k < before.len() {
                                assert(out@[k] == before[k]);
                            }
                        }
                        assert forall|q: ChunkPos|
                            in_sphere(c, rr, q) && #[trigger] scanned_before(
                                c,
                                q,
                                dx as int,
                                dy as int,
                                dz + 1,
                            ) implies out@.contains(q) by {
                            if scanned_before(c, q, dx as int, dy as int, dz as int) {
                                let k = choose|k: int| 0 <= k < before.len() && before[k] == q;
                                assert(out@[k] == q);
                            } else {
                                assert(out@[before.len() as int] == p);
                            }
                        }
                    }
                } else {
                    proof {
                        assert forall|q: ChunkPos|
                            in_sphere(c, rr, q) && #[trigger] scanned_before(
                                c,
                                q,
                                dx as int,
                                dy as int,
                                dz + 1,
                            ) implies out@.contains(q) by {
                            if !scanned_before(c, q, dx as int, dy as int, dz as int) {
                                assert(q.x == px && q.y == py && q.z == pz);
                            }
                        }
                    }
                }
                dz += 1;
            }
            proof {
                assert forall|q: ChunkPos|
                    in_sphere(c, rr, q) && #[trigger] scanned_before(c, q, dx as int, dy + 1, -rr)
                        implies out@.contains(q) by {
                    lemma_sphere_bounds(c, rr, q);
                    assert(scanned_before(c, q, dx as int, dy as int, rr + 1));
                }
                assert forall|k: int| 0 <= k < out@.len() implies #[trigger] scanned_before(
                    c,
                    out@[k],
                    dx as int,
                    dy + 1,
                    -rr,
                ) by {
                    assert(in_sphere(c, rr, out@[k]));
                    lemma_sphere_bounds(c, rr, out@[k]);
                }
            }
            dy += 1;
        }
        proof {
            assert forall|q: ChunkPos|
                in_sphere(c, rr, q) && #[trigger] scanned_before(c, q, dx + 1, -rr, -rr) implies out@.contains(
                q,
            ) by {
                lemma_sphere_bounds(c, rr, q);
                assert(scanned_before(c, q, dx as int, rr + 1, -rr));
            }
            assert forall|k: int| 0 <= k < out@.len() implies #[trigger] scanned_before(
                c,
                out@[k],
                dx + 1,
                -rr,
                -rr,
            ) by {
                assert(in_sphere(c, rr, out@[k]));
                lemma_sphere_bounds(c, rr, out@[k]);
            }
        }
        dx += 1;
    }
    proof {
        assert forall|p: ChunkPos| #[trigger] out@.contains(p) <==> in_sphere(c, rr, p) by {
            if in_sphere(c, rr, p) {
                lemma_sphere_bounds(c, rr, p);
                assert(scanned_before(c, p, dx as int, -rr, -rr));
            }
            if out@.contains(p) {
                let k = choose|k: int| 0 <= k < out@.len() && out@[k] == p;
                assert(in_sphere(c, rr, out@[k]));
            }
        }
        assert(out@.to_set() =~= desired_set(c, rr));
    }
    out
}


/// The host's opaque handle of a chunk that exists in the world.
pub type Handle = u64;

/// The first chunk, in `chunks` order, that stands at grid point `t` and is not
/// `exclude`.
pub open spec fn find_chunk(
    chunks: Seq<(Handle, ChunkPos)>,
    t: (int, int, int),
    exclude: Option<Handle>,
) -> Option<Handle>
    decreases chunks.len(),
{
    if chunks.len() == 0 {
        None
    } else if (chunks[0].1.x as int, chunks[0].1.y as int, chunks[0].1.z as int) == t && exclude
        != Some(chunks[0].0) {
        Some(chunks[0].0)
    } else {
        find_chunk(chunks.drop_first(), t, exclude)
    }
}

/// The handle of the first chunk at grid point `(x, y, z)` other than `exclude`.
fn find_chunk_at(
    chunks: &Vec<(Handle, ChunkPos)>,
    x: i64,
    y: i64,
    z: i64,
    exclude: Option<Handle>,
) -> (r: Option<Handle>)
    ensures
        r == find_chunk(chunks@, (x as int, y as int, z as int), exclude),
{
    let ghost t = (x as int, y as int, z as int);
    let mut i: usize = 0;
    assert(chunks@.subrange(0, chunks@.len() as int) =~= chunks@);
    while i < chunks.len()
        invariant
            0 <= i <= chunks@.len(),
            t == (x as int, y as int, z as int),
            find_chunk(chunks@, t, exclude) == find_chunk(
                chunks@.subrange(i as int, chunks@.len() as int),
                t,
                exclude,
            ),
        decreases chunks@.len() - i,
    {
        let (h, p) = chunks[i];
        let ghost rest = chunks@.subrange(i as int, chunks@.len() as int);
        proof {
            assert(rest[0] == (h, p));
            assert(rest.drop_first() =~= chunks@.subrange(i + 1, chunks@.len() as int));
        }
        let excluded = match exclude {
            Some(e) => e == h,
            None => false,
        };
        if p.x as i64 == x && p.y as i64 == y && p.z as i64 == z && !excluded {
            return Some(h);
        }
        i += 1;
    }
    None
}

/// For each face slot, the first chunk other than `exclude` that is the neighbour of
/// `pos` in that direction.
fn neighbor_handles(pos: ChunkPos, chunks: &Vec<(Handle, ChunkPos)>, exclude: Option<Handle>) -> (r:
    [Option<Handle>; 6])
    ensures
        forall|i: int|
            0 <= i < 6 ==> #[trigger] r[i] == find_chunk(
                chunks@,
                spec_neighbor_pos(pos, spec_face_at(i)),
                exclude,
            ),
{
    let (x, y, z) = (pos.x as i64, pos.y as i64, pos.z as i64);
    [
        find_chunk_at(chunks, x - 1, y, z, exclude),
        find_chunk_at(chunks, x + 1, y, z, exclude),
        find_chunk_at(chunks, x, y - 1, z, exclude),
        find_chunk_at(chunks, x, y + 1, z, exclude),
        find_chunk_at(chunks, x, y, z - 1, exclude),
        find_chunk_at(chunks, x, y, z + 1, exclude),
    ]
}

/// The neighbour links of chunk `entity` at `pos`: for each face slot, the first
/// other existing chunk one step away in that direction.
pub fn update_chunk_neighbors(entity: Handle, pos: ChunkPos, chunks: &Vec<(Handle, ChunkPos)>) -> (r:
    [Option<Handle>; 6])
    ensures
        forall|i: int|
            0 <= i < 6 ==> #[trigger] r[i] == find_chunk(
                chunks@,
                spec_neighbor_pos(pos, spec_face_at(i)),
                Some(entity),
            ),
{
    neighbor_handles(pos, chunks, Some(entity))
}

fn contains_pos(v: &Vec<ChunkPos>, p: ChunkPos) -> (r: bool)
    ensures
        r == v@.contains(p),
{
    let mut i: usize = 0;
    while i < v.len()
        invariant
            0 <= i <= v@.len(),
            forall|k: int| 0 <= k < i ==> v@[k] != p,
        decreases v@.len() - i,
    {
        if v[i] == p {
            return true;
        }
        i += 1;
    }
    false
}

fn queued_pos(v: &VecDeque<ChunkPos>, p: ChunkPos) -> (r: bool)
    ensures
        r == v@.contains(p),
{
    let mut i: usize = 0;
    while i < v.len()
        invariant
            0 <= i <= v@.len(),
            forall|k: int| 0 <= k < i ==> v@[k] != p,
        decreases v@.len() - i,
    {
        if v[i] == p {
            return true;
        }
        i += 1;
    }
    false
}

fn queued_handle(v: &VecDeque<Handle>, h: Handle) -> (r: bool)
    ensures
        r == v@.contains(h),
{
    let mut i: usize = 0;
    while i < v.len()
        invariant
            0 <= i <= v@.len(),
            forall|k: int| 0 <= k < i ==> v@[k] != h,
        decreases v@.len() - i,
    {
        if v[i] == h {
            return true;
        }
        i += 1;
    }
    false
}

/// The positions of a list of existing chunks.
pub open spec fn positions_of(chunks: Seq<(Handle, ChunkPos)>) -> Seq<ChunkPos> {
    chunks.map_values(|e: (Handle, ChunkPos)| e.1)
}

/// Scheduler state: positions known to be loaded, positions waiting to be loaded,
/// and chunks waiting to be removed.
pub struct ChunkManager {
    pub loaded_chunks: Vec<ChunkPos>,
    pub load_queue: VecDeque<ChunkPos>,
    pub unload_queue: VecDeque<Handle>,
}

impl ChunkManager {
    /// Nothing loaded and nothing queued.
    pub fn new() -> (r: Self)
        ensures
            r.loaded_chunks@.len() == 0,
            r.load_queue@.len() == 0,
            r.unload_queue@.len() == 0,
    {
        ChunkManager {
            loaded_chunks: Vec::new(),
            load_queue: VecDeque::new(),
            unload_queue: VecDeque::new(),
        }
    }
}

impl Default for ChunkManager {
    fn default() -> (r: Self)
        ensures
            r.loaded_chunks@.len() == 0,
            r.load_queue@.len() == 0,
            r.unload_queue@.len() == 0,
    {
        ChunkManager::new()
    }
}

/// The observer has entered chunk `observer`: resynchronise the loaded set with the
/// chunks that exist, queue every desired position that is neither loaded nor
/// queued (in scan order), and queue every existing chunk outside the desired
/// sphere that is not queued for removal yet (in `chunks` order).
pub fn update_chunk_manager(
    manager: &mut ChunkManager,
    observer: ChunkPos,
    radius: u8,
    chunks: &Vec<(Handle, ChunkPos)>,
)
    ensures
        final(manager).loaded_chunks@.no_duplicates(),
        forall|p: ChunkPos|
            #[trigger] final(manager).loaded_chunks@.contains(p) <==> positions_of(chunks@).contains(p),
        old(manager).load_queue@.len() <= final(manager).load_queue@.len(),
        final(manager).load_queue@.subrange(0, old(manager).load_queue@.len() as int) == old(
            manager,
        ).load_queue@,
        forall|k: int|
            old(manager).load_queue@.len() <= k < final(manager).load_queue@.len() ==> {
                let p = #[trigger] final(manager).load_queue@[k];
                in_sphere(observer, radius as int, p) && !positions_of(chunks@).contains(p)
                    && !old(manager).load_queue@.contains(p)
            },
        forall|k1: int, k2: int|
            old(manager).load_queue@.len() <= k1 < k2 < final(manager).load_queue@.len()
                ==> final(manager).load_queue@[k1] != final(manager).load_queue@[k2],
        forall|p: ChunkPos|
            in_sphere(observer, radius as int, p) && !positions_of(chunks@).contains(p)
                ==> #[trigger] final(manager).load_queue@.contains(p),
        old(manager).unload_queue@.len() <= final(manager).unload_queue@.len(),
        final(manager).unload_queue@.subrange(0, old(manager).unload_queue@.len() as int) == old(
            manager,
        ).unload_queue@,
        forall|k: int|
            old(manager).unload_queue@.len() <= k < final(manager).unload_queue@.len() ==> {
                let h = #[trigger] final(manager).unload_queue@[k];
                !old(manager).unload_queue@.contains(h) && exists|j: int|
                    0 <= j < chunks@.len() && chunks@[j].0 == h && !in_sphere(
                        observer,
                        radius as int,
                        #[trigger] chunks@[j].1,
                    )
            },
        forall|k1: int, k2: int|
            old(manager).unload_queue@.len() <= k1 < k2 < final(manager).unload_queue@.len()
                ==> final(manager).unload_queue@[k1] != final(manager).unload_queue@[k2],
        forall|j: int|
            0 <= j < chunks@.len() && !in_sphere(observer, radius as int, #[trigger] chunks@[j].1)
                ==> final(manager).unload_queue@.contains(chunks@[j].0),
{
    let ghost pos_set = positions_of(chunks@);
    let mut loaded: Vec<ChunkPos> = Vec::new();
    let mut i: usize = 0;
    while i < chunks.len()
        invariant
            0 <= i <= chunks@.len(),
            pos_set == positions_of(chunks@),
            loaded@.no_duplicates(),
            forall|q: ChunkPos|
                #[trigger] loaded@.contains(q) <==> exists|j: int| 0 <= j < i && pos_set[j] == q,
        decreases chunks@.len() - i,
    {
        let p = chunks[i].1;
        let ghost before = loaded@;
        assert(pos_set[i as int] == p);
        if !contains_pos(&loaded, p) {
            loaded.push(p);
            proof {
                assert forall|a: int, b: int| 0 <= a < b < loaded@.len() implies loaded@[a]
                    != loaded@[b] by {
                    if b == before.len() {
                        assert(before[a] == loaded@[a]);
                    } else {
                        assert(before[a] == loaded@[a] && before[b] == loaded@[b]);
                    }
                }
                assert forall|q: ChunkPos| #[trigger] loaded@.contains(q) <==> exists|j: int|
                    0 <= j < i + 1 && pos_set[j] == q by {
                    if loaded@.contains(q) && q != p {
                        let k = choose|k: int| 0 <= k < loaded@.len() && loaded@[k] == q;
                        assert(before[k] == q);
                        assert(before.contains(q));
                    }
                    if exists|j: int| 0 <= j < i + 1 && pos_set[j] == q {
                        if q == p {
                            assert(loaded@[before.len() as int] == p);
                        } else {
                            let j = choose|j: int| 0 <= j < i + 1 && pos_set[j] == q;
                            assert(j < i);
                            assert(before.contains(q));
                            let k = choose|k: int| 0 <= k < before.len() && before[k] == q;
                            assert(loaded@[k] == q);
                        }
                    }
                }
            }
        } else {
            proof {
                assert forall|q: ChunkPos| #[trigger] loaded@.contains(q) <==> exists|j: int|
                    0 <= j < i + 1 && pos_set[j] == q by {
                    if exists|j: int| 0 <= j < i + 1 && pos_set[j] == q {
                        let j = choose|j: int| 0 <= j < i + 1 && pos_set[j] == q;
                        if j < i {
                        } else {
                            assert(q == p);
                        }
                    }
                }
            }
        }
        i += 1;
    }
    proof {
        assert forall|q: ChunkPos| #[trigger] loaded@.contains(q) <==> pos_set.contains(q) by {
            if pos_set.contains(q) {
                let j = choose|j: int| 0 <= j < pos_set.len() && pos_set[j] == q;
                assert(0 <= j < i && pos_set[j] == q);
            }
        }
    }
    manager.loaded_chunks = loaded;
    let ghost lset = manager.loaded_chunks@;

    let desired = desired_chunks(observer, radius);
    let ghost old_q = manager.load_queue@;
    let ghost ql = old_q.len();
    let mut d: usize = 0;
    while d < desired.len()
        invariant
            0 <= d <= desired@.len(),
            manager.unload_queue@ == old(manager).unload_queue@,
            manager.loaded_chunks@ == lset,
            lset.no_duplicates(),
            forall|q: ChunkPos| #[trigger] lset.contains(q) <==> pos_set.contains(q),
            pos_set == positions_of(chunks@),
            ql <= manager.load_queue@.len(),
            manager.load_queue@.subrange(0, ql as int) == old_q,
            forall|k: int|
                ql <= k < manager.load_queue@.len() ==> {
                    let p = #[trigger] manager.load_queue@[k];
                    in_sphere(observer, radius as int, p) && !pos_set.contains(p)
                        && !old_q.contains(p)
                },
            forall|k1: int, k2: int|
                ql <= k1 < k2 < manager.load_queue@.len() ==> #[trigger] manager.load_queue@[k1]
                    != #[trigger] manager.load_queue@[k2],
            forall|j: int|
                0 <= j < d && !pos_set.contains(#[trigger] desired@[j])
                    ==> manager.load_queue@.contains(desired@[j]),
            forall|p: ChunkPos| #[trigger] desired@.contains(p) <==> in_sphere(observer, radius as int, p),
        decreases desired@.len() - d,
    {
        let p = desired[d];
        let ghost before = manager.load_queue@;
        if !contains_pos(&manager.loaded_chunks, p) && !queued_pos(&manager.load_queue, p) {
            manager.load_queue.push_back(p);
            proof {
                assert(desired@.contains(p));
                assert(!old_q.contains(p)) by {
                    if old_q.contains(p) {
                        let k = choose|k: int| 0 <= k < old_q.len() && old_q[k] == p;
                        assert(before[k] == p);
                    }
                }
                assert(manager.load_queue@.subrange(0, ql as int) =~= before.subrange(0, ql as int));
                assert forall|k: int| ql <= k < manager.load_queue@.len() implies {
                    let q = #[trigger] manager.load_queue@[k];
                    in_sphere(observer, radius as int, q) && !pos_set.contains(q) && !old_q.contains(q)
                } by {
                    if k < before.len() {
                        assert(manager.load_queue@[k] == before[k]);
                    }
                }
                assert forall|k1: int, k2: int|
                    ql <= k1 < k2 < manager.load_queue@.len() implies #[trigger] manager.load_queue@[k1]
                        != #[trigger] manager.load_queue@[k2] by {
                    assert(manager.load_queue@[k1] == before[k1]);
                    if k2 < before.len() {
                        assert(manager.load_queue@[k2] == before[k2]);
                    }
                }
                assert forall|j: int|
                    0 <= j < d + 1 && !pos_set.contains(#[trigger] desired@[j])
                        implies manager.load_queue@.contains(desired@[j]) by {
                    if j < d {
                        let k = choose|k: int| 0 <= k < before.len() && before[k] == desired@[j];
                        assert(manager.load_queue@[k] == desired@[j]);
                    } else {
                        assert(manager.load_queue@[before.len() as int] == p);
                    }
                }
            }
        }
        d += 1;
    }
    proof {
        assert forall|p: ChunkPos|
            in_sphere(observer, radius as int, p) && !pos_set.contains(p)
                implies #[trigger] manager.load_queue@.contains(p) by {
            assert(desired@.contains(p));
            let j = choose|j: int| 0 <= j < desired@.len() && desired@[j] == p;
            assert(!pos_set.contains(desired@[j]));
        }
    }

    let ghost old_u = manager.unload_queue@;
    let ghost ul = old_u.len();
    let mut j: usize = 0;
    while j < chunks.len()
        invariant
            0 <= j <= chunks@.len(),
            ul <= manager.unload_queue@.len(),
            manager.unload_queue@.subrange(0, ul as int) == old_u,
            forall|k: int|
                ul <= k < manager.unload_queue@.len() ==> {
                    let h = #[trigger] manager.unload_queue@[k];
                    !old_u.contains(h) && exists|i: int|
                        0 <= i < chunks@.len() && chunks@[i].0 == h && !in_sphere(
                            observer,
                            radius as int,
                            #[trigger] chunks@[i].1,
                        )
                },
            forall|k1: int, k2: int|
                ul <= k1 < k2 < manager.unload_queue@.len() ==> #[trigger] manager.unload_queue@[k1]
                    != #[trigger] manager.unload_queue@[k2],
            forall|i: int|
                0 <= i < j && !in_sphere(observer, radius as int, #[trigger] chunks@[i].1)
                    ==> manager.unload_queue@.contains(chunks@[i].0),
            forall|p: ChunkPos| #[trigger] desired@.contains(p) <==> in_sphere(observer, radius as int, p),
            manager.loaded_chunks@ == lset,
            lset.no_duplicates(),
            forall|q: ChunkPos| #[trigger] lset.contains(q) <==> pos_set.contains(q),
            ql <= manager.load_queue@.len(),
            manager.load_queue@.subrange(0, ql as int) == old_q,
            forall|k: int|
                ql <= k < manager.load_queue@.len() ==> {
                    let p = #[trigger] manager.load_queue@[k];
                    in_sphere(observer, radius as int, p) && !pos_set.contains(p)
                        && !old_q.contains(p)
                },
            forall|k1: int, k2: int|
                ql <= k1 < k2 < manager.load_queue@.len() ==> #[trigger] manager.load_queue@[k1]
                    != #[trigger] manager.load_queue@[k2],
            forall|p: ChunkPos|
                in_sphere(observer, radius as int, p) && !pos_set.contains(p)
                    ==> #[trigger] manager.load_queue@.contains(p),
        decreases chunks@.len() - j,
    {
        let (h, p) = chunks[j];
        let ghost before = manager.unload_queue@;
        if !contains_pos(&desired, p) && !queued_handle(&manager.unload_queue, h) {
            manager.unload_queue.push_back(h);
            proof {
                assert(!old_u.contains(h)) by {
                    if old_u.contains(h) {
                        let k = choose|k: int| 0 <= k < old_u.len() && old_u[k] == h;
                        assert(before[k] == h);
                    }
                }
                assert(manager.unload_queue@.subrange(0, ul as int) =~= before.subrange(0, ul as int));
                assert forall|k: int| ul <= k < manager.unload_queue@.len() implies {
                    let g = #[trigger] manager.unload_queue@[k];
                    !old_u.contains(g) && exists|i: int|
                        0 <= i < chunks@.len() && chunks@[i].0 == g && !in_sphere(
                            observer,
                            radius as int,
                            #[trigger] chunks@[i].1,
                        )
                } by {
                    if k < before.len() {
                        assert(manager.unload_queue@[k] == before[k]);
                    } else {
                        assert(chunks@[j as int].0 == h);
                        assert(!in_sphere(observer, radius as int, chunks@[j as int].1));
                    }
                }
                assert forall|k1: int, k2: int|
                    ul <= k1 < k2 < manager.unload_queue@.len() implies #[trigger] manager.unload_queue@[k1]
                        != #[trigger] manager.unload_queue@[k2] by {
                    assert(manager.unload_queue@[k1] == before[k1]);
                    if k2 < before.len() {
                        assert(manager.unload_queue@[k2] == before[k2]);
                    }
                }
                assert forall|i: int|
                    0 <= i < j + 1 && !in_sphere(observer, radius as int, #[trigger] chunks@[i].1)
                        implies manager.unload_queue@.contains(chunks@[i].0) by {
                    if i < j {
                        let k = choose|k: int| 0 <= k < before.len() && before[k] == chunks@[i].0;
                        assert(manager.unload_queue@[k] == chunks@[i].0);
                    } else {
                        assert(manager.unload_queue@[before.len() as int] == h);
                    }
                }
            }
        } else {
            proof {
                assert forall|i: int|
                    0 <= i < j + 1 && !in_sphere(observer, radius as int, #[trigger] chunks@[i].1)
                        implies manager.unload_queue@.contains(chunks@[i].0) by {
                    if i == j {
                        assert(!desired@.contains(p));
                    }
                }
            }
        }
        j += 1;
    }
}


/// Pops up to `n` positions off `queue`, loading each one that is not loaded yet.
/// Gives the loaded list, the queue and the positions loaded, in order.
pub open spec fn drain(loaded: Seq<ChunkPos>, queue: Seq<ChunkPos>, n: nat) -> (
    Seq<ChunkPos>,
    Seq<ChunkPos>,
    Seq<ChunkPos>,
)
    decreases n,
{
    if n == 0 || queue.len() == 0 {
        (loaded, queue, Seq::empty())
    } else if loaded.contains(queue[0]) {
        drain(loaded, queue.drop_first(), (n - 1) as nat)
    } else {
        let r = drain(loaded.push(queue[0]), queue.drop_first(), (n - 1) as nat);
        (r.0, r.1, seq![queue[0]] + r.2)
    }
}

/// `ticks` ticks of draining with `budget` each.
pub open spec fn run_ticks(loaded: Seq<ChunkPos>, queue: Seq<ChunkPos>, budget: nat, ticks: nat) -> (
    Seq<ChunkPos>,
    Seq<ChunkPos>,
    Seq<ChunkPos>,
)
    decreases ticks,
{
    if ticks == 0 {
        (loaded, queue, Seq::empty())
    } else {
        let a = drain(loaded, queue, budget);
        let b = run_ticks(a.0, a.1, budget, (ticks - 1) as nat);
        (b.0, b.1, a.2 + b.2)
    }
}

/// Where a chunk being loaded comes from.
#[derive(Clone, Copy, Debug, PartialEq, Eq, Structural)]
pub enum ChunkSource {
    /// Decoded from this entry of the save.
    Saved(usize),
    /// Generated from the terrain fields; it is new and must be saved.
    Generated,
}

/// The source of the chunk at `pos`: its first saved entry, else generation.
pub open spec fn source_of<V>(save: Seq<(ChunkPos, Vec<(u16, V)>)>, pos: ChunkPos) -> ChunkSource {
    match saved_index(save, pos) {
        Some(i) => ChunkSource::Saved(i as usize),
        None => ChunkSource::Generated,
    }
}

/// One chunk to create this tick, and the existing chunks beside it, by face slot,
/// whose neighbour links and meshes must be recomputed.
pub struct ChunkLoad {
    pub pos: ChunkPos,
    pub source: ChunkSource,
    pub neighbors: [Option<Handle>; 6],
}

/// The work of one tick.
pub struct TickPlan {
    pub loads: Vec<ChunkLoad>,
    pub unload: Option<Handle>,
}

/// The handles of a list of existing chunks.
pub open spec fn handles_of(chunks: Seq<(Handle, ChunkPos)>) -> Seq<Handle> {
    chunks.map_values(|e: (Handle, ChunkPos)| e.0)
}

/// Whether `h` is the handle of an existing chunk.
fn chunk_exists(chunks: &Vec<(Handle, ChunkPos)>, h: Handle) -> (r: bool)
    ensures
        r == handles_of(chunks@).contains(h),
{
    let mut i: usize = 0;
    while i < chunks.len()
        invariant
            0 <= i <= chunks@.len(),
            forall|k: int| 0 <= k < i ==> chunks@[k].0 != h,
        decreases chunks@.len() - i,
    {
        if chunks[i].0 == h {
            assert(handles_of(chunks@)[i as int] == h);
            return true;
        }
        i += 1;
    }
    false
}

/// One tick of streaming against the chunks that exist at its start: pop up to
/// `budget` positions off the load queue and plan a load for each one not loaded yet
/// (from the save where it has an entry), then pop one handle off the unload queue
/// and plan its removal if that chunk still exists.
pub fn load_local_chunks<V: Voxel>(
    manager: &mut ChunkManager,
    budget: u8,
    save: &WorldSave<V>,
    chunks: &Vec<(Handle, ChunkPos)>,
) -> (r: TickPlan)
    ensures
        old(manager).loaded_chunks@.no_duplicates() ==> final(manager).loaded_chunks@.no_duplicates(),
        final(manager).loaded_chunks@ == drain(
            old(manager).loaded_chunks@,
            old(manager).load_queue@,
            budget as nat,
        ).0,
        final(manager).load_queue@ == drain(
            old(manager).loaded_chunks@,
            old(manager).load_queue@,
            budget as nat,
        ).1,
        r.loads@.len() == drain(
            old(manager).loaded_chunks@,
            old(manager).load_queue@,
            budget as nat,
        ).2.len(),
        forall|k: int|
            0 <= k < r.loads@.len() ==> {
                let l = #[trigger] r.loads@[k];
                &&& l.pos == drain(
                    old(manager).loaded_chunks@,
                    old(manager).load_queue@,
                    budget as nat,
                ).2[k]
                &&& l.source == source_of(save.chunks@, l.pos)
                &&& forall|i: int|
                    0 <= i < 6 ==> #[trigger] l.neighbors[i] == find_chunk(
                        chunks@,
                        spec_neighbor_pos(l.pos, spec_face_at(i)),
                        None,
                    )
            },
        old(manager).unload_queue@.len() == 0 ==> r.unload is None && final(manager).unload_queue@
            == old(manager).unload_queue@,
        old(manager).unload_queue@.len() > 0 ==> final(manager).unload_queue@ == old(
            manager,
        ).unload_queue@.drop_first() && r.unload == (if handles_of(chunks@).contains(
            old(manager).unload_queue@[0],
        ) {
            Some(old(manager).unload_queue@[0])
        } else {
            None
        }),
{
    let ghost total = drain(manager.loaded_chunks@, manager.load_queue@, budget as nat);
    let ghost old_unload = manager.unload_queue@;
    let ghost fresh = manager.loaded_chunks@.no_duplicates();
    let ghost mut done: Seq<ChunkPos> = Seq::empty();
    let mut loads: Vec<ChunkLoad> = Vec::new();
    let mut i: u8 = 0;
    while i < budget && manager.load_queue.len() > 0
        invariant
            0 <= i <= budget,
            manager.unload_queue@ == old_unload,
            fresh ==> manager.loaded_chunks@.no_duplicates(),
            drain(manager.loaded_chunks@, manager.load_queue@, (budget - i) as nat).0 == total.0,
            drain(manager.loaded_chunks@, manager.load_queue@, (budget - i) as nat).1 == total.1,
            done + drain(manager.loaded_chunks@, manager.load_queue@, (budget - i) as nat).2
                == total.2,
            loads@.len() == done.len(),
            forall|k: int|
                0 <= k < loads@.len() ==> {
                    let l = #[trigger] loads@[k];
                    &&& l.pos == done[k]
                    &&& l.source == source_of(save.chunks@, l.pos)
                    &&& forall|i: int|
                        0 <= i < 6 ==> #[trigger] l.neighbors[i] == find_chunk(
                            chunks@,
                            spec_neighbor_pos(l.pos, spec_face_at(i)),
                            None,
                        )
                },
        decreases budget - i,
    {
        let ghost q0 = manager.load_queue@;
        let ghost l0 = manager.loaded_chunks@;
        let pos = manager.load_queue[0];
        let _ = manager.load_queue.pop_front();
        proof {
            assert(manager.load_queue@ =~= q0.drop_first());
        }
        if !contains_pos(&manager.loaded_chunks, pos) {
            let source = match save.find(pos) {
                Some(j) => ChunkSource::Saved(j),
                None => ChunkSource::Generated,
            };
            let neighbors = neighbor_handles(pos, chunks, None);
            loads.push(ChunkLoad { pos, source, neighbors });
            manager.loaded_chunks.push(pos);
            proof {
                if fresh {
                    assert forall|a: int, b: int|
                        0 <= a < b < manager.loaded_chunks@.len() implies manager.loaded_chunks@[a]
                        != manager.loaded_chunks@[b] by {
                        assert(manager.loaded_chunks@[a] == l0[a]);
                        if b < l0.len() {
                            assert(manager.loaded_chunks@[b] == l0[b]);
                        } else {
                            assert(l0.contains(l0[a]));
                        }
                    }
                }
                let rest = drain(l0.push(pos), q0.drop_first(), (budget - i - 1) as nat);
                assert(drain(l0, q0, (budget - i) as nat).2 == seq![pos] + rest.2);
                assert(done.push(pos) + rest.2 =~= done + (seq![pos] + rest.2));
                done = done.push(pos);
                assert forall|k: int|
                    0 <= k < loads@.len() implies {
                        let l = #[trigger] loads@[k];
                        &&& l.pos == done[k]
                        &&& l.source == source_of(save.chunks@, l.pos)
                        &&& forall|i: int|
                            0 <= i < 6 ==> #[trigger] l.neighbors[i] == find_chunk(
                                chunks@,
                                spec_neighbor_pos(l.pos, spec_face_at(i)),
                                None,
                            )
                    } by {}
            }
        }
        i += 1;
    }
    proof {
        assert(done + Seq::<ChunkPos>::empty() =~= done);
    }
    let mut unload: Option<Handle> = None;
    if manager.unload_queue.len() > 0 {
        if let Some(h) = manager.unload_queue.pop_front() {
            proof {
                assert(manager.unload_queue@ =~= old_unload.drop_first());
            }
            if chunk_exists(chunks, h) {
                unload = Some(h);
            }
        }
    }
    TickPlan { loads, unload }
}

/// Draining a queue without repeats, none of whose positions is loaded, loads its
/// first `min(n, len)` positions in order.
proof fn lemma_drain_fresh(loaded: Seq<ChunkPos>, queue: Seq<ChunkPos>, n: nat)
    requires
        queue.no_duplicates(),
        forall|k: int| 0 <= k < queue.len() ==> !loaded.contains(#[trigger] queue[k]),
    ensures
        ({
            let m = if n < queue.len() { n as int } else { queue.len() as int };
            drain(loaded, queue, n) == (
                loaded + queue.subrange(0, m),
                queue.subrange(m, queue.len() as int),
                queue.subrange(0, m),
            )
        }),
    decreases n,
{
    if n == 0 || queue.len() == 0 {
        assert(loaded + queue.subrange(0, 0) =~= loaded);
        assert(queue.subrange(0, queue.len() as int) =~= queue);
        assert(queue.subrange(0, 0) =~= Seq::<ChunkPos>::empty());
    } else {
        let p = queue[0];
        assert(!loaded.contains(queue[0]));
        let rest = queue.drop_first();
        assert forall|k: int| 0 <= k < rest.len() implies !loaded.push(p).contains(#[trigger] rest[k]) by {
            assert(rest[k] == queue[k + 1]);
            if loaded.push(p).contains(rest[k]) {
                let j = choose|j: int| 0 <= j < loaded.push(p).len() && loaded.push(p)[j] == rest[k];
                if j < loaded.len() {
                    assert(loaded[j] == rest[k]);
                }
            }
        }
        lemma_drain_fresh(loaded.push(p), rest, (n - 1) as nat);
        let m = if n < queue.len() { n as int } else { queue.len() as int };
        assert(loaded.push(p) + rest.subrange(0, m - 1) =~= loaded + queue.subrange(0, m));
        assert(rest.subrange(m - 1, rest.len() as int) =~= queue.subrange(m, queue.len() as int));
        assert(seq![p] + rest.subrange(0, m - 1) =~= queue.subrange(0, m));
    }
}

/// Ticking long enough with a positive budget loads every queued position once.
proof fn lemma_run_ticks_fresh(loaded: Seq<ChunkPos>, queue: Seq<ChunkPos>, budget: nat, ticks: nat)
    requires
        budget > 0,
        ticks * budget >= queue.len(),
        queue.no_duplicates(),
        forall|k: int| 0 <= k < queue.len() ==> !loaded.contains(#[trigger] queue[k]),
    ensures
        run_ticks(loaded, queue, budget, ticks) == (loaded + queue, Seq::<ChunkPos>::empty(), queue),
    decreases ticks,
{
    if ticks == 0 {
        assert(queue.len() == 0) by (nonlinear_arith)
            requires
                ticks == 0,
                ticks * budget >= queue.len(),
        ;
        assert(loaded + queue =~= loaded);
        assert(queue =~= Seq::<ChunkPos>::empty());
    } else {
        lemma_drain_fresh(loaded, queue, budget);
        let m = if budget < queue.len() { budget as int } else { queue.len() as int };
        let l1 = loaded + queue.subrange(0, m);
        let q1 = queue.subrange(m, queue.len() as int);
        assert((ticks - 1) * budget >= q1.len()) by (nonlinear_arith)
            requires
                ticks * budget >= queue.len(),
                q1.len() == queue.len() - m,
                m == budget || m == queue.len(),
                ticks >= 1,
        ;
        assert forall|k: int| 0 <= k < q1.len() implies !l1.contains(#[trigger] q1[k]) by {
            assert(q1[k] == queue[k + m]);
            if l1.contains(q1[k]) {
                let j = choose|j: int| 0 <= j < l1.len() && l1[j] == q1[k];
                if j < loaded.len() {
                    assert(loaded[j] == queue[k + m]);
                } else {
                    assert(queue[j - loaded.len()] == queue[k + m]);
                }
            }
        }
        assert(q1.no_duplicates()) by {
            assert forall|a: int, b: int| 0 <= a < b < q1.len() implies q1[a] != q1[b] by {
                assert(q1[a] == queue[a + m] && q1[b] == queue[b + m]);
            }
        }
        lemma_run_ticks_fresh(l1, q1, budget, (ticks - 1) as nat);
        assert(l1 + q1 =~= loaded + queue);
        assert(queue.subrange(0, m) + q1 =~= queue);
    }
}

/// Successive ticks: `states[t]` is the loaded list and load queue before tick `t`,
/// and each tick, as `load_local_chunks` states it, drains the previous state by
/// `budget` into the next one and loads `loads[t]`.
pub open spec fn ticks_chained(
    states: Seq<(Seq<ChunkPos>, Seq<ChunkPos>)>,
    loads: Seq<Seq<ChunkPos>>,
    budget: nat,
) -> bool {
    &&& states.len() == loads.len() + 1
    &&& forall|t: int|
        0 <= t < loads.len() ==> {
            let d = drain(states[t].0, states[t].1, budget);
            &&& #[trigger] states[t + 1] == (d.0, d.1)
            &&& loads[t] == d.2
        }
}

/// A chain of ticks is `run_ticks` from its first state.
proof fn lemma_chain_runs(
    states: Seq<(Seq<ChunkPos>, Seq<ChunkPos>)>,
    loads: Seq<Seq<ChunkPos>>,
    budget: nat,
)
    requires
        ticks_chained(states, loads, budget),
    ensures
        ({
            let r = run_ticks(states[0].0, states[0].1, budget, loads.len());
            states.last() == (r.0, r.1) && loads.flatten() == r.2
        }),
    decreases loads.len(),
{
    if loads.len() == 0 {
        assert(loads.flatten() =~= Seq::<ChunkPos>::empty());
    } else {
        let s2 = states.drop_first();
        let l2 = loads.drop_first();
        assert forall|t: int| 0 <= t < l2.len() implies {
            let d = drain(s2[t].0, s2[t].1, budget);
            &&& #[trigger] s2[t + 1] == (d.0, d.1)
            &&& l2[t] == d.2
        } by {
            assert(s2[t + 1] == states[t + 2]);
            assert(states[(t + 1) + 1] == states[t + 2]);
        }
        assert(ticks_chained(s2, l2, budget));
        lemma_chain_runs(s2, l2, budget);
        assert(states[1int] == s2[0]);
        assert(s2.last() == states.last());
    }
}

/// Streaming converges: from nothing loaded, with the load queue holding each
/// desired position once (as `update_chunk_manager` leaves it when no chunk
/// exists), any chain of `ticks` ticks at a positive budget, with `ticks * budget`
/// at least the queue's length, ends with exactly the desired set loaded and the
/// queue empty, and over all ticks loads each position once.
pub proof fn lemma_streaming_converges(
    observer: ChunkPos,
    radius: u8,
    states: Seq<(Seq<ChunkPos>, Seq<ChunkPos>)>,
    loads: Seq<Seq<ChunkPos>>,
    budget: nat,
)
    requires
        ticks_chained(states, loads, budget),
        states[0].0.len() == 0,
        states[0].1.no_duplicates(),
        states[0].1.to_set() == desired_set(observer, radius as int),
        budget > 0,
        loads.len() * budget >= states[0].1.len(),
    ensures
        states.last().0.to_set() == desired_set(observer, radius as int),
        states.last().1.len() == 0,
        loads.flatten().no_duplicates(),
        loads.flatten() == states.last().0,
{
    let queue = states[0].1;
    assert(states[0].0 =~= Seq::<ChunkPos>::empty());
    lemma_chain_runs(states, loads, budget);
    lemma_run_ticks_fresh(Seq::empty(), queue, budget, loads.len());
    assert(Seq::<ChunkPos>::empty() + queue =~= queue);
}

} // verus!
