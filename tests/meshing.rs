use voxel_world::block::Block;
use voxel_world::chunk::Chunk;
use voxel_world::face::Face;
use voxel_world::mesh::{atlas_rect, atlas_rect_for, mesh_from_quads, MeshStrategy, Quad};
use voxel_world::voxel::Voxel;

const NONE: [Option<&Chunk<Block>>; 6] = [None, None, None, None, None, None];

/// The unit faces held by a list of quads.
fn unit_faces(quads: &[Quad]) -> Vec<([u8; 3], usize)> {
    let mut out = Vec::new();
    for q in quads {
        for x in q.min[0]..q.max[0] {
            for y in q.min[1]..q.max[1] {
                for z in q.min[2]..q.max[2] {
                    out.push(([x, y, z], q.face.index()));
                }
            }
        }
    }
    out.sort();
    out
}

fn full_chunk(b: Block) -> Chunk<Block> {
    let mut c: Chunk<Block> = Chunk::new();
    for x in 0..16u8 {
        for y in 0..16u8 {
            for z in 0..16u8 {
                *c.get_mut([x, y, z]) = b;
            }
        }
    }
    c
}

fn terrain_like() -> Chunk<Block> {
    let mut c: Chunk<Block> = Chunk::new();
    for x in 0..16u8 {
        for z in 0..16u8 {
            let h = 4 + (x as u32 * 3 + z as u32 * 5) % 7;
            for y in 0..h as u8 {
                let b = if y + 1 == h as u8 { Block::Grass } else if y + 3 >= h as u8 { Block::Dirt } else { Block::Stone };
                *c.get_mut([x, y, z]) = b;
            }
        }
    }
    *c.get_mut([8, 1, 8]) = Block::Air;
    c
}

#[test]
fn atlas_uv_for_three_kinds() {
    // empty plus two opaque kinds; a face of the kind with id 1 on the top row
    let r = atlas_rect_for(1, Face::Top, 3);
    assert_eq!((r.columns, r.rows), (2, 6));
    let u0 = r.u0 as f64 / r.columns as f64;
    let v0 = r.v0 as f64 / r.rows as f64;
    let u1 = r.u1 as f64 / r.columns as f64;
    let v1 = r.v1 as f64 / r.rows as f64;
    assert_eq!(u0, 1.0 * (1.0 / 2.0));
    assert!((v0 - 4.0 * (1.0 / 6.0)).abs() < 1e-12);
    assert!((u1 - (u0 + 1.0 / 2.0)).abs() < 1e-12);
    assert!((v1 - (v0 + 1.0 / 6.0)).abs() < 1e-12);
}

#[test]
fn atlas_uv_for_blocks() {
    let r = atlas_rect(&Block::Dirt, Face::Back);
    assert_eq!((r.u0, r.u1, r.v0, r.v1, r.columns, r.rows), (2, 3, 2, 3, 3, 6));
}

#[test]
fn single_voxel_has_six_faces() {
    let mut c: Chunk<Block> = Chunk::new();
    *c.get_mut([5, 6, 7]) = Block::Stone;
    let naive = c.naive_quads(&NONE);
    assert_eq!(naive.len(), 6);
    let greedy = c.greedy_quads(&NONE);
    assert_eq!(greedy.len(), 6);
    assert_eq!(unit_faces(&naive), unit_faces(&greedy));
    assert!(naive.iter().all(|q| q.raw == 1 && q.min == [5, 6, 7] && q.max == [6, 7, 8]));
}

#[test]
fn interior_voxel_gets_no_quads() {
    let c = full_chunk(Block::Stone);
    let naive = c.naive_quads(&NONE);
    assert!(naive.iter().all(|q| q.min != [7, 7, 7]));
    assert!(!c.cull_face([0, 5, 5], Face::Left, &NONE));
    assert!(c.cull_face([1, 5, 5], Face::Left, &NONE));
    assert!(c.cull_face([7, 7, 7], Face::Top, &NONE));
}

#[test]
fn open_boundary_faces_are_drawn() {
    let c = full_chunk(Block::Stone);
    let naive = c.naive_quads(&NONE);
    // every boundary face of the cube, none inside
    assert_eq!(naive.len(), 6 * 256);
    assert!(naive.iter().any(|q| q.min == [0, 3, 4] && q.face == Face::Left));
    assert!(naive.iter().any(|q| q.min == [15, 3, 4] && q.face == Face::Right));
    let greedy = c.greedy_quads(&NONE);
    assert_eq!(greedy.len(), 6);
    assert_eq!(unit_faces(&naive), unit_faces(&greedy));
}

#[test]
fn present_neighbor_hides_boundary() {
    let c = full_chunk(Block::Stone);
    let left = full_chunk(Block::Dirt);
    let empty: Chunk<Block> = Chunk::new();
    let nb = [Some(&left), Some(&empty), None, None, None, None];
    assert!(c.cull_face([0, 2, 2], Face::Left, &nb));
    assert!(!c.cull_face([15, 2, 2], Face::Right, &nb));
    let naive = c.naive_quads(&nb);
    assert_eq!(naive.len(), 5 * 256);
    assert!(naive.iter().all(|q| q.face != Face::Left));
    let greedy = c.greedy_quads(&nb);
    assert_eq!(unit_faces(&naive), unit_faces(&greedy));
}

#[test]
fn greedy_matches_naive_on_terrain() {
    let c = terrain_like();
    let side = full_chunk(Block::Stone);
    let nb = [None, Some(&side), Some(&side), None, None, None];
    let naive = c.naive_quads(&nb);
    let greedy = c.greedy_quads(&nb);
    assert!(greedy.len() < naive.len());
    assert_eq!(unit_faces(&naive), unit_faces(&greedy));
    // each greedy quad shows a single kind
    for q in &greedy {
        for x in q.min[0]..q.max[0] {
            for y in q.min[1]..q.max[1] {
                for z in q.min[2]..q.max[2] {
                    assert_eq!(c.get([x, y, z]).raw(), q.raw);
                }
            }
        }
    }
}

#[test]
fn greedy_does_not_merge_different_kinds() {
    let mut c: Chunk<Block> = Chunk::new();
    *c.get_mut([0, 0, 0]) = Block::Stone;
    *c.get_mut([0, 0, 1]) = Block::Dirt;
    let greedy = c.greedy_quads(&NONE);
    let naive = c.naive_quads(&NONE);
    assert_eq!(naive.len(), 10);
    assert_eq!(unit_faces(&naive), unit_faces(&greedy));
    assert!(greedy.iter().all(|q| q.face == Face::Back || q.face == Face::Front || (q.max[2] - q.min[2] == 1)));
}

#[test]
fn mesh_buffers_follow_quads() {
    let mut c: Chunk<Block> = Chunk::new();
    *c.get_mut([0, 0, 0]) = Block::Grass;
    let mesh = c.generate_mesh(&NONE, MeshStrategy::Naive);
    assert_eq!(mesh.positions.len(), 24);
    assert_eq!(mesh.normals.len(), 24);
    assert_eq!(mesh.uvs.len(), 24);
    assert_eq!(mesh.indices.len(), 36);
    assert_eq!((mesh.columns, mesh.rows), (3, 6));
    assert_eq!(&mesh.indices[6..12], &[4, 5, 6, 4, 6, 7]);
    let greedy = c.generate_mesh(&NONE, MeshStrategy::Greedy);
    assert_eq!(greedy.positions.len(), 24);

    let q = Quad { face: Face::Top, min: [1, 2, 3], max: [2, 3, 4], raw: 1 };
    let m = mesh_from_quads(&vec![q], 3);
    assert_eq!(m.positions, vec![[2, 3, 3], [1, 3, 3], [1, 3, 4], [2, 3, 4]]);
    assert_eq!(m.normals, vec![[0, 1, 0]; 4]);
    assert_eq!(m.uvs, vec![[1, 5], [1, 4], [2, 4], [2, 5]]);
    assert_eq!(m.indices, vec![0, 1, 2, 0, 2, 3]);
}

#[test]
fn greedy_merges_a_row_into_one_quad() {
    let mut c: Chunk<Block> = Chunk::new();
    for x in 2..5u8 {
        *c.get_mut([x, 7, 9]) = Block::Dirt;
    }
    let greedy = c.greedy_quads(&NONE);
    let top: Vec<&Quad> = greedy.iter().filter(|q| q.face == Face::Top).collect();
    assert_eq!(top.len(), 1);
    assert_eq!((top[0].min, top[0].max), ([2, 7, 9], [5, 8, 10]));
    assert_eq!(greedy.len(), 6);
    assert_eq!(c.naive_quads(&NONE).len(), 14);
}
