use vstd::prelude::*;

verus! {

/// One of the six axis-aligned face directions of a voxel.
#[derive(Clone, Copy, Debug, PartialEq, Eq, Hash, Structural)]
pub enum Face {
    Left,
    Right,
    Bottom,
    Top,
    Back,
    Front,
}

/// The axis a face is perpendicular to: 0 for x, 1 for y, 2 for z.
pub open spec fn spec_axis(f: Face) -> int {
    match f {
        Face::Left | Face::Right => 0,
        Face::Bottom | Face::Top => 1,
        Face::Back | Face::Front => 2,
    }
}

/// Whether a face points towards increasing coordinates.
pub open spec fn spec_sign(f: Face) -> bool {
    match f {
        Face::Left | Face::Bottom | Face::Back => false,
        _ => true,
    }
}

/// The slot of a face in a neighbour set and in `Face::all()`.
pub open spec fn spec_index(f: Face) -> int {
    match f {
        Face::Left => 0,
        Face::Right => 1,
        Face::Bottom => 2,
        Face::Top => 3,
        Face::Back => 4,
        Face::Front => 5,
    }
}

/// The texture-atlas row of a face direction.
pub open spec fn spec_atlas_row(f: Face) -> int {
    match f {
        Face::Left => 0,
        Face::Bottom => 1,
        Face::Back => 2,
        Face::Right => 3,
        Face::Top => 4,
        Face::Front => 5,
    }
}

/// The unit step of a face direction along axis `a`.
pub open spec fn spec_step(f: Face, a: int) -> int {
    if spec_axis(f) != a {
        0
    } else if spec_sign(f) {
        1
    } else {
        -1
    }
}

/// The face at a slot of `Face::all()`.
pub open spec fn spec_face_at(i: int) -> Face {
    if i == 0 {
        Face::Left
    } else if i == 1 {
        Face::Right
    } else if i == 2 {
        Face::Bottom
    } else if i == 3 {
        Face::Top
    } else if i == 4 {
        Face::Back
    } else {
        Face::Front
    }
}

/// The outward unit normal of a face direction.
pub open spec fn spec_normal(f: Face) -> [i32; 3] {
    match f {
        Face::Left => [-1i32, 0, 0],
        Face::Right => [1, 0, 0],
        Face::Bottom => [0, -1i32, 0],
        Face::Top => [0, 1, 0],
        Face::Back => [0, 0, -1i32],
        Face::Front => [0, 0, 1],
    }
}

/// The four corners of face `f` of the box spanning `n..p`, in the winding that
/// makes the face look outward.
pub open spec fn spec_positions(f: Face, n: [u32; 3], p: [u32; 3]) -> [[u32; 3]; 4] {
    match f {
        Face::Left => [[n[0], n[1], p[2]], [n[0], p[1], p[2]], [n[0], p[1], n[2]], [n[0], n[1], n[2]]],
        Face::Right => [[p[0], n[1], n[2]], [p[0], p[1], n[2]], [p[0], p[1], p[2]], [p[0], n[1], p[2]]],
        Face::Bottom => [[p[0], n[1], p[2]], [n[0], n[1], p[2]], [n[0], n[1], n[2]], [p[0], n[1], n[2]]],
        Face::Top => [[p[0], p[1], n[2]], [n[0], p[1], n[2]], [n[0], p[1], p[2]], [p[0], p[1], p[2]]],
        Face::Back => [[n[0], n[1], n[2]], [n[0], p[1], n[2]], [p[0], p[1], n[2]], [p[0], n[1], n[2]]],
        Face::Front => [[p[0], n[1], p[2]], [p[0], p[1], p[2]], [n[0], p[1], p[2]], [n[0], n[1], p[2]]],
    }
}

impl Face {
    pub fn sign(&self) -> (r: bool)
        ensures
            r == spec_sign(*self),
    {
        match self {
            Face::Left | Face::Bottom | Face::Back => false,
            _ => true,
        }
    }

    pub fn axis(&self) -> (r: usize)
        ensures
            r as int == spec_axis(*self),
    {
        match self {
            Face::Left | Face::Right => 0,
            Face::Bottom | Face::Top => 1,
            Face::Back | Face::Front => 2,
        }
    }

    pub fn index(&self) -> (r: usize)
        ensures
            r as int == spec_index(*self),
    {
        match self {
            Face::Left => 0,
            Face::Right => 1,
            Face::Bottom => 2,
            Face::Top => 3,
            Face::Back => 4,
            Face::Front => 5,
        }
    }

    /// The row of the texture atlas that holds this direction's textures.
    pub fn atlas_row(&self) -> (r: u32)
        ensures
            r as int == spec_atlas_row(*self),
    {
        match self {
            Face::Left => 0,
            Face::Bottom => 1,
            Face::Back => 2,
            Face::Right => 3,
            Face::Top => 4,
            Face::Front => 5,
        }
    }

    /// The outward unit normal.
    pub fn normal(&self) -> (r: [i32; 3])
        ensures
            r == spec_normal(*self),
            forall|a: int| 0 <= a < 3 ==> r[a] as int == spec_step(*self, a),
    {
        match self {
            Face::Left => [-1, 0, 0],
            Face::Right => [1, 0, 0],
            Face::Bottom => [0, -1, 0],
            Face::Top => [0, 1, 0],
            Face::Back => [0, 0, -1],
            Face::Front => [0, 0, 1],
        }
    }

    /// The four corners of this face of the box spanning `min..max`, wound so that
    /// the outward normal faces the viewer.
    pub fn positions(&self, min: [u32; 3], max: [u32; 3]) -> (r: [[u32; 3]; 4])
        ensures
            r == spec_positions(*self, min, max),
            forall|k: int|
                0 <= k < 4 ==> (#[trigger] r[k])[spec_axis(*self)] == (if spec_sign(*self) {
                    max[spec_axis(*self)]
                } else {
                    min[spec_axis(*self)]
                }),
    {
        let (x0, y0, z0) = (min[0], min[1], min[2]);
        let (x1, y1, z1) = (max[0], max[1], max[2]);
        match self {
            Face::Left => [[x0, y0, z1], [x0, y1, z1], [x0, y1, z0], [x0, y0, z0]],
            Face::Right => [[x1, y0, z0], [x1, y1, z0], [x1, y1, z1], [x1, y0, z1]],
            Face::Bottom => [[x1, y0, z1], [x0, y0, z1], [x0, y0, z0], [x1, y0, z0]],
            Face::Top => [[x1, y1, z0], [x0, y1, z0], [x0, y1, z1], [x1, y1, z1]],
            Face::Back => [[x0, y0, z0], [x0, y1, z0], [x1, y1, z0], [x1, y0, z0]],
            Face::Front => [[x1, y0, z1], [x1, y1, z1], [x0, y1, z1], [x0, y0, z1]],
        }
    }

    /// Every face direction, in slot order.
    pub fn all() -> (r: [Face; 6])
        ensures
            forall|i: int| 0 <= i < 6 ==> #[trigger] r[i] == spec_face_at(i) && spec_index(r[i]) == i,
    {
        [Face::Left, Face::Right, Face::Bottom, Face::Top, Face::Back, Face::Front]
    }
}

} // verus!
