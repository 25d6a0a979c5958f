use vstd::prelude::*;

use crate::voxel::Voxel;

verus! {

/// The voxel kinds of the world, in id order.
#[derive(Clone, Copy, Debug, Default, PartialEq, Eq, Hash, Structural)]
pub enum Block {
    #[default]
    Air,
    Stone,
    Dirt,
    Grass,
}

impl Voxel for Block {
    open spec fn spec_is_opaque(&self) -> bool {
        !(*self is Air)
    }

    open spec fn spec_raw(&self) -> nat {
        match *self {
            Block::Air => 0,
            Block::Stone => 1,
            Block::Dirt => 2,
            Block::Grass => 3,
        }
    }

    open spec fn spec_count() -> nat {
        4
    }

    open spec fn spec_empty() -> Self {
        Block::Air
    }

    proof fn lemma_raw(a: Self, b: Self) {
    }

    fn default_empty() -> (r: Self) {
        Block::Air
    }

    fn default_opaque() -> (r: Self) {
        Block::Stone
    }

    fn is_opaque(&self) -> (r: bool) {
        match self {
            Block::Air => false,
            _ => true,
        }
    }

    fn lerp(a: Self, b: Self, t_num: u64, t_den: u64) -> (r: Self) {
        if (t_num as u128) * 2 < t_den as u128 {
            a
        } else {
            b
        }
    }

    fn raw(&self) -> (r: u32) {
        match self {
            Block::Air => 0,
            Block::Stone => 1,
            Block::Dirt => 2,
            Block::Grass => 3,
        }
    }

    fn all() -> (r: Vec<Self>) {
        vec![Block::Air, Block::Stone, Block::Dirt, Block::Grass]
    }
}

} // verus!
