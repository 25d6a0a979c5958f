
pub mod block;
pub mod chunk;
pub mod codec;
pub mod face;
pub mod greedy;
pub mod mesh;
pub mod stream;
pub mod terrain;
pub mod voxel;
pub mod world;
