//! A sparse voxel scene: integer voxel geometry, a sparse voxel octree that
//! maps occupied voxels to materials, an importance-pruned light index, and the
//! packed material/chunk format used for GPU upload.

pub mod geometry;
pub mod octree;
pub mod lights;
pub mod chunk;
pub mod material;
