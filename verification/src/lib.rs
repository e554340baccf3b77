//! Converts a triangulated, textured 3D mesh into a list of axis-aligned
//! cuboid bricks at voxel resolution, for import into a brick-building game.
//!
//! The pipeline: a triangle rasterizer fills a sparse voxel volume
//! ([`voxelize`]), a greedy merger collapses runs of same- or
//! similar-colored voxels into minimal cuboid regions ([`simplify`]), and an
//! assembler maps each region to a final brick record ([`save`]). The color
//! machinery ([`color`], [`palette`]) works in exact integer arithmetic:
//! gamma correction, HSV conversions, circular-hue averaging and
//! nearest-palette matching.
//!
//! The merger's contract states that the emitted regions exactly partition
//! the initially occupied cells; in lossless mode every cell of a region
//! palette-matches to the region's reported index. Reading the mesh from
//! disk and writing the save container are left to unverified callers.

pub mod color;
pub mod error;
pub mod logger;
pub mod octree;
pub mod palette;
pub mod save;
pub mod simplify;
pub mod text;
pub mod voxelize;
