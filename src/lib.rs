//! Tile-based vector rasterization support: a quadtree texture atlas
//! allocator, integer tile geometry and the packed records handed to the GPU.

pub mod geometry;
pub mod gpu_data;
pub mod quadtree;
pub mod allocator;
pub mod tile_map;
pub mod tiles;
pub mod device;
