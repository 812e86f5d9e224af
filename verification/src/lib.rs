//! A voxel world: chunked storage, edits that cross chunk seams, sky and
//! diffuse lighting, and greedy quad meshing.

pub mod positions;
pub mod shape;
pub mod items;
pub mod queue;
pub mod structures;
pub mod sky;
pub mod chunk;
pub mod lighting;
pub mod chunk_filling;
pub mod meshing;
pub mod world;
