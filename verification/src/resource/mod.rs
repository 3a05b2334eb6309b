//! GPU resource bookkeeping: buffers, meshes, textures and caches.

pub mod gpu_vector;
pub mod dynamic_buffer;
pub mod texture;
pub mod mesh;
pub mod managers;
pub mod pipeline_cache;
