//! Verified core of a small 2D/3D rendering library: the integer layout,
//! bookkeeping and state-machine logic behind sprites, tilemaps, meshes,
//! textures, GPU buffers, resource caches and the progressive path tracer.

pub mod sprite;
pub mod raytracer;
pub mod resource;
pub mod tilemap;
pub mod renderer;
pub mod scene;
