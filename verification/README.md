# kiss3d core

The CPU-side logic of a small wgpu-based 3D/2D renderer, verified with Verus.

`src/` is the verified library:

- `scene::graph` — the scene graph as an arena forest: parent/child links,
  visibility, depth-first walks, and the bookkeeping of which world
  transforms are out of date.
- `scene::animation` — which animation clip plays and how.
- `sprite`, `tilemap` — sprite-sheet frames, 9-slice and tilemap mesh layout.
- `raytracer` — the path tracer's accumulation state machine, resolution
  capping, FNV-1a scene hashing, the two-level layout of a gathered scene
  (which objects contribute; mesh, instance, material and texture-layer
  numbering), the BVH builder's integer core (node layout, partitioning,
  triangle order, the build loop) and the denoiser's pass schedule.
- `renderer` — render-target sizing, buffer capacity growth, half-precision
  conversion, reflection probes and transmission settings.
- `resource` — GPU vector and dynamic uniform buffer bookkeeping, texture mip
  chains, mesh topology, name-keyed resource caches (textures decoded from
  image bytes through the `image` crate) and the pipeline cache.

`app/` is ordinary Rust around it: the wgpu calls that perform the uploads the
library decides, the floating-point computations (transform composition,
SAH split costs, UV rectangles, playback time), and serde copies of settings.

`tests/` exercises the library on concrete values.
