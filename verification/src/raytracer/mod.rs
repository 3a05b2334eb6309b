//! The progressive path tracer's CPU-side logic: backend choice, resolution
//! capping, and the accumulation state machine that decides when the running
//! image must restart.

pub mod bvh;
pub mod denoise;
pub mod scene_data;

use vstd::prelude::*;

verus! {

/// Which intersection backend the path tracer uses.
#[derive(Clone, Copy, PartialEq, Eq, Debug, Structural)]
pub enum RayBackend {
    /// Portable compute-shader BVH traversal.
    Compute,
    /// Hardware ray queries (requires GPU support).
    HardwareRayQuery,
}

/// The backend used on a device: hardware ray queries when the device
/// supports them, the compute kernel otherwise.
pub fn pick_backend(ray_query_supported: bool) -> (b: RayBackend)
    ensures
        b == (if ray_query_supported { RayBackend::HardwareRayQuery } else { RayBackend::Compute }),
{
    if ray_query_supported {
        RayBackend::HardwareRayQuery
    } else {
        RayBackend::Compute
    }
}

/// Bytes per pixel of one accumulation region (one `vec4<f32>`).
pub const PIXEL_SIZE: u64 = 16;

/// Number of regions packed into the accumulation buffer (radiance, albedo
/// guide, normal guide).
pub const REGIONS: u64 = 3;

/// Bytes of one pixel of the accumulation buffer over all its regions
/// (`REGIONS * PIXEL_SIZE`).
pub const TRACED_PIXEL_BYTES: u64 = 48;

/// Caps `(width, height)` to at most `max_pixels`: an empty frame becomes
/// `(1, 1)` and a frame that fits is kept as is. `None` means the frame is too
/// large and both sides must be scaled by `sqrt(max_pixels / (width * height))`
/// (rounded down, at least 1), which the caller computes in floating point.
pub fn capped_resolution(width: u32, height: u32, max_pixels: u64) -> (r: Option<(u32, u32)>)
    ensures
        width * height == 0 ==> r == Some((1u32, 1u32)),
        0 < width * height <= max_pixels ==> r == Some((width, height)),
        width * height > max_pixels && width * height > 0 ==> r is None,
{
    proof {
        assert(width * height <= u32::MAX * u32::MAX) by (nonlinear_arith)
            requires width <= u32::MAX, height <= u32::MAX;
    }
    let pixels = width as u64 * height as u64;
    if pixels == 0 {
        return Some((1, 1));
    }
    if pixels <= max_pixels {
        return Some((width, height));
    }
    None
}

/// The smaller of the two device buffer limits.
pub open spec fn smaller_limit(max_binding_size: u64, max_buffer_size: u64) -> u64 {
    if max_binding_size <= max_buffer_size {
        max_binding_size
    } else {
        max_buffer_size
    }
}

/// The largest number of pixels the accumulation buffer may hold, given the
/// device's maximum storage-buffer binding size and maximum buffer size: the
/// smaller limit divided by the bytes of one pixel over all regions
/// ([`TRACED_PIXEL_BYTES`]), at least 1. Whenever that limit holds at least
/// one pixel, a frame of at most this many pixels fits in it.
pub fn max_traced_pixels(max_binding_size: u64, max_buffer_size: u64) -> (n: u64)
    ensures
        n == (if smaller_limit(max_binding_size, max_buffer_size) / TRACED_PIXEL_BYTES >= 1 {
            smaller_limit(max_binding_size, max_buffer_size) / TRACED_PIXEL_BYTES
        } else {
            1
        }),
        n >= 1,
        smaller_limit(max_binding_size, max_buffer_size) >= TRACED_PIXEL_BYTES ==> n * TRACED_PIXEL_BYTES
            <= smaller_limit(max_binding_size, max_buffer_size),
{
    let max_bytes = if max_binding_size <= max_buffer_size {
        max_binding_size
    } else {
        max_buffer_size
    };
    let p = max_bytes / TRACED_PIXEL_BYTES;
    proof {
        assert(p * 48 <= max_bytes) by (nonlinear_arith)
            requires p == max_bytes / 48;
    }
    if p >= 1 {
        p
    } else {
        1
    }
}

/// Law: on a device whose smaller buffer limit holds at least one traced
/// pixel, every frame of at most [`max_traced_pixels`] pixels (as
/// [`capped_resolution`] keeps or makes one, or as a frame scaled down to
/// that budget) has an accumulation buffer that fits in that limit.
pub proof fn lemma_traced_frame_fits(max_binding_size: u64, max_buffer_size: u64, budget: u64, width: u32, height: u32)
    requires
        smaller_limit(max_binding_size, max_buffer_size) >= TRACED_PIXEL_BYTES,
        budget == smaller_limit(max_binding_size, max_buffer_size) / TRACED_PIXEL_BYTES,
        1 <= width,
        1 <= height,
        width * height <= budget,
    ensures
        budget >= 1,
        (width as int) * (height as int) * REGIONS * PIXEL_SIZE <= smaller_limit(max_binding_size, max_buffer_size),
{
    let m = smaller_limit(max_binding_size, max_buffer_size) as int;
    let p = width as int * height as int;
    assert(budget * 48 <= m) by (nonlinear_arith)
        requires budget == m / 48, m >= 48;
    assert(p * 3 * 16 <= budget * 48) by (nonlinear_arith)
        requires p <= budget;
    assert((width as int) * (height as int) * 3 * 16 == p * 3 * 16);
}

/// The size in bytes of the accumulation buffer for a `width` x `height`
/// image (each side at least 1): three regions of one `vec4<f32>` per pixel.
pub fn accumulation_bytes(width: u32, height: u32) -> (b: u64)
    requires
        (if width >= 1 { width as int } else { 1int }) * (if height >= 1 {
            height as int
        } else {
            1int
        }) * REGIONS * PIXEL_SIZE <= u64::MAX,
    ensures
        b == (if width >= 1 { width as int } else { 1int }) * (if height >= 1 {
            height as int
        } else {
            1int
        }) * REGIONS * PIXEL_SIZE,
{
    let w: u64 = if width >= 1 {
        width as u64
    } else {
        1
    };
    let h: u64 = if height >= 1 {
        height as u64
    } else {
        1
    };
    proof {
        assert(w * h <= w * h * REGIONS) by (nonlinear_arith)
            requires w >= 1, h >= 1;
        assert(w * h * REGIONS <= w * h * REGIONS * PIXEL_SIZE) by (nonlinear_arith)
            requires w >= 1, h >= 1;
    }
    w * h * REGIONS * PIXEL_SIZE
}

/// Side, in pixels, of the square tile that one compute workgroup covers.
pub const WORKGROUP_SIZE: u32 = 8;

/// The number of workgroups dispatched over a `width` x `height` image: one
/// per started 8x8 tile along each side.
pub fn workgroup_counts(width: u32, height: u32) -> (groups: (u32, u32))
    ensures
        groups.0 == (width + 7) / 8,
        groups.1 == (height + 7) / 8,
{
    let gx = width / WORKGROUP_SIZE + if width % WORKGROUP_SIZE != 0 {
        1u32
    } else {
        0u32
    };
    let gy = height / WORKGROUP_SIZE + if height % WORKGROUP_SIZE != 0 {
        1u32
    } else {
        0u32
    };
    (gx, gy)
}

/// Whether the scene must be gathered and uploaded again: there is no GPU
/// scene yet, or its content hash differs from the scene's current one.
pub fn scene_changed(gpu_hash: Option<u64>, scene_hash: u64) -> (b: bool)
    ensures
        b == match gpu_hash {
            None => true,
            Some(h) => h != scene_hash,
        },
{
    match gpu_hash {
        None => true,
        Some(h) => h != scene_hash,
    }
}

/// What one frame of path tracing must do, decided from what changed.
#[derive(Clone, Copy, Debug, PartialEq, Eq, Structural)]
pub struct FramePlan {
    /// The accumulation buffer must be recreated at the new resolution.
    pub resize_accumulation: bool,
    /// The running image restarts from this frame.
    pub reset: bool,
    /// Index of the first sample traced this frame (also the random seed).
    pub sample_index: u32,
    /// Samples traced this frame.
    pub samples_per_frame: u32,
    /// Maximum path length.
    pub max_bounces: u32,
}

/// The accumulation state of a progressive path tracer: how many samples the
/// current image holds, the tracing parameters, and the accumulation size.
pub struct RayTracer {
    backend: RayBackend,
    sample_index: u32,
    max_bounces: u32,
    samples_per_frame: u32,
    dirty: bool,
    max_pixels: u64,
    accum_width: u32,
    accum_height: u32,
}

impl RayTracer {
    /// The backend in use.
    pub closed spec fn spec_backend(self) -> RayBackend {
        self.backend
    }

    /// Samples accumulated into the current image.
    pub closed spec fn spec_samples(self) -> nat {
        self.sample_index as nat
    }

    /// Maximum path length.
    pub closed spec fn spec_max_bounces(self) -> nat {
        self.max_bounces as nat
    }

    /// Samples traced per frame.
    pub closed spec fn spec_samples_per_frame(self) -> nat {
        self.samples_per_frame as nat
    }

    /// Whether the next frame must restart accumulation.
    pub closed spec fn is_dirty(self) -> bool {
        self.dirty
    }

    /// The pixel budget of the accumulation buffer.
    pub closed spec fn spec_max_pixels(self) -> nat {
        self.max_pixels as nat
    }

    /// The current accumulation resolution.
    pub closed spec fn accum_size(self) -> (u32, u32) {
        (self.accum_width, self.accum_height)
    }

    /// A tracer for `backend` whose accumulation buffer may hold `max_pixels`
    /// pixels: no samples yet, at most 8 bounces, one sample per frame, a 1x1
    /// accumulation buffer, and a first frame that starts a new image.
    pub fn new(backend: RayBackend, max_pixels: u64) -> (t: RayTracer)
        ensures
            t.spec_backend() == backend,
            t.spec_samples() == 0,
            t.spec_max_bounces() == 8,
            t.spec_samples_per_frame() == 1,
            t.is_dirty(),
            t.spec_max_pixels() == max_pixels,
            t.accum_size() == (1u32, 1u32),
    {
        RayTracer {
            backend,
            sample_index: 0,
            max_bounces: 8,
            samples_per_frame: 1,
            dirty: true,
            max_pixels,
            accum_width: 1,
            accum_height: 1,
        }
    }

    /// Returns the backend selected at construction.
    pub fn backend(&self) -> (b: RayBackend)
        ensures
            b == self.spec_backend(),
    {
        self.backend
    }

    /// The pixel budget of the accumulation buffer.
    pub fn max_pixels(&self) -> (n: u64)
        ensures
            n == self.spec_max_pixels(),
    {
        self.max_pixels
    }

    /// Sets the maximum path length (at least 1). A different value restarts
    /// accumulation.
    pub fn set_max_bounces(&mut self, bounces: u32)
        ensures
            final(self).spec_samples() == old(self).spec_samples(),
            final(self).spec_samples_per_frame() == old(self).spec_samples_per_frame(),
            final(self).spec_backend() == old(self).spec_backend(),
            final(self).spec_max_pixels() == old(self).spec_max_pixels(),
            final(self).accum_size() == old(self).accum_size(),
            old(self).spec_max_bounces() != bounces ==> {
                &&& final(self).spec_max_bounces() == (if bounces >= 1 { bounces as nat } else { 1 })
                &&& final(self).is_dirty()
            },
            old(self).spec_max_bounces() == bounces ==> {
                &&& final(self).spec_max_bounces() == old(self).spec_max_bounces()
                &&& final(self).is_dirty() == old(self).is_dirty()
            },
    {
        if self.max_bounces != bounces {
            self.max_bounces = if bounces >= 1 {
                bounces
            } else {
                1
            };
            self.dirty = true;
        }
    }

    /// Sets the number of samples traced per frame (at least 1). A different
    /// value restarts accumulation.
    pub fn set_samples_per_frame(&mut self, samples: u32)
        ensures
            final(self).spec_samples() == old(self).spec_samples(),
            final(self).spec_max_bounces() == old(self).spec_max_bounces(),
            final(self).spec_backend() == old(self).spec_backend(),
            final(self).spec_max_pixels() == old(self).spec_max_pixels(),
            final(self).accum_size() == old(self).accum_size(),
            final(self).spec_samples_per_frame() == (if samples >= 1 { samples as nat } else { 1 }),
            final(self).is_dirty() == (old(self).is_dirty() || old(self).spec_samples_per_frame()
                != (if samples >= 1 { samples as nat } else { 1 })),
    {
        let samples = if samples >= 1 {
            samples
        } else {
            1
        };
        if self.samples_per_frame != samples {
            self.samples_per_frame = samples;
            self.dirty = true;
        }
    }

    /// Number of samples accumulated into the current image.
    pub fn samples_accumulated(&self) -> (n: u32)
        ensures
            n == self.spec_samples(),
    {
        self.sample_index
    }

    /// Forces accumulation to restart on the next frame.
    pub fn mark_dirty(&mut self)
        ensures
            final(self).is_dirty(),
            final(self).spec_samples() == old(self).spec_samples(),
            final(self).spec_max_bounces() == old(self).spec_max_bounces(),
            final(self).spec_samples_per_frame() == old(self).spec_samples_per_frame(),
            final(self).spec_backend() == old(self).spec_backend(),
            final(self).spec_max_pixels() == old(self).spec_max_pixels(),
            final(self).accum_size() == old(self).accum_size(),
    {
        self.dirty = true;
    }

    /// Decides one frame: the accumulation buffer follows the render
    /// resolution, and the image restarts when the camera moved, the scene
    /// changed, the resolution changed, or a restart was requested.
    pub fn begin_frame(
        &mut self,
        camera_moved: bool,
        scene_changed: bool,
        render_width: u32,
        render_height: u32,
    ) -> (plan: FramePlan)
        ensures
            plan.resize_accumulation == (old(self).accum_size() != (render_width, render_height)),
            plan.reset == (camera_moved || scene_changed || plan.resize_accumulation || old(self).is_dirty()),
            plan.sample_index == final(self).spec_samples(),
            final(self).spec_samples() == (if plan.reset { 0 } else { old(self).spec_samples() }),
            plan.samples_per_frame == old(self).spec_samples_per_frame(),
            plan.samples_per_frame >= 1 || old(self).spec_samples_per_frame() == 0,
            plan.max_bounces == old(self).spec_max_bounces(),
            !final(self).is_dirty(),
            final(self).accum_size() == (render_width, render_height),
            final(self).spec_max_bounces() == old(self).spec_max_bounces(),
            final(self).spec_samples_per_frame() == old(self).spec_samples_per_frame(),
            final(self).spec_backend() == old(self).spec_backend(),
            final(self).spec_max_pixels() == old(self).spec_max_pixels(),
    {
        let resize = !(render_width == self.accum_width && render_height == self.accum_height);
        if resize {
            self.accum_width = render_width;
            self.accum_height = render_height;
        }
        let reset = camera_moved || scene_changed || resize || self.dirty;
        self.dirty = false;
        if reset {
            self.sample_index = 0;
        }
        FramePlan {
            resize_accumulation: resize,
            reset,
            sample_index: self.sample_index,
            samples_per_frame: self.samples_per_frame,
            max_bounces: self.max_bounces,
        }
    }

    /// Records that a frame traced `samples_per_frame` (at least 1) more samples.
    pub fn end_frame(&mut self)
        requires
            old(self).spec_samples() + (if old(self).spec_samples_per_frame() >= 1 {
                old(self).spec_samples_per_frame()
            } else {
                1
            }) <= u32::MAX,
        ensures
            final(self).spec_samples() == old(self).spec_samples() + (if old(self).spec_samples_per_frame() >= 1 {
                old(self).spec_samples_per_frame()
            } else {
                1
            }),
            final(self).is_dirty() == old(self).is_dirty(),
            final(self).spec_max_bounces() == old(self).spec_max_bounces(),
            final(self).spec_samples_per_frame() == old(self).spec_samples_per_frame(),
            final(self).spec_backend() == old(self).spec_backend(),
            final(self).spec_max_pixels() == old(self).spec_max_pixels(),
            final(self).accum_size() == old(self).accum_size(),
    {
        let spp = if self.samples_per_frame >= 1 {
            self.samples_per_frame
        } else {
            1
        };
        self.sample_index = self.sample_index + spp;
    }
}

} // verus!
