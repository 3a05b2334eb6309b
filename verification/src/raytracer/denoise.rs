//! The pass schedule of the à-trous denoiser: how many passes, their tap
//! spacing, and which buffers they read and write.

use vstd::prelude::*;

verus! {

/// Where a denoising pass reads its input.
#[derive(Clone, Copy, Debug, PartialEq, Eq, Structural)]
pub enum PassSource {
    /// The raw accumulation buffer.
    Accumulation,
    /// One of the two scratch buffers.
    Scratch(usize),
}

/// One à-trous pass.
#[derive(Clone, Copy, Debug, PartialEq, Eq, Structural)]
pub struct DenoisePass {
    /// Tap spacing of the pass (1, 2, 4, ...).
    pub step: i32,
    /// The first pass divides the radiance by the albedo.
    pub demodulate: bool,
    /// The last pass multiplies the filtered lighting back by the albedo.
    pub remodulate: bool,
    /// Input buffer.
    pub source: PassSource,
    /// Output scratch buffer (0 or 1).
    pub dest: usize,
}

/// Pass `i` of a schedule of `iterations` passes: spacing `2^i`, input the
/// accumulation buffer for the first pass and the previous pass's output
/// after, output ping-ponging between the two scratch buffers.
pub open spec fn pass_spec(iterations: int, i: int) -> DenoisePass {
    DenoisePass {
        step: if i < 31 {
            vstd::arithmetic::power2::pow2(i as nat) as i32
        } else {
            i32::MIN
        },
        demodulate: i == 0,
        remodulate: i == iterations - 1,
        source: if i == 0 {
            PassSource::Accumulation
        } else {
            PassSource::Scratch(((i - 1) % 2) as usize)
        },
        dest: (i % 2) as usize,
    }
}

/// The number of passes actually run for a requested count (at least one).
pub open spec fn effective_iterations(iterations: u32) -> nat {
    if iterations >= 1 {
        iterations as nat
    } else {
        1
    }
}

/// The passes run for `iterations` requested iterations (at least one pass;
/// the tap spacing is a 32-bit shift, so at most 32 passes).
pub fn denoise_passes(iterations: u32) -> (passes: Vec<DenoisePass>)
    requires
        iterations <= 32,
    ensures
        passes.len() == effective_iterations(iterations),
        forall|i: int|
            0 <= i < passes.len() ==> #[trigger] passes@[i] == pass_spec(passes.len() as int, i),
{
    let n: usize = if iterations >= 1 {
        iterations as usize
    } else {
        1
    };
    let mut passes: Vec<DenoisePass> = Vec::new();
    let mut i: usize = 0;
    let mut step: i32 = 1;
    proof {
        vstd::arithmetic::power2::lemma2_to64();
    }
    while i < n
        invariant
            0 <= i <= n <= 32,
            n == effective_iterations(iterations),
            passes.len() == i,
            i < 31 ==> step == vstd::arithmetic::power2::pow2(i as nat),
            i == 31 ==> step == i32::MIN,
            forall|k: int| 0 <= k < i ==> #[trigger] passes@[k] == pass_spec(n as int, k),
        decreases n - i,
    {
        let source = if i == 0 {
            PassSource::Accumulation
        } else {
            PassSource::Scratch((i - 1) % 2)
        };
        passes.push(
            DenoisePass {
                step,
                demodulate: i == 0,
                remodulate: i == n - 1,
                source,
                dest: i % 2,
            },
        );
        proof {
            vstd::arithmetic::power2::lemma2_to64();
            vstd::arithmetic::power2::lemma_pow2_unfold((i + 1) as nat);
        }
        if i < 30 {
            step = step * 2;
        } else if i == 30 {
            step = i32::MIN;
        }
        i = i + 1;
    }
    passes
}

/// The scratch buffer holding the denoised image after `iterations`
/// requested iterations: the last pass's output.
pub fn denoise_output(iterations: u32) -> (b: usize)
    ensures
        b == ((effective_iterations(iterations) - 1) % 2) as usize,
        b < 2,
{
    let n: usize = if iterations >= 1 {
        iterations as usize
    } else {
        1
    };
    (n - 1) % 2
}

/// The size in bytes of one scratch buffer for a `width` x `height` image
/// (each side at least 1): one `vec4<f32>` per pixel.
pub fn scratch_bytes(width: u32, height: u32) -> (b: u64)
    requires
        (if width >= 1 { width as int } else { 1int }) * (if height >= 1 {
            height as int
        } else {
            1int
        }) * 16 <= u64::MAX,
    ensures
        b == (if width >= 1 { width as int } else { 1int }) * (if height >= 1 {
            height as int
        } else {
            1int
        }) * 16,
{
    let w: u64 = if width >= 1 {
        width as u64
    } else {
        1
    };
    let h: u64 = if height >= 1 {
        height as u64
    } else {
        1
    };
    proof {
        assert(w * h <= w * h * 16) by (nonlinear_arith)
            requires w >= 1, h >= 1;
    }
    w * h * 16
}

/// Whether the cached passes, built for `cached` (width, height, passes),
/// can be reused for this frame.
pub fn cache_valid(cached: Option<(u32, u32, usize)>, width: u32, height: u32, passes: usize) -> (b: bool)
    ensures
        b == (cached == Some((width, height, passes))),
{
    match cached {
        Some(c) => c.0 == width && c.1 == height && c.2 == passes,
        None => false,
    }
}

/// Law: the passes form a chain. The first pass reads the accumulation
/// buffer, every later pass reads what the previous one wrote, and the
/// denoised image is in the last pass's output buffer.
pub proof fn lemma_passes_chain(iterations: u32)
    ensures
        ({
            let n = effective_iterations(iterations) as int;
            &&& pass_spec(n, 0).source == PassSource::Accumulation
            &&& forall|i: int|
                0 < i < n ==> #[trigger] pass_spec(n, i).source == PassSource::Scratch(
                    pass_spec(n, i - 1).dest,
                )
            &&& pass_spec(n, n - 1).dest == ((effective_iterations(iterations) - 1) % 2) as usize
            &&& pass_spec(n, 0).demodulate && pass_spec(n, n - 1).remodulate
        }),
{
}

/// Law: the tap spacing starts at one pixel and doubles with every pass,
/// as the 32-bit shift `1 << i` gives it: pass `i` below 31 spaces its taps
/// `2^i` pixels apart, and pass 31 gets the shift's wrapped value.
pub proof fn lemma_pass_steps_double(n: int)
    ensures
        pass_spec(n, 0).step == 1,
        forall|i: int| 0 <= i < 30 ==> 2 * #[trigger] pass_spec(n, i).step == pass_spec(n, i + 1).step,
        pass_spec(n, 30).step == 0x4000_0000,
        pass_spec(n, 31).step == -2 * pass_spec(n, 30).step,
{
    vstd::arithmetic::power2::lemma2_to64();
    assert forall|i: int| 0 <= i < 30 implies 2 * #[trigger] pass_spec(n, i).step == pass_spec(n, i + 1).step by {
        vstd::arithmetic::power2::lemma_pow2_unfold((i + 1) as nat);
        vstd::arithmetic::power2::lemma_pow2_pos(i as nat);
        vstd::arithmetic::power2::lemma_pow2_strictly_increases(i as nat, 30);
    }
}

/// Law: a request for `iterations` passes runs that many (one when zero is
/// asked); the passes alternate between the two scratch buffers, so no pass
/// writes the buffer it reads; only the first pass demodulates and only the
/// last remodulates.
pub proof fn lemma_passes_ping_pong(iterations: u32)
    ensures
        iterations >= 1 ==> effective_iterations(iterations) == iterations,
        iterations == 0 ==> effective_iterations(iterations) == 1,
        ({
            let n = effective_iterations(iterations) as int;
            &&& forall|i: int| 0 <= i < n ==> #[trigger] pass_spec(n, i).dest < 2
            &&& forall|i: int|
                0 < i < n ==> #[trigger] pass_spec(n, i).dest != pass_spec(n, i - 1).dest
                    && pass_spec(n, i).source != PassSource::Scratch(pass_spec(n, i).dest)
            &&& forall|i: int| 0 <= i < n ==> (#[trigger] pass_spec(n, i).demodulate <==> i == 0)
            &&& forall|i: int| 0 <= i < n ==> (#[trigger] pass_spec(n, i).remodulate <==> i == n - 1)
        }),
{
}

} // verus!
