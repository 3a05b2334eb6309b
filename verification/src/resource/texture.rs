//! Texture sizing rules and the CPU box-filter used to build mip chains.

use vstd::prelude::*;

verus! {

/// Wrapping parameters for a texture.
#[derive(Copy, Clone, Debug, Hash, PartialEq, Eq, Structural)]
pub enum TextureWrapping {
    /// Repeats the texture when a texture coordinate is out of bounds.
    Repeat,
    /// Repeats the mirrored texture when a texture coordinate is out of bounds.
    MirroredRepeat,
    /// Repeats the nearest edge point texture color when a texture coordinate is out of bounds.
    ClampToEdge,
}

/// The number of significant bits of `x` (0 for 0).
pub open spec fn bit_length(x: nat) -> nat
    decreases x,
{
    if x == 0 {
        0
    } else {
        1 + bit_length(x / 2)
    }
}

/// The larger of two sizes.
pub open spec fn max_dim(a: u32, b: u32) -> u32 {
    if a >= b {
        a
    } else {
        b
    }
}

/// The number of significant bits of `x`, that is `32 - x.leading_zeros()`.
pub fn bit_len(x: u32) -> (n: u32)
    ensures
        n == bit_length(x as nat),
        n <= 32,
{
    proof {
        lemma_bit_length_bound(x as nat);
    }
    let mut rest = x;
    let mut n: u32 = 0;
    while rest > 0
        invariant
            n + bit_length(rest as nat) == bit_length(x as nat),
            bit_length(x as nat) <= 32,
        decreases rest,
    {
        proof {
            lemma_bit_length_halves(rest as nat);
        }
        rest = rest / 2;
        n = n + 1;
    }
    n
}

proof fn lemma_bit_length_halves(x: nat)
    requires
        x > 0,
    ensures
        bit_length(x) == 1 + bit_length(x / 2),
{
}

proof fn lemma_bit_length_bound(x: nat)
    requires
        x <= u32::MAX,
    ensures
        bit_length(x) <= 32,
{
    vstd::arithmetic::power2::lemma2_to64();
    lemma_bit_length_le(x, 32);
}

/// `x < 2^k` bounds the bit length of `x` by `k`.
pub proof fn lemma_bit_length_le(x: nat, k: nat)
    requires
        x < vstd::arithmetic::power2::pow2(k),
    ensures
        bit_length(x) <= k,
    decreases k,
{
    if x > 0 {
        if k == 0 {
            vstd::arithmetic::power2::lemma2_to64();
        } else {
            vstd::arithmetic::power2::lemma_pow2_unfold(k);
            lemma_bit_length_le(x / 2, (k - 1) as nat);
        }
    }
}

/// The number of mip levels of a texture: the full chain down to 1x1,
/// `floor(log2(max(width, height))) + 1`, when mipmaps are generated, one
/// level otherwise. A zero-sized texture has one level.
pub open spec fn spec_mip_level_count(width: u32, height: u32, generate: bool) -> nat {
    if generate && max_dim(width, height) > 0 {
        bit_length(max_dim(width, height) as nat)
    } else {
        1
    }
}

/// The number of mip levels of a texture (see [`spec_mip_level_count`]).
/// Dimensions up to 2^24 keep the computation exact (the device's maximum
/// texture dimension lies far below).
pub fn mip_level_count(width: u32, height: u32, generate_mipmaps: bool) -> (n: u32)
    requires
        width <= 0x100_0000,
        height <= 0x100_0000,
    ensures
        n == spec_mip_level_count(width, height, generate_mipmaps),
        n >= 1,
{
    if generate_mipmaps {
        let m = if width >= height {
            width
        } else {
            height
        };
        if m == 0 {
            1
        } else {
            proof {
                lemma_bit_length_halves(m as nat);
            }
            bit_len(m)
        }
    } else {
        1
    }
}

/// Mip levels of a blur chain: `bit_length(max(width, height))` clamped to
/// `[1, 7]` so the coarsest level stays a few texels wide.
pub open spec fn spec_chain_mip_count(width: u32, height: u32) -> nat {
    let b = bit_length(max_dim(width, height) as nat);
    if b < 1 {
        1
    } else if b > 7 {
        7
    } else {
        b
    }
}

/// Mip levels of a blur chain (depth of field, reflections, refraction).
pub fn chain_mip_count(width: u32, height: u32) -> (n: u32)
    ensures
        n == spec_chain_mip_count(width, height),
        1 <= n <= 7,
{
    let m = if width >= height {
        width
    } else {
        height
    };
    let b = bit_len(m);
    if b < 1 {
        1
    } else if b > 7 {
        7
    } else {
        b
    }
}

/// Mip levels of a full chain: `bit_length(max(width, height))`, at least 1.
pub fn full_mip_count(width: u32, height: u32) -> (n: u32)
    ensures
        n == (if bit_length(max_dim(width, height) as nat) < 1 {
            1
        } else {
            bit_length(max_dim(width, height) as nat)
        }),
        n >= 1,
{
    let m = if width >= height {
        width
    } else {
        height
    };
    let b = bit_len(m);
    if b < 1 {
        1
    } else {
        b
    }
}

/// The size of the next mip level: half, but at least 1.
pub open spec fn half_dim(d: u32) -> u32 {
    if d / 2 >= 1 {
        (d / 2) as u32
    } else {
        1
    }
}

/// Whether source pixel `(sx, sy)` exists in a `width` x `height` image.
pub open spec fn in_image(width: int, height: int, sx: int, sy: int) -> bool {
    sx < width && sy < height
}

/// Channel `c` of source pixel `(sx, sy)`, or 0 outside the image.
pub open spec fn texel(data: Seq<u8>, width: int, height: int, sx: int, sy: int, c: int) -> int {
    if in_image(width, height, sx, sy) {
        data[(sy * width + sx) * 4 + c] as int
    } else {
        0
    }
}

/// Number of source pixels of the 2x2 block of destination pixel `(x, y)`
/// that exist in the image.
pub open spec fn block_count(width: int, height: int, x: int, y: int) -> int {
    (if in_image(width, height, 2 * x, 2 * y) { 1int } else { 0int }) + (if in_image(
        width,
        height,
        2 * x + 1,
        2 * y,
    ) {
        1int
    } else {
        0int
    }) + (if in_image(width, height, 2 * x, 2 * y + 1) {
        1int
    } else {
        0int
    }) + (if in_image(width, height, 2 * x + 1, 2 * y + 1) {
        1int
    } else {
        0int
    })
}

/// Sum of channel `c` over the existing pixels of the 2x2 block of
/// destination pixel `(x, y)`.
pub open spec fn block_sum(data: Seq<u8>, width: int, height: int, x: int, y: int, c: int) -> int {
    texel(data, width, height, 2 * x, 2 * y, c) + texel(data, width, height, 2 * x + 1, 2 * y, c)
        + texel(data, width, height, 2 * x, 2 * y + 1, c) + texel(
        data,
        width,
        height,
        2 * x + 1,
        2 * y + 1,
        c,
    )
}

/// Box-filtered channel `c` of destination pixel `(x, y)`: the truncated
/// mean over the existing source pixels of its 2x2 block.
pub open spec fn box_texel(data: Seq<u8>, width: int, height: int, x: int, y: int, c: int) -> int {
    block_sum(data, width, height, x, y, c) / block_count(width, height, x, y)
}

/// The RGBA image `data` (`width` x `height`) downsampled by half.
pub open spec fn downsampled(data: Seq<u8>, width: u32, height: u32) -> Seq<u8> {
    let nw = half_dim(width) as int;
    let nh = half_dim(height) as int;
    Seq::new(
        (nw * nh * 4) as nat,
        |i: int| box_texel(data, width as int, height as int, (i / 4) % nw, (i / 4) / nw, i % 4) as u8,
    )
}

/// Law: the downsampled image is `half_dim(width)` x `half_dim(height)`
/// RGBA pixels stored row-major, and channel `c` of its pixel `(x, y)` is the
/// truncated mean of channel `c` over the source pixels `2x .. 2x + 1` by
/// `2y .. 2y + 1` that exist (the right column and bottom row of the block
/// fall outside an odd-sized image's last column or row).
pub proof fn lemma_downsampled_pixel(data: Seq<u8>, width: u32, height: u32, x: int, y: int, c: int)
    requires
        width > 0,
        height > 0,
        data.len() >= width * height * 4,
        0 <= x < half_dim(width),
        0 <= y < half_dim(height),
        0 <= c < 4,
    ensures
        downsampled(data, width, height).len() == half_dim(width) * half_dim(height) * 4,
        ({
            let w = width as int;
            let right = 2 * x + 1 < w;
            let below = 2 * y + 1 < height;
            let sum = data[((2 * y) * w + 2 * x) * 4 + c] as int + (if right {
                data[((2 * y) * w + 2 * x + 1) * 4 + c] as int
            } else {
                0
            }) + (if below {
                data[((2 * y + 1) * w + 2 * x) * 4 + c] as int
            } else {
                0
            }) + (if right && below {
                data[((2 * y + 1) * w + 2 * x + 1) * 4 + c] as int
            } else {
                0
            });
            let count = 1 + (if right { 1int } else { 0 }) + (if below { 1int } else { 0 }) + (if right
                && below {
                1int
            } else {
                0
            });
            downsampled(data, width, height)[(y * half_dim(width) + x) * 4 + c] == sum / count
        }),
{
    let nw = half_dim(width) as int;
    let nh = half_dim(height) as int;
    let w = width as int;
    let h = height as int;
    let i = (y * nw + x) * 4 + c;
    assert(i / 4 == y * nw + x && i % 4 == c) by (nonlinear_arith)
        requires i == (y * nw + x) * 4 + c, 0 <= c < 4, 0 <= y, 0 <= x, nw > 0;
    assert((y * nw + x) % nw == x && (y * nw + x) / nw == y) by (nonlinear_arith)
        requires 0 <= x < nw, 0 <= y;
    assert(y * nw + x < nh * nw) by (nonlinear_arith)
        requires 0 <= x < nw, 0 <= y < nh;
    assert(i < nw * nh * 4) by (nonlinear_arith)
        requires y * nw + x < nh * nw, i == (y * nw + x) * 4 + c, 0 <= c < 4;
    assert(2 * x < w) by (nonlinear_arith)
        requires x < nw, nw == half_dim(width), w == width, width > 0;
    assert(2 * y < h) by (nonlinear_arith)
        requires y < nh, nh == half_dim(height), h == height, height > 0;
    let sum = block_sum(data, w, h, x, y, c);
    let count = block_count(w, h, x, y);
    assert(0 <= sum <= 255 * count) by {
        assert(0 <= texel(data, w, h, 2 * x, 2 * y, c) <= 255);
        assert(0 <= texel(data, w, h, 2 * x + 1, 2 * y, c) <= 255 * (if in_image(w, h, 2 * x + 1, 2 * y) { 1int } else { 0 }));
        assert(0 <= texel(data, w, h, 2 * x, 2 * y + 1, c) <= 255 * (if in_image(w, h, 2 * x, 2 * y + 1) { 1int } else { 0 }));
        assert(0 <= texel(data, w, h, 2 * x + 1, 2 * y + 1, c) <= 255 * (if in_image(w, h, 2 * x + 1, 2 * y + 1) { 1int } else { 0 }));
    }
    assert(1 <= count <= 4);
    assert(0 <= sum / count <= 255) by (nonlinear_arith)
        requires 0 <= sum <= 255 * count, 1 <= count;
}

proof fn lemma_index_bound(sx: int, sy: int, w: int, h: int, c: int)
    requires
        0 <= sx < w,
        0 <= sy < h,
        0 <= c < 4,
    ensures
        0 <= (sy * w + sx) * 4 + c < w * h * 4,
        (sy * w + sx) * 4 + c == sy * w * 4 + sx * 4 + c,
{
    assert(sy * w + sx < w * h) by (nonlinear_arith)
        requires 0 <= sx < w, 0 <= sy < h;
    assert(0 <= sy * w) by (nonlinear_arith)
        requires 0 <= sy, 0 <= w;
    assert((sy * w + sx) * 4 + c < w * h * 4) by (nonlinear_arith)
        requires sy * w + sx < w * h, 0 <= c < 4;
    assert((sy * w + sx) * 4 + c == sy * w * 4 + sx * 4 + c) by (nonlinear_arith);
}

/// Reads channel `c` of source pixel `(sx, sy)` when it exists.
fn read_texel(data: &[u8], width: u32, height: u32, sx: u32, sy: u32, c: usize) -> (r: (u32, u32))
    requires
        data@.len() >= width * height * 4,
        c < 4,
    ensures
        r.0 == texel(data@, width as int, height as int, sx as int, sy as int, c as int),
        r.1 == (if in_image(width as int, height as int, sx as int, sy as int) {
            1u32
        } else {
            0u32
        }),
        r.0 <= 255,
{
    let len = data.len();
    if sx < width && sy < height {
        proof {
            lemma_index_bound(sx as int, sy as int, width as int, height as int, c as int);
            let a = sy as int;
            let b = width as int;
            assert(a * b <= (a * b + sx) * 4 + c) by (nonlinear_arith)
                requires a >= 0, b >= 0, sx >= 0, c >= 0;
        }
        let idx = (sy as usize * width as usize + sx as usize) * 4 + c;
        (data[idx] as u32, 1)
    } else {
        (0, 0)
    }
}

/// Downsamples an RGBA image by half using box filtering: each destination
/// pixel is the truncated mean of the existing pixels of its 2x2 source block.
pub fn downsample_rgba(data: &[u8], width: u32, height: u32) -> (out: Vec<u8>)
    requires
        width > 0,
        height > 0,
        data@.len() >= width * height * 4,
        half_dim(width) * half_dim(height) * 4 <= u32::MAX,
    ensures
        out@ == downsampled(data@, width, height),
{
    let new_width: u32 = if width / 2 >= 1 {
        width / 2
    } else {
        1
    };
    let new_height: u32 = if height / 2 >= 1 {
        height / 2
    } else {
        1
    };
    let ghost nw = new_width as int;
    let ghost nh = new_height as int;
    let ghost w = width as int;
    let ghost h = height as int;
    let ghost target = downsampled(data@, width, height);
    let mut out: Vec<u8> = Vec::new();
    let mut y: u32 = 0;
    while y < new_height
        invariant
            0 <= y <= new_height,
            new_width == half_dim(width),
            new_height == half_dim(height),
            width > 0,
            height > 0,
            data@.len() >= width * height * 4,
            nw * nh * 4 <= u32::MAX,
            nw == new_width,
            nh == new_height,
            w == width,
            h == height,
            target == downsampled(data@, width, height),
            out@.len() == y * nw * 4,
            forall|i: int| 0 <= i < out@.len() ==> out@[i] == target[i],
        decreases new_height - y,
    {
        let mut x: u32 = 0;
        while x < new_width
            invariant
                0 <= x <= new_width,
                0 <= y < new_height,
                new_width == half_dim(width),
                new_height == half_dim(height),
                width > 0,
                height > 0,
                data@.len() >= width * height * 4,
                nw * nh * 4 <= u32::MAX,
                nw == new_width,
                nh == new_height,
                w == width,
                h == height,
                target == downsampled(data@, width, height),
                out@.len() == (y * nw + x) * 4,
                forall|i: int| 0 <= i < out@.len() ==> out@[i] == target[i],
            decreases new_width - x,
        {
            proof {
                assert(y * nw + x < nh * nw) by (nonlinear_arith)
                    requires 0 <= x < nw, 0 <= y < nh;
                assert(2 * x <= u32::MAX && 2 * y <= u32::MAX);
            }
            let sx = x * 2;
            let sy = y * 2;
            let mut c: usize = 0;
            while c < 4
                invariant
                    0 <= c <= 4,
                    0 <= x < new_width,
                    0 <= y < new_height,
                    sx == 2 * x,
                    sy == 2 * y,
                    new_width == half_dim(width),
                    new_height == half_dim(height),
                    width > 0,
                    height > 0,
                    data@.len() >= width * height * 4,
                    nw * nh * 4 <= u32::MAX,
                    nw == new_width,
                    nh == new_height,
                    w == width,
                    h == height,
                    target == downsampled(data@, width, height),
                    out@.len() == (y * nw + x) * 4 + c,
                    forall|i: int| 0 <= i < out@.len() ==> out@[i] == target[i],
                decreases 4 - c,
            {
                let (v0, n0) = read_texel(data, width, height, sx, sy, c);
                let (v1, n1) = read_texel(data, width, height, sx + 1, sy, c);
                let (v2, n2) = read_texel(data, width, height, sx, sy + 1, c);
                let (v3, n3) = read_texel(data, width, height, sx + 1, sy + 1, c);
                let sum = v0 + v1 + v2 + v3;
                let count = n0 + n1 + n2 + n3;
                proof {
                    assert(n0 == 1) by {
                        assert(2 * x < w) by (nonlinear_arith)
                            requires x < nw, nw == half_dim(width), w == width, width > 0;
                        assert(2 * y < h) by (nonlinear_arith)
                            requires y < nh, nh == half_dim(height), h == height, height > 0;
                    }
                }
                let value = (sum / count) as u8;
                proof {
                    let i = (y * nw + x) * 4 + c;
                    assert(i / 4 == y * nw + x && i % 4 == c) by (nonlinear_arith)
                        requires i == (y * nw + x) * 4 + c, 0 <= c < 4, 0 <= y * nw + x;
                    assert((y * nw + x) % nw == x && (y * nw + x) / nw == y) by (nonlinear_arith)
                        requires 0 <= x < nw, 0 <= y;
                    assert(y * nw + x < nh * nw) by (nonlinear_arith)
                        requires 0 <= x < nw, 0 <= y < nh;
                    assert(i < nw * nh * 4) by (nonlinear_arith)
                        requires y * nw + x < nh * nw, i == (y * nw + x) * 4 + c, 0 <= c < 4;
                    assert(sum == block_sum(data@, w, h, x as int, y as int, c as int));
                    assert(count == block_count(w, h, x as int, y as int));
                    assert(target[i] == value);
                }
                out.push(value);
                c = c + 1;
            }
            x = x + 1;
            proof {
                assert((y * nw + (x - 1)) * 4 + 4 == (y * nw + x) * 4) by (nonlinear_arith);
            }
        }
        y = y + 1;
        proof {
            assert(((y - 1) * nw + nw) * 4 == y * nw * 4) by (nonlinear_arith);
        }
    }
    proof {
        assert(out@.len() == nw * nh * 4) by (nonlinear_arith)
            requires out@.len() == nh * nw * 4;
        assert(out@ =~= target);
    }
    out
}

/// Level `k` of the mip chain of an RGBA image, as `(width, height, data)`:
/// level 0 is the image itself and each further level is the previous one
/// downsampled by half.
pub open spec fn mip_level(data: Seq<u8>, width: u32, height: u32, k: nat) -> (u32, u32, Seq<u8>)
    decreases k,
{
    if k == 0 {
        (width, height, data)
    } else {
        let p = mip_level(data, width, height, (k - 1) as nat);
        (half_dim(p.0), half_dim(p.1), downsampled(p.2, p.0, p.1))
    }
}

/// One generated mip level.
pub struct MipLevel {
    /// Width in pixels.
    pub width: u32,
    /// Height in pixels.
    pub height: u32,
    /// RGBA8 pixels, row-major.
    pub data: Vec<u8>,
}

proof fn lemma_half_dim_le(d: u32)
    requires
        d >= 1,
    ensures
        1 <= half_dim(d) <= d,
{
}

proof fn lemma_level_facts(data: Seq<u8>, width: u32, height: u32, k: nat)
    requires
        width > 0,
        height > 0,
        k >= 1,
    ensures
        mip_level(data, width, height, k).0 >= 1,
        mip_level(data, width, height, k).1 >= 1,
        mip_level(data, width, height, k).0 <= half_dim(width),
        mip_level(data, width, height, k).1 <= half_dim(height),
        mip_level(data, width, height, k).2.len() == mip_level(data, width, height, k).0
            * mip_level(data, width, height, k).1 * 4,
    decreases k,
{
    if k > 1 {
        lemma_level_facts(data, width, height, (k - 1) as nat);
        let p = mip_level(data, width, height, (k - 1) as nat);
        lemma_half_dim_le(p.0);
        lemma_half_dim_le(p.1);
    }
    let p = mip_level(data, width, height, (k - 1) as nat);
    let nw = half_dim(p.0) as int;
    let nh = half_dim(p.1) as int;
    assert(((nw * nh * 4) as nat) as int == nw * nh * 4) by (nonlinear_arith)
        requires nw >= 0, nh >= 0;
}

/// Generates mip levels `1 .. mip_level_count` of an RGBA image, each
/// downsampled from the previous one, for upload after level 0.
pub fn mip_chain(data: &[u8], width: u32, height: u32, mip_level_count: u32) -> (levels: Vec<MipLevel>)
    requires
        mip_level_count > 1 ==> width > 0 && height > 0,
        mip_level_count > 1 ==> data@.len() >= width * height * 4,
        mip_level_count > 1 ==> half_dim(width) * half_dim(height) * 4 <= u32::MAX,
    ensures
        levels.len() == if mip_level_count > 1 { mip_level_count - 1 } else { 0 },
        forall|i: int|
            0 <= i < levels.len() ==> {
                let l = mip_level(data@, width, height, (i + 1) as nat);
                &&& (#[trigger] levels@[i]).width == l.0
                &&& levels@[i].height == l.1
                &&& levels@[i].data@ == l.2
            },
{
    let mut levels: Vec<MipLevel> = Vec::new();
    if mip_level_count <= 1 {
        return levels;
    }
    let mut cw = width;
    let mut ch = height;
    let mut level: u32 = 1;
    while level < mip_level_count
        invariant
            1 <= level <= mip_level_count,
            width > 0,
            height > 0,
            data@.len() >= width * height * 4,
            half_dim(width) * half_dim(height) * 4 <= u32::MAX,
            levels.len() == level - 1,
            cw == mip_level(data@, width, height, (level - 1) as nat).0,
            ch == mip_level(data@, width, height, (level - 1) as nat).1,
            level > 1 ==> levels@[level - 2].data@ == mip_level(data@, width, height, (level - 1) as nat).2,
            forall|i: int|
                0 <= i < levels.len() ==> {
                    let l = mip_level(data@, width, height, (i + 1) as nat);
                    &&& (#[trigger] levels@[i]).width == l.0
                    &&& levels@[i].height == l.1
                    &&& levels@[i].data@ == l.2
                },
        decreases mip_level_count - level,
    {
        proof {
            if level > 1 {
                lemma_level_facts(data@, width, height, (level - 1) as nat);
                lemma_half_dim_le(cw);
                lemma_half_dim_le(ch);
                let a = half_dim(cw) as int;
                let b = half_dim(ch) as int;
                let c = cw as int;
                let d = ch as int;
                assert(a * b * 4 <= c * d * 4) by (nonlinear_arith)
                    requires 1 <= a <= c, 1 <= b <= d;
                assert(c * d * 4 <= half_dim(width) * half_dim(height) * 4) by (nonlinear_arith)
                    requires 1 <= c <= half_dim(width), 1 <= d <= half_dim(height);
            }
        }
        let nw: u32 = if cw / 2 >= 1 {
            cw / 2
        } else {
            1
        };
        let nh: u32 = if ch / 2 >= 1 {
            ch / 2
        } else {
            1
        };
        let next = if level == 1 {
            downsample_rgba(data, cw, ch)
        } else {
            downsample_rgba(levels[levels.len() - 1].data.as_slice(), cw, ch)
        };
        levels.push(MipLevel { width: nw, height: nh, data: next });
        cw = nw;
        ch = nh;
        level = level + 1;
    }
    levels
}

} // verus!
