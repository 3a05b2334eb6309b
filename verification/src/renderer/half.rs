//! Conversion of single-precision bit patterns to half precision, used to
//! upload HDR images as `Rgba16Float` textures.

use vstd::prelude::*;

verus! {

/// The sign bit of a single-precision bit pattern, placed as a half's sign.
pub open spec fn f16_sign(bits: u32) -> u16 {
    if bits >= 0x8000_0000 {
        0x8000
    } else {
        0
    }
}

/// The biased exponent field of a single-precision bit pattern.
pub open spec fn f32_biased_exponent(bits: u32) -> int {
    ((bits / 0x80_0000) % 0x100) as int
}

/// The mantissa field of a single-precision bit pattern.
pub open spec fn f32_mantissa(bits: u32) -> u32 {
    bits % 0x80_0000
}

/// The exponent of a single-precision bit pattern, rebiased for a half.
pub open spec fn f16_exponent(bits: u32) -> int {
    f32_biased_exponent(bits) - 127 + 15
}

/// The top ten mantissa bits of a single-precision bit pattern.
pub open spec fn f16_mantissa(bits: u32) -> u16 {
    ((bits / 0x2000) % 0x400) as u16
}

/// The mantissa of the half subnormal closest below a value whose biased
/// single-precision exponent is at most 112: the 24-bit significand with its
/// leading one, shifted right by `126 - exponent`.
pub open spec fn f16_subnormal(bits: u32) -> u16 {
    (((f32_mantissa(bits) + 0x80_0000) as u32) >> ((126 - f32_biased_exponent(bits)) as u32)) as u16
}

/// The IEEE-754 half-precision bits of the single-precision value with bits
/// `bits`, rounding toward zero: NaN stays a (quiet) NaN keeping the top
/// mantissa bits, infinities and values too large become a signed infinity,
/// values below the normal range become half subnormals, and values below
/// the smallest subnormal a signed zero.
pub open spec fn spec_f16_bits(bits: u32) -> u16 {
    let b = f32_biased_exponent(bits);
    let e = f16_exponent(bits);
    if b == 0xff {
        if f32_mantissa(bits) == 0 {
            (f16_sign(bits) + 0x7c00) as u16
        } else {
            (f16_sign(bits) + 0x7e00 + f16_mantissa(bits) % 0x200) as u16
        }
    } else if e >= 0x1f {
        (f16_sign(bits) + 0x7c00) as u16
    } else if e >= 1 {
        (f16_sign(bits) + e * 0x400 + f16_mantissa(bits)) as u16
    } else if b >= 102 {
        (f16_sign(bits) + f16_subnormal(bits)) as u16
    } else {
        f16_sign(bits)
    }
}

/// Converts the bits of an `f32` to IEEE-754 half-precision bits (rounding
/// toward zero), see [`spec_f16_bits`].
pub fn f16_bits(bits: u32) -> (h: u16)
    ensures
        h == spec_f16_bits(bits),
{
    let sign = ((bits >> 16) & 0x8000) as u16;
    let biased = (bits >> 23) & 0xff;
    let mant23 = bits & 0x7f_ffff;
    let mant32 = (bits >> 13) & 0x3ff;
    proof {
        assert(((bits >> 16) & 0x8000) == (if bits >= 0x8000_0000 { 0x8000u32 } else { 0u32 }))
            by (bit_vector);
        assert((bits >> 23) & 0xff == (bits / 0x80_0000) % 0x100) by (bit_vector);
        assert(bits & 0x7f_ffff == bits % 0x80_0000) by (bit_vector);
        assert((bits >> 13) & 0x3ff == (bits / 0x2000) % 0x400) by (bit_vector);
    }
    let mant = mant32 as u16;
    if biased == 0xff {
        if mant23 == 0 {
            proof {
                assert(sign | 0x7c00 == sign + 0x7c00) by (bit_vector)
                    requires sign == 0u16 || sign == 0x8000u16;
            }
            sign | 0x7c00
        } else {
            let low = mant & 0x1ff;
            proof {
                assert(mant & 0x1ff == mant % 0x200) by (bit_vector);
                assert(sign | 0x7e00 | low == sign + 0x7e00 + low) by (bit_vector)
                    requires sign == 0u16 || sign == 0x8000u16, low < 0x200u16;
            }
            sign | 0x7e00 | low
        }
    } else if biased >= 143 {
        proof {
            assert(sign | 0x7c00 == sign + 0x7c00) by (bit_vector)
                requires sign == 0u16 || sign == 0x8000u16;
        }
        sign | 0x7c00
    } else if biased >= 113 {
        let e = (biased - 112) as u16;
        proof {
            assert(1 <= e < 0x1f);
            assert(mant < 0x400);
            assert(sign | (e << 10) | mant == sign + e * 0x400 + mant) by (bit_vector)
                requires sign == 0u16 || sign == 0x8000u16, 1u16 <= e < 0x1fu16, mant < 0x400u16;
        }
        sign | (e << 10) | mant
    } else if biased >= 102 {
        let m24 = mant23 | 0x80_0000;
        let shift = 126 - biased;
        let sub = m24 >> shift;
        proof {
            assert(m24 == mant23 + 0x80_0000) by (bit_vector)
                requires mant23 < 0x80_0000u32, m24 == mant23 | 0x80_0000u32;
            assert(sub < 0x400) by (bit_vector)
                requires m24 < 0x100_0000u32, 14u32 <= shift <= 24u32, sub == m24 >> shift;
        }
        let s16 = sub as u16;
        proof {
            assert(sign | s16 == sign + s16) by (bit_vector)
                requires sign == 0u16 || sign == 0x8000u16, s16 < 0x400u16;
        }
        sign | s16
    } else {
        sign
    }
}

} // verus!
