//! Decoding of 16-bit half-precision numbers to binary32.

use vstd::prelude::*;
use crate::geo_struct::Real32;

verus! {

/// `m` doubled until it reaches `lead`: the mantissa of a subnormal,
/// shifted so that its leading one stands at the implicit bit.
pub open spec fn aligned(m: int, lead: int) -> int
    decreases
            (if m < lead {
                lead - m
            } else {
                0
            }),
{
    if m <= 0 || m >= lead {
        m
    } else {
        aligned(2 * m, lead)
    }
}

/// How many doublings `aligned` makes.
pub open spec fn alignment_shift(m: int, lead: int) -> int
    decreases
            (if m < lead {
                lead - m
            } else {
                0
            }),
{
    if m <= 0 || m >= lead {
        0
    } else {
        1 + alignment_shift(2 * m, lead)
    }
}

/// The binary32 bit pattern of the half with sign `s`, exponent field `e`
/// and mantissa field `m`.
///
/// Zero keeps its sign. A subnormal is normalised: its mantissa is aligned
/// to the implicit bit and the exponent lowered by one per shift. Exponent
/// 31 is infinity or NaN, the mantissa carried over. Every other exponent
/// is re-biased from 15 to 127.
pub open spec fn half_parts_to_single(s: int, e: int, m: int) -> int {
    if e == 0 {
        if m == 0 {
            s * 0x8000_0000
        } else {
            s * 0x8000_0000 + (113 - alignment_shift(m, 0x400)) * 0x80_0000 + (aligned(m, 0x400)
                - 0x400) * 0x2000
        }
    } else if e == 31 {
        s * 0x8000_0000 + 0x7f80_0000 + m * 0x2000
    } else {
        s * 0x8000_0000 + (e + 112) * 0x80_0000 + m * 0x2000
    }
}

/// The binary32 bit pattern of the half whose 16 bits are `h`: one sign
/// bit, five exponent bits, ten mantissa bits.
pub open spec fn half_to_single(h: int) -> int {
    half_parts_to_single(h / 0x8000, h / 0x400 % 0x20, h % 0x400)
}

/// A subnormal mantissa needs between one and ten shifts, and lands in
/// the binade of the implicit bit.
pub proof fn lemma_alignment_bounds(m: int, lead: int)
    requires
        0 < m < lead,
    ensures
        lead <= aligned(m, lead) < 2 * lead,
        1 <= alignment_shift(m, lead),
    decreases lead - m,
{
    if 2 * m < lead {
        lemma_alignment_bounds(2 * m, lead);
    } else {
        assert(aligned(2 * m, lead) == 2 * m);
        assert(alignment_shift(2 * m, lead) == 0);
    }
}

/// The number of shifts is at most the number of bits below the lead.
pub proof fn lemma_alignment_shift_limit(m: int, lead: int, bits: int, unit: int)
    requires
        0 < unit <= m < lead,
        bits >= 0,
        lead == unit * vstd::arithmetic::power2::pow2(bits as nat),
    ensures
        alignment_shift(m, lead) <= bits,
    decreases bits,
{
    vstd::arithmetic::power2::lemma2_to64();
    if bits == 0 {
        assert(lead == unit) by (nonlinear_arith)
            requires
                lead == unit * vstd::arithmetic::power2::pow2(0),
                vstd::arithmetic::power2::pow2(0) == 1,
        ;
    } else {
        vstd::arithmetic::power2::lemma_pow2_unfold(bits as nat);
        assert(lead == (2 * unit) * vstd::arithmetic::power2::pow2((bits - 1) as nat))
            by (nonlinear_arith)
            requires
                lead == unit * vstd::arithmetic::power2::pow2(bits as nat),
                vstd::arithmetic::power2::pow2(bits as nat) == 2 * vstd::arithmetic::power2::pow2(
                    (bits - 1) as nat,
                ),
        ;
        if 2 * m < lead {
            lemma_alignment_shift_limit(2 * m, lead, bits - 1, 2 * unit);
        } else {
            assert(alignment_shift(2 * m, lead) == 0);
        }
    }
}

fn sem_to_f32(s: u32, e: u32, m: u32) -> (r: Real32)
    requires
        s <= 1,
        e <= 31,
        m <= 0x3ff,
    ensures
        r.bits == half_parts_to_single(s as int, e as int, m as int),
{
    if e == 0 {
        if m == 0 {
            Real32 { bits: s * 0x8000_0000 }
        } else {
            let mut mantissa: u32 = m;
            let mut shift: u32 = 0;
            proof {
                lemma_alignment_bounds(m as int, 0x400);
                vstd::arithmetic::power2::lemma2_to64();
                lemma_alignment_shift_limit(m as int, 0x400, 10, 1);
            }
            while mantissa < 0x400
                invariant
                    0 < mantissa < 0x800,
                    shift <= 10,
                    aligned(mantissa as int, 0x400) == aligned(m as int, 0x400),
                    shift + alignment_shift(mantissa as int, 0x400) == alignment_shift(
                        m as int,
                        0x400,
                    ),
                    alignment_shift(m as int, 0x400) <= 10,
                decreases 0x800 - mantissa,
            {
                proof {
                    if 2 * mantissa < 0x400 {
                        lemma_alignment_bounds(2 * mantissa as int, 0x400);
                    } else {
                        assert(alignment_shift(2 * mantissa as int, 0x400) == 0);
                    }
                }
                mantissa = mantissa * 2;
                shift = shift + 1;
            }
            Real32 { bits: s * 0x8000_0000 + (113 - shift) * 0x80_0000 + (mantissa - 0x400) * 0x2000 }
        }
    } else if e == 31 {
        Real32 { bits: s * 0x8000_0000 + 0x7f80_0000 + m * 0x2000 }
    } else {
        Real32 { bits: s * 0x8000_0000 + (e + 112) * 0x80_0000 + m * 0x2000 }
    }
}

/// Decodes the half whose 16 bits are `h`.
pub fn half_from_word(h: u16) -> (r: Real32)
    ensures
        r.bits == half_to_single(h as int),
{
    let w: u32 = h as u32;
    sem_to_f32(w / 0x8000, w / 0x400 % 0x20, w % 0x400)
}

/// Decodes a half given most significant byte first.
pub fn half_from_be_bytes(bytes: [u8; 2]) -> (r: Real32)
    ensures
        r.bits == half_to_single(bytes[0] * 0x100 + bytes[1]),
{
    let hi: u32 = bytes[0] as u32;
    let lo: u32 = bytes[1] as u32;
    let h: u32 = hi * 0x100 + lo;
    sem_to_f32(h / 0x8000, h / 0x400 % 0x20, h % 0x400)
}

/// Decodes a half given least significant byte first.
pub fn half_from_le_bytes(bytes: [u8; 2]) -> (r: Real32)
    ensures
        r.bits == half_to_single(bytes[1] * 0x100 + bytes[0]),
{
    let hi: u32 = bytes[1] as u32;
    let lo: u32 = bytes[0] as u32;
    let h: u32 = hi * 0x100 + lo;
    sem_to_f32(h / 0x8000, h / 0x400 % 0x20, h % 0x400)
}

} // verus!
