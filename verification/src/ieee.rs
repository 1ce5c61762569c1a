//! Conversions between numbers held by their IEEE 754 bit patterns.

use vstd::prelude::*;
use crate::f16_half::{aligned, alignment_shift, lemma_alignment_bounds, lemma_alignment_shift_limit};
use crate::geo_struct::{Real32, Real64};

verus! {

/// The binary64 bit pattern of the binary32 number with sign `s`, exponent
/// field `e` and mantissa field `m`: the same number, exactly.
///
/// Zero keeps its sign; a subnormal becomes normal; infinity stays
/// infinity; a NaN stays a NaN, quiet, with its payload.
pub open spec fn single_parts_to_double(s: int, e: int, m: int) -> int {
    if e == 0 {
        if m == 0 {
            s * 0x8000_0000_0000_0000
        } else {
            s * 0x8000_0000_0000_0000 + (897 - alignment_shift(m, 0x80_0000))
                * 0x10_0000_0000_0000 + (aligned(m, 0x80_0000) - 0x80_0000) * 0x2000_0000
        }
    } else if e == 255 {
        if m == 0 {
            s * 0x8000_0000_0000_0000 + 0x7ff0_0000_0000_0000
        } else {
            s * 0x8000_0000_0000_0000 + 0x7ff8_0000_0000_0000 + (m % 0x40_0000) * 0x2000_0000
        }
    } else {
        s * 0x8000_0000_0000_0000 + (e + 896) * 0x10_0000_0000_0000 + m * 0x2000_0000
    }
}

/// The binary64 bit pattern of the binary32 number whose 32 bits are `x`.
pub open spec fn single_to_double(x: int) -> int {
    single_parts_to_double(x / 0x8000_0000, x / 0x80_0000 % 0x100, x % 0x80_0000)
}

/// Widens a binary32 number to binary64.
pub fn widen(x: Real32) -> (r: Real64)
    ensures
        r.bits == single_to_double(x.bits as int),
{
    let s: u64 = (x.bits / 0x8000_0000) as u64;
    let e: u64 = (x.bits / 0x80_0000 % 0x100) as u64;
    let m: u64 = (x.bits % 0x80_0000) as u64;
    if e == 0 {
        if m == 0 {
            Real64 { bits: s * 0x8000_0000_0000_0000 }
        } else {
            let mut mantissa: u64 = m;
            let mut shift: u64 = 0;
            proof {
                lemma_alignment_bounds(m as int, 0x80_0000);
                vstd::arithmetic::power2::lemma2_to64();
                lemma_alignment_shift_limit(m as int, 0x80_0000, 23, 1);
            }
            while mantissa < 0x80_0000
                invariant
                    0 < mantissa < 0x100_0000,
                    shift <= 23,
                    aligned(mantissa as int, 0x80_0000) == aligned(m as int, 0x80_0000),
                    shift + alignment_shift(mantissa as int, 0x80_0000) == alignment_shift(
                        m as int,
                        0x80_0000,
                    ),
                    alignment_shift(m as int, 0x80_0000) <= 23,
                decreases 0x100_0000 - mantissa,
            {
                proof {
                    if 2 * mantissa < 0x80_0000 {
                        lemma_alignment_bounds(2 * mantissa as int, 0x80_0000);
                    } else {
                        assert(alignment_shift(2 * mantissa as int, 0x80_0000) == 0);
                    }
                }
                mantissa = mantissa * 2;
                shift = shift + 1;
            }
            Real64 {
                bits: s * 0x8000_0000_0000_0000 + (897 - shift) * 0x10_0000_0000_0000 + (mantissa
                    - 0x80_0000) * 0x2000_0000,
            }
        }
    } else if e == 255 {
        if m == 0 {
            Real64 { bits: s * 0x8000_0000_0000_0000 + 0x7ff0_0000_0000_0000 }
        } else {
            Real64 {
                bits: s * 0x8000_0000_0000_0000 + 0x7ff8_0000_0000_0000 + (m % 0x40_0000)
                    * 0x2000_0000,
            }
        }
    } else {
        Real64 { bits: s * 0x8000_0000_0000_0000 + (e + 896) * 0x10_0000_0000_0000 + m * 0x2000_0000 }
    }
}

/// 2 to the power `n`; 1 for a negative `n`.
pub open spec fn two_to(n: int) -> int
    decreases n,
{
    if n <= 0 {
        1
    } else {
        2 * two_to(n - 1)
    }
}

/// The position of the highest bit of `a` that is set: the `p` with
/// `2^p <= a < 2^(p + 1)`.
pub open spec fn top_bit(a: int) -> int
    decreases a,
{
    if a < 2 {
        0
    } else {
        1 + top_bit(a / 2)
    }
}

/// `a / 2^sh`, rounded to the nearest integer, a tie to the even one.
pub open spec fn rounded(a: int, sh: int) -> int {
    let d = two_to(sh);
    let q = a / d;
    let r = a % d;
    if 2 * r > d || (2 * r == d && q % 2 == 1) {
        q + 1
    } else {
        q
    }
}

/// The binary64 bit pattern of the number nearest to the integer `x`, a
/// tie going to the even mantissa.
///
/// The significand `m` has 53 bits, the implicit one included; with the
/// exponent field `1023 + p` the pattern is the sign, `(1022 + p) * 2^52`
/// and `m`: where rounding carries into bit 53, the sum carries into the
/// exponent, as it must.
pub open spec fn int_to_double(x: int) -> int {
    if x == 0 {
        0
    } else {
        let a = if x < 0 {
            -x
        } else {
            x
        };
        let p = top_bit(a);
        let m = if p <= 52 {
            a * two_to(52 - p)
        } else {
            rounded(a, p - 52)
        };
        (if x < 0 {
            0x8000_0000_0000_0000
        } else {
            0int
        }) + (1022 + p) * 0x10_0000_0000_0000 + m
    }
}

pub proof fn lemma_two_to_adds(a: int, b: int)
    requires
        a >= 0,
        b >= 0,
    ensures
        two_to(a + b) == two_to(a) * two_to(b),
    decreases a,
{
    if a > 0 {
        lemma_two_to_adds(a - 1, b);
        assert(2 * (two_to(a - 1) * two_to(b)) == (2 * two_to(a - 1)) * two_to(b))
            by (nonlinear_arith);
    }
}

pub proof fn lemma_two_to_grows(a: int, b: int)
    requires
        0 <= a <= b,
    ensures
        1 <= two_to(a) <= two_to(b),
    decreases b,
{
    if a < b {
        lemma_two_to_grows(a, b - 1);
    } else if a > 0 {
        lemma_two_to_grows(a - 1, a - 1);
    }
}

/// The powers of two that the formats are made of.
pub proof fn lemma_two_to_values()
    ensures
        two_to(11) == 0x800,
        two_to(52) == 0x10_0000_0000_0000,
        two_to(53) == 0x20_0000_0000_0000,
        two_to(63) == 0x8000_0000_0000_0000,
        two_to(64) == 0x1_0000_0000_0000_0000,
{
    reveal_with_fuel(two_to, 12);
    let t1 = two_to(1);
    let t8 = two_to(8);
    let t11 = two_to(11);
    assert(t11 == 0x800);
    assert(t8 == 0x100);
    assert(t1 == 2);
    lemma_two_to_adds(11, 11);
    let t22 = two_to(22);
    assert(t22 == 0x40_0000) by (nonlinear_arith)
        requires
            t22 == t11 * t11,
            t11 == 0x800,
    ;
    lemma_two_to_adds(22, 22);
    let t44 = two_to(44);
    assert(t44 == 0x1000_0000_0000) by (nonlinear_arith)
        requires
            t44 == t22 * t22,
            t22 == 0x40_0000,
    ;
    lemma_two_to_adds(44, 8);
    let t52 = two_to(52);
    assert(t52 == 0x10_0000_0000_0000) by (nonlinear_arith)
        requires
            t52 == t44 * t8,
            t44 == 0x1000_0000_0000,
            t8 == 0x100,
    ;
    lemma_two_to_adds(52, 1);
    let t53 = two_to(53);
    assert(t53 == 0x20_0000_0000_0000) by (nonlinear_arith)
        requires
            t53 == t52 * t1,
            t52 == 0x10_0000_0000_0000,
            t1 == 2,
    ;
    lemma_two_to_adds(52, 11);
    let t63 = two_to(63);
    assert(t63 == 0x8000_0000_0000_0000) by (nonlinear_arith)
        requires
            t63 == t52 * t11,
            t52 == 0x10_0000_0000_0000,
            t11 == 0x800,
    ;
    lemma_two_to_adds(63, 1);
    assert(two_to(64) == 0x1_0000_0000_0000_0000) by (nonlinear_arith)
        requires
            two_to(64) == t63 * t1,
            t63 == 0x8000_0000_0000_0000,
            t1 == 2,
    ;
}

/// The highest bit of a number between `2^p` and `2^(p + 1)` is bit `p`.
pub proof fn lemma_top_bit(a: int, p: int)
    requires
        p >= 0,
        two_to(p) <= a < 2 * two_to(p),
    ensures
        top_bit(a) == p,
    decreases p,
{
    if p > 0 {
        lemma_two_to_grows(0, p - 1);
        lemma_top_bit(a / 2, p - 1);
    }
}

/// The binary64 number nearest to an integer.
pub fn from_int(x: i64) -> (r: Real64)
    ensures
        r.bits == int_to_double(x as int),
{
    if x == 0 {
        return Real64 { bits: 0 };
    }
    let a: u64 = if x >= 0 {
        x as u64
    } else if x == i64::MIN {
        0x8000_0000_0000_0000
    } else {
        (0 - x) as u64
    };
    let sign: u64 = if x < 0 {
        0x8000_0000_0000_0000
    } else {
        0
    };
    proof {
        lemma_two_to_values();
    }
    let mut top: u64 = 1;
    let mut p: u64 = 0;
    while top <= a / 2
        invariant
            top == two_to(p as int),
            1 <= top <= a,
            a <= 0x8000_0000_0000_0000,
            p <= 63,
            two_to(63) == 0x8000_0000_0000_0000,
        decreases a - top,
    {
        proof {
            if p >= 63 {
                lemma_two_to_grows(63, p as int);
            }
        }
        top = top * 2;
        p = p + 1;
    }
    proof {
        lemma_top_bit(a as int, p as int);
        if p > 63 {
            lemma_two_to_grows(64, p as int);
        }
    }
    let m: u64 = if p <= 52 {
        let mut m: u64 = a;
        let mut t: u64 = top;
        let mut k: u64 = p;
        assert(two_to(k - p) == 1);
        assert(m == a * two_to(k - p)) by (nonlinear_arith)
            requires
                m == a,
                two_to(k - p) == 1,
        ;
        while k < 52
            invariant
                p <= k <= 52,
                t == two_to(k as int),
                t <= m < 2 * t,
                m == a * two_to(k - p),
                two_to(52) == 0x10_0000_0000_0000,
            decreases 52 - k,
        {
            proof {
                lemma_two_to_grows(k as int + 1, 52);
                assert(2 * (a * two_to(k - p)) == a * (2 * two_to(k - p))) by (nonlinear_arith);
            }
            m = m * 2;
            t = t * 2;
            k = k + 1;
        }
        m
    } else {
        let sh: u64 = p - 52;
        let mut d: u64 = 1;
        let mut k: u64 = 0;
        while k < sh
            invariant
                k <= sh <= 11,
                d == two_to(k as int),
                1 <= d <= 0x800,
                two_to(11) == 0x800,
            decreases sh - k,
        {
            proof {
                lemma_two_to_grows(k as int + 1, 11);
            }
            d = d * 2;
            k = k + 1;
        }
        let q: u64 = a / d;
        let r: u64 = a % d;
        proof {
            lemma_two_to_adds(52, sh as int);
            vstd::arithmetic::div_mod::lemma_fundamental_div_mod(a as int, d as int);
            assert(q >= two_to(52) && q < 2 * two_to(52)) by (nonlinear_arith)
                requires
                    q == a / d,
                    d > 0,
                    two_to(52) * d <= a < 2 * (two_to(52) * d),
                    a == d * (a / d) + a % d,
                    0 <= a % d < d,
            ;
        }
        if 2 * r > d || (2 * r == d && q % 2 == 1) {
            q + 1
        } else {
            q
        }
    };
    Real64 { bits: sign + (1022 + p) * 0x10_0000_0000_0000 + m }
}

/// The whole part of the magnitude of the binary64 number with exponent
/// field `e`, between 1023 and 1086, and mantissa field `m`.
pub open spec fn whole_part(e: int, m: int) -> int {
    if e >= 1075 {
        (0x10_0000_0000_0000 + m) * two_to(e - 1075)
    } else {
        (0x10_0000_0000_0000 + m) / two_to(1075 - e)
    }
}

/// The 64-bit integer that a binary64 number is cut down to: its whole
/// part, with its sign; the nearest limit of the type where that is out
/// of range, which covers the infinities; 0 for a NaN.
pub open spec fn double_to_int(bits: int) -> int {
    let s = bits / 0x8000_0000_0000_0000;
    let e = bits / 0x10_0000_0000_0000 % 0x800;
    let m = bits % 0x10_0000_0000_0000;
    if e == 0x7ff && m != 0 {
        0
    } else if e < 1023 {
        0
    } else if e >= 1086 {
        if s == 1 {
            -0x8000_0000_0000_0000
        } else {
            0x7fff_ffff_ffff_ffff
        }
    } else if s == 1 {
        -whole_part(e, m)
    } else {
        whole_part(e, m)
    }
}

/// The unsigned 64-bit integer that a binary64 number is cut down to:
/// its whole part; 0 for a negative number and for a NaN; the limit of
/// the type where the whole part is beyond it.
pub open spec fn double_to_unsigned(bits: int) -> int {
    let s = bits / 0x8000_0000_0000_0000;
    let e = bits / 0x10_0000_0000_0000 % 0x800;
    let m = bits % 0x10_0000_0000_0000;
    if e == 0x7ff && m != 0 {
        0
    } else if e < 1023 || s == 1 {
        0
    } else if e >= 1087 {
        0xffff_ffff_ffff_ffff
    } else {
        whole_part(e, m)
    }
}

/// The whole part of a magnitude, for an exponent field from 1023 to
/// 1086.
fn magnitude(e: u64, m: u64) -> (r: u64)
    requires
        1023 <= e <= 1086,
        m < 0x10_0000_0000_0000,
    ensures
        r == whole_part(e as int, m as int),
        e <= 1085 ==> r < 0x8000_0000_0000_0000,
{
    let sig: u64 = 0x10_0000_0000_0000 + m;
    proof {
        lemma_two_to_values();
    }
    if e >= 1075 {
        let mut r: u64 = sig;
        let mut k: u64 = 0;
        while k < e - 1075
            invariant
                k <= e - 1075 <= 11,
                r == sig * two_to(k as int),
                sig < 0x20_0000_0000_0000,
                two_to(11) == 0x800,
            decreases e - 1075 - k,
        {
            proof {
                lemma_two_to_grows(k as int + 1, 11);
                assert(sig * two_to(k as int + 1) < 0x20_0000_0000_0000 * 0x800)
                    by (nonlinear_arith)
                    requires
                        0 <= sig < 0x20_0000_0000_0000,
                        1 <= two_to(k as int + 1) <= 0x800,
                ;
                assert(2 * (sig * two_to(k as int)) == sig * (2 * two_to(k as int)))
                    by (nonlinear_arith);
            }
            r = r * 2;
            k = k + 1;
        }
        proof {
            if e <= 1085 {
                lemma_two_to_grows(e as int - 1075, 10);
                reveal_with_fuel(two_to, 12);
                assert(two_to(10) == 0x400);
                assert(sig * two_to(e as int - 1075) < 0x20_0000_0000_0000 * 0x400)
                    by (nonlinear_arith)
                    requires
                        0 <= sig < 0x20_0000_0000_0000,
                        1 <= two_to(e as int - 1075) <= 0x400,
                ;
            }
        }
        r
    } else {
        let mut d: u64 = 1;
        let mut k: u64 = 0;
        while k < 1075 - e
            invariant
                k <= 1075 - e <= 52,
                d == two_to(k as int),
                1 <= d <= 0x10_0000_0000_0000,
                two_to(52) == 0x10_0000_0000_0000,
            decreases 1075 - e - k,
        {
            proof {
                lemma_two_to_grows(k as int + 1, 52);
            }
            d = d * 2;
            k = k + 1;
        }
        sig / d
    }
}

/// Cuts a binary64 number down to a 64-bit integer.
pub fn to_int(x: Real64) -> (r: i64)
    ensures
        r == double_to_int(x.bits as int),
{
    let s: u64 = x.bits / 0x8000_0000_0000_0000;
    let e: u64 = x.bits / 0x10_0000_0000_0000 % 0x800;
    let m: u64 = x.bits % 0x10_0000_0000_0000;
    if e == 0x7ff && m != 0 {
        0
    } else if e < 1023 {
        0
    } else if e >= 1086 {
        if s == 1 {
            i64::MIN
        } else {
            i64::MAX
        }
    } else {
        let mag: u64 = magnitude(e, m);
        if s == 1 {
            0 - (mag as i64)
        } else {
            mag as i64
        }
    }
}

/// Cuts a binary64 number down to an unsigned 64-bit integer.
pub fn to_unsigned(x: Real64) -> (r: u64)
    ensures
        r == double_to_unsigned(x.bits as int),
{
    let s: u64 = x.bits / 0x8000_0000_0000_0000;
    let e: u64 = x.bits / 0x10_0000_0000_0000 % 0x800;
    let m: u64 = x.bits % 0x10_0000_0000_0000;
    if e == 0x7ff && m != 0 {
        0
    } else if e < 1023 || s == 1 {
        0
    } else if e >= 1087 {
        u64::MAX
    } else {
        magnitude(e, m)
    }
}

} // verus!
