//! The scalars of the binary encoding: how each is written and read.

use vstd::prelude::*;
use crate::bgeo_format::{
    bytes2, bytes4, bytes8, double_at, i16_at, i32_at, i64_at, i8_at, signed, single_at, u16_at,
    unsigned, word2, word4, word8, Endianness, Scalar,
};
use crate::geo_struct::{Real32, Real64};

verus! {

/// Writing a number below 2^16 and reading it gives the number.
pub proof fn lemma_word2(x: int, e: Endianness)
    requires
        0 <= x < 0x1_0000,
    ensures
        bytes2(x, e).len() == 2,
        word2(bytes2(x, e), e) == x,
{
}

/// Writing a number below 2^32 and reading it gives the number.
pub proof fn lemma_word4(x: int, e: Endianness)
    requires
        0 <= x < 0x1_0000_0000,
    ensures
        bytes4(x, e).len() == 4,
        word4(bytes4(x, e), e) == x,
{
}

/// Writing a number below 2^64 and reading it gives the number.
pub proof fn lemma_word8(x: int, e: Endianness)
    requires
        0 <= x < 0x1_0000_0000_0000_0000,
    ensures
        bytes8(x, e).len() == 8,
        word8(bytes8(x, e), e) == x,
{
    let d1 = x / 0x100;
    let d2 = x / 0x1_0000;
    let d3 = x / 0x100_0000;
    let d4 = x / 0x1_0000_0000;
    let d5 = x / 0x100_0000_0000;
    let d6 = x / 0x1_0000_0000_0000;
    let d7 = x / 0x100_0000_0000_0000;
    vstd::arithmetic::div_mod::lemma_div_denominator(x, 0x100, 0x100);
    vstd::arithmetic::div_mod::lemma_div_denominator(x, 0x1_0000, 0x100);
    vstd::arithmetic::div_mod::lemma_div_denominator(x, 0x100_0000, 0x100);
    vstd::arithmetic::div_mod::lemma_div_denominator(x, 0x1_0000_0000, 0x100);
    vstd::arithmetic::div_mod::lemma_div_denominator(x, 0x100_0000_0000, 0x100);
    vstd::arithmetic::div_mod::lemma_div_denominator(x, 0x1_0000_0000_0000, 0x100);
    assert(d2 == d1 / 0x100);
    assert(d3 == d2 / 0x100);
    assert(d4 == d3 / 0x100);
    assert(d5 == d4 / 0x100);
    assert(d6 == d5 / 0x100);
    assert(d7 == d6 / 0x100);
    assert(x == d1 * 0x100 + x % 0x100);
    assert(d1 == d2 * 0x100 + d1 % 0x100);
    assert(d2 == d3 * 0x100 + d2 % 0x100);
    assert(d3 == d4 * 0x100 + d3 % 0x100);
    assert(d4 == d5 * 0x100 + d4 % 0x100);
    assert(d5 == d6 * 0x100 + d5 % 0x100);
    assert(d6 == d7 * 0x100 + d6 % 0x100);
    assert(0 <= d7 < 0x100);
    let s = bytes8(x, e);
    match e {
        Endianness::Big => {
            assert(s[0] == d7 && s[1] == d6 % 0x100 && s[2] == d5 % 0x100 && s[3] == d4 % 0x100);
            assert(s[4] == d3 % 0x100 && s[5] == d2 % 0x100 && s[6] == d1 % 0x100 && s[7] == x
                % 0x100);
        },
        Endianness::Little => {
            assert(s[7] == d7 && s[6] == d6 % 0x100 && s[5] == d5 % 0x100 && s[4] == d4 % 0x100);
            assert(s[3] == d3 % 0x100 && s[2] == d2 % 0x100 && s[1] == d1 % 0x100 && s[0] == x
                % 0x100);
        },
    }
}

/// Appends the two bytes of `x`.
pub fn write_word2(output: &mut Vec<u8>, x: u16, e: Endianness)
    ensures
        final(output)@ == old(output)@ + bytes2(x as int, e),
{
    let hi: u8 = (x / 0x100) as u8;
    let lo: u8 = (x % 0x100) as u8;
    match e {
        Endianness::Big => {
            output.push(hi);
            output.push(lo);
        },
        Endianness::Little => {
            output.push(lo);
            output.push(hi);
        },
    }
    assert(output@ =~= old(output)@ + bytes2(x as int, e));
}

/// Appends the four bytes of `x`.
pub fn write_word4(output: &mut Vec<u8>, x: u32, e: Endianness)
    ensures
        final(output)@ == old(output)@ + bytes4(x as int, e),
{
    let b3: u8 = (x / 0x100_0000) as u8;
    let b2: u8 = (x / 0x1_0000 % 0x100) as u8;
    let b1: u8 = (x / 0x100 % 0x100) as u8;
    let b0: u8 = (x % 0x100) as u8;
    match e {
        Endianness::Big => {
            output.push(b3);
            output.push(b2);
            output.push(b1);
            output.push(b0);
        },
        Endianness::Little => {
            output.push(b0);
            output.push(b1);
            output.push(b2);
            output.push(b3);
        },
    }
    assert(output@ =~= old(output)@ + bytes4(x as int, e));
}

/// Appends the eight bytes of `x`.
pub fn write_word8(output: &mut Vec<u8>, x: u64, e: Endianness)
    ensures
        final(output)@ == old(output)@ + bytes8(x as int, e),
{
    let b7: u8 = (x / 0x100_0000_0000_0000) as u8;
    let b6: u8 = (x / 0x1_0000_0000_0000 % 0x100) as u8;
    let b5: u8 = (x / 0x100_0000_0000 % 0x100) as u8;
    let b4: u8 = (x / 0x1_0000_0000 % 0x100) as u8;
    let b3: u8 = (x / 0x100_0000 % 0x100) as u8;
    let b2: u8 = (x / 0x1_0000 % 0x100) as u8;
    let b1: u8 = (x / 0x100 % 0x100) as u8;
    let b0: u8 = (x % 0x100) as u8;
    match e {
        Endianness::Big => {
            output.push(b7);
            output.push(b6);
            output.push(b5);
            output.push(b4);
            output.push(b3);
            output.push(b2);
            output.push(b1);
            output.push(b0);
        },
        Endianness::Little => {
            output.push(b0);
            output.push(b1);
            output.push(b2);
            output.push(b3);
            output.push(b4);
            output.push(b5);
            output.push(b6);
            output.push(b7);
        },
    }
    assert(output@ =~= old(output)@ + bytes8(x as int, e));
}

/// The number held by the two bytes from `pos` on.
pub fn read_word2(input: &[u8], pos: usize, e: Endianness) -> (r: u16)
    requires
        pos + 2 <= input@.len(),
    ensures
        r == word2(input@.skip(pos as int), e),
{
    let a: u16 = input[pos] as u16;
    let b: u16 = input[pos + 1] as u16;
    match e {
        Endianness::Big => a * 0x100 + b,
        Endianness::Little => b * 0x100 + a,
    }
}

/// The number held by the four bytes from `pos` on.
pub fn read_word4(input: &[u8], pos: usize, e: Endianness) -> (r: u32)
    requires
        pos + 4 <= input@.len(),
    ensures
        r == word4(input@.skip(pos as int), e),
{
    let a: u32 = input[pos] as u32;
    let b: u32 = input[pos + 1] as u32;
    let c: u32 = input[pos + 2] as u32;
    let d: u32 = input[pos + 3] as u32;
    match e {
        Endianness::Big => a * 0x100_0000 + b * 0x1_0000 + c * 0x100 + d,
        Endianness::Little => d * 0x100_0000 + c * 0x1_0000 + b * 0x100 + a,
    }
}

/// The number held by the eight bytes from `pos` on.
pub fn read_word8(input: &[u8], pos: usize, e: Endianness) -> (r: u64)
    requires
        pos + 8 <= input@.len(),
    ensures
        r == word8(input@.skip(pos as int), e),
{
    let a: u64 = input[pos] as u64;
    let b: u64 = input[pos + 1] as u64;
    let c: u64 = input[pos + 2] as u64;
    let d: u64 = input[pos + 3] as u64;
    let f: u64 = input[pos + 4] as u64;
    let g: u64 = input[pos + 5] as u64;
    let h: u64 = input[pos + 6] as u64;
    let i: u64 = input[pos + 7] as u64;
    match e {
        Endianness::Big => a * 0x100_0000_0000_0000 + b * 0x1_0000_0000_0000 + c * 0x100_0000_0000
            + d * 0x1_0000_0000 + f * 0x100_0000 + g * 0x1_0000 + h * 0x100 + i,
        Endianness::Little => i * 0x100_0000_0000_0000 + h * 0x1_0000_0000_0000 + g
            * 0x100_0000_0000 + f * 0x1_0000_0000 + d * 0x100_0000 + c * 0x1_0000 + b * 0x100 + a,
    }
}

impl Scalar for u8 {
    open spec fn width() -> int {
        1
    }

    open spec fn wire(self, e: Endianness) -> Seq<u8> {
        seq![self]
    }

    open spec fn unwire(s: Seq<u8>, e: Endianness) -> u8 {
        s[0]
    }

    proof fn lemma_wire(x: u8, e: Endianness) {
    }

    proof fn lemma_unwire_prefix(s: Seq<u8>, t: Seq<u8>, e: Endianness) {
        assert(s[0] == s.take(1)[0]);
        assert(t[0] == t.take(1)[0]);
    }

    fn size() -> (w: usize) {
        1
    }

    fn write(self, output: &mut Vec<u8>, e: Endianness) {
        output.push(self);
        assert(output@ =~= old(output)@ + self.wire(e));
    }

    fn read(input: &[u8], pos: usize, e: Endianness) -> (r: u8) {
        input[pos]
    }
}

impl Scalar for i8 {
    open spec fn width() -> int {
        1
    }

    open spec fn wire(self, e: Endianness) -> Seq<u8> {
        seq![unsigned(self as int, 0x80) as u8]
    }

    open spec fn unwire(s: Seq<u8>, e: Endianness) -> i8 {
        i8_at(s)
    }

    proof fn lemma_wire(x: i8, e: Endianness) {
    }

    proof fn lemma_unwire_prefix(s: Seq<u8>, t: Seq<u8>, e: Endianness) {
        assert(s[0] == s.take(1)[0]);
        assert(t[0] == t.take(1)[0]);
    }

    fn size() -> (w: usize) {
        1
    }

    fn write(self, output: &mut Vec<u8>, e: Endianness) {
        let b: u8 = if self >= 0 {
            self as u8
        } else {
            (self as i16 + 0x100) as u8
        };
        output.push(b);
        assert(output@ =~= old(output)@ + self.wire(e));
    }

    fn read(input: &[u8], pos: usize, e: Endianness) -> (r: i8) {
        let b: u8 = input[pos];
        if b < 0x80 {
            b as i8
        } else {
            (b as i16 - 0x100) as i8
        }
    }
}

impl Scalar for u16 {
    open spec fn width() -> int {
        2
    }

    open spec fn wire(self, e: Endianness) -> Seq<u8> {
        bytes2(self as int, e)
    }

    open spec fn unwire(s: Seq<u8>, e: Endianness) -> u16 {
        u16_at(s, e)
    }

    proof fn lemma_wire(x: u16, e: Endianness) {
        lemma_word2(x as int, e);
    }

    proof fn lemma_unwire_prefix(s: Seq<u8>, t: Seq<u8>, e: Endianness) {
        lemma_take_same(s, t, 2);
    }

    fn size() -> (w: usize) {
        2
    }

    fn write(self, output: &mut Vec<u8>, e: Endianness) {
        write_word2(output, self, e);
    }

    fn read(input: &[u8], pos: usize, e: Endianness) -> (r: u16) {
        read_word2(input, pos, e)
    }
}

impl Scalar for i16 {
    open spec fn width() -> int {
        2
    }

    open spec fn wire(self, e: Endianness) -> Seq<u8> {
        bytes2(unsigned(self as int, 0x8000), e)
    }

    open spec fn unwire(s: Seq<u8>, e: Endianness) -> i16 {
        i16_at(s, e)
    }

    proof fn lemma_wire(x: i16, e: Endianness) {
        lemma_word2(unsigned(x as int, 0x8000), e);
    }

    proof fn lemma_unwire_prefix(s: Seq<u8>, t: Seq<u8>, e: Endianness) {
        lemma_take_same(s, t, 2);
    }

    fn size() -> (w: usize) {
        2
    }

    fn write(self, output: &mut Vec<u8>, e: Endianness) {
        let u: u16 = if self >= 0 {
            self as u16
        } else {
            (self as i32 + 0x1_0000) as u16
        };
        write_word2(output, u, e);
    }

    fn read(input: &[u8], pos: usize, e: Endianness) -> (r: i16) {
        let u: u16 = read_word2(input, pos, e);
        if u < 0x8000 {
            u as i16
        } else {
            (u as i32 - 0x1_0000) as i16
        }
    }
}

impl Scalar for i32 {
    open spec fn width() -> int {
        4
    }

    open spec fn wire(self, e: Endianness) -> Seq<u8> {
        bytes4(unsigned(self as int, 0x8000_0000), e)
    }

    open spec fn unwire(s: Seq<u8>, e: Endianness) -> i32 {
        i32_at(s, e)
    }

    proof fn lemma_wire(x: i32, e: Endianness) {
        lemma_word4(unsigned(x as int, 0x8000_0000), e);
    }

    proof fn lemma_unwire_prefix(s: Seq<u8>, t: Seq<u8>, e: Endianness) {
        lemma_take_same(s, t, 4);
    }

    fn size() -> (w: usize) {
        4
    }

    fn write(self, output: &mut Vec<u8>, e: Endianness) {
        let u: u32 = if self >= 0 {
            self as u32
        } else {
            (self as i64 + 0x1_0000_0000) as u32
        };
        write_word4(output, u, e);
    }

    fn read(input: &[u8], pos: usize, e: Endianness) -> (r: i32) {
        let u: u32 = read_word4(input, pos, e);
        if u < 0x8000_0000 {
            u as i32
        } else {
            (u as i64 - 0x1_0000_0000) as i32
        }
    }
}

impl Scalar for i64 {
    open spec fn width() -> int {
        8
    }

    open spec fn wire(self, e: Endianness) -> Seq<u8> {
        bytes8(unsigned(self as int, 0x8000_0000_0000_0000), e)
    }

    open spec fn unwire(s: Seq<u8>, e: Endianness) -> i64 {
        i64_at(s, e)
    }

    proof fn lemma_wire(x: i64, e: Endianness) {
        lemma_word8(unsigned(x as int, 0x8000_0000_0000_0000), e);
    }

    proof fn lemma_unwire_prefix(s: Seq<u8>, t: Seq<u8>, e: Endianness) {
        lemma_take_same(s, t, 8);
    }

    fn size() -> (w: usize) {
        8
    }

    fn write(self, output: &mut Vec<u8>, e: Endianness) {
        let u: u64 = if self >= 0 {
            self as u64
        } else {
            (self - i64::MIN) as u64 + 0x8000_0000_0000_0000
        };
        write_word8(output, u, e);
    }

    fn read(input: &[u8], pos: usize, e: Endianness) -> (r: i64) {
        let u: u64 = read_word8(input, pos, e);
        if u < 0x8000_0000_0000_0000 {
            u as i64
        } else {
            (u - 0x8000_0000_0000_0000) as i64 + i64::MIN
        }
    }
}

impl Scalar for Real32 {
    open spec fn width() -> int {
        4
    }

    open spec fn wire(self, e: Endianness) -> Seq<u8> {
        bytes4(self.bits as int, e)
    }

    open spec fn unwire(s: Seq<u8>, e: Endianness) -> Real32 {
        single_at(s, e)
    }

    proof fn lemma_wire(x: Real32, e: Endianness) {
        lemma_word4(x.bits as int, e);
    }

    proof fn lemma_unwire_prefix(s: Seq<u8>, t: Seq<u8>, e: Endianness) {
        lemma_take_same(s, t, 4);
    }

    fn size() -> (w: usize) {
        4
    }

    fn write(self, output: &mut Vec<u8>, e: Endianness) {
        write_word4(output, self.bits, e);
    }

    fn read(input: &[u8], pos: usize, e: Endianness) -> (r: Real32) {
        Real32 { bits: read_word4(input, pos, e) }
    }
}

impl Scalar for Real64 {
    open spec fn width() -> int {
        8
    }

    open spec fn wire(self, e: Endianness) -> Seq<u8> {
        bytes8(self.bits as int, e)
    }

    open spec fn unwire(s: Seq<u8>, e: Endianness) -> Real64 {
        double_at(s, e)
    }

    proof fn lemma_wire(x: Real64, e: Endianness) {
        lemma_word8(x.bits as int, e);
    }

    proof fn lemma_unwire_prefix(s: Seq<u8>, t: Seq<u8>, e: Endianness) {
        lemma_take_same(s, t, 8);
    }

    fn size() -> (w: usize) {
        8
    }

    fn write(self, output: &mut Vec<u8>, e: Endianness) {
        write_word8(output, self.bits, e);
    }

    fn read(input: &[u8], pos: usize, e: Endianness) -> (r: Real64) {
        Real64 { bits: read_word8(input, pos, e) }
    }
}

/// Sequences with the same first `n` bytes have the same byte at each of
/// the first `n` places.
pub proof fn lemma_take_same(s: Seq<u8>, t: Seq<u8>, n: int)
    requires
        0 <= n <= s.len(),
        n <= t.len(),
        s.take(n) == t.take(n),
    ensures
        forall|i: int| 0 <= i < n ==> s[i] == t[i],
{
    assert forall|i: int| 0 <= i < n implies s[i] == t[i] by {
        assert(s[i] == s.take(n)[i]);
        assert(t[i] == t.take(n)[i]);
    }
}

} // verus!
