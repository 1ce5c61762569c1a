//! The binary encoding, stated over sequences of bytes.
//!
//! Everything here is specification: the encoder and the decoder are
//! proved against these functions.

use vstd::prelude::*;
use vstd::utf8::{decode_utf8, encode_utf8, valid_utf8};
use crate::bgeo_constants::{
    JID_ARRAY_BEGIN, JID_ARRAY_END, JID_BOOL, JID_FALSE, JID_INT16, JID_INT32, JID_INT64, JID_INT8,
    JID_MAP_BEGIN, JID_MAP_END, JID_NULL, JID_REAL16, JID_REAL32, JID_REAL64, JID_STRING,
    JID_TOKENDEF, JID_TOKENREF, JID_TOKENUNDEF, JID_TRUE, JID_UINT16, JID_UINT8,
    JID_MAGIC, JID_UNIFORM_ARRAY,
};
use crate::errors::ParseError;
use crate::f16_half::half_to_single;
use crate::geo_struct::{object_insert, Real32, Real64, UniformValue, Value};
use crate::ieee::single_to_double;

verus! {

/// The byte order of the multi-byte primitives of one stream.
#[derive(Clone, Copy, Debug, PartialEq, Eq, Structural)]
pub enum Endianness {
    Big,
    Little,
}

/// The unsigned number held by the first two bytes of `s`.
pub open spec fn word2(s: Seq<u8>, e: Endianness) -> int {
    match e {
        Endianness::Big => s[0] * 0x100 + s[1],
        Endianness::Little => s[1] * 0x100 + s[0],
    }
}

/// The unsigned number held by the first four bytes of `s`.
pub open spec fn word4(s: Seq<u8>, e: Endianness) -> int {
    match e {
        Endianness::Big => s[0] * 0x100_0000 + s[1] * 0x1_0000 + s[2] * 0x100 + s[3],
        Endianness::Little => s[3] * 0x100_0000 + s[2] * 0x1_0000 + s[1] * 0x100 + s[0],
    }
}

/// The unsigned number held by the first eight bytes of `s`.
pub open spec fn word8(s: Seq<u8>, e: Endianness) -> int {
    match e {
        Endianness::Big => s[0] * 0x100_0000_0000_0000 + s[1] * 0x1_0000_0000_0000 + s[2]
            * 0x100_0000_0000 + s[3] * 0x1_0000_0000 + s[4] * 0x100_0000 + s[5] * 0x1_0000 + s[6]
            * 0x100 + s[7],
        Endianness::Little => s[7] * 0x100_0000_0000_0000 + s[6] * 0x1_0000_0000_0000 + s[5]
            * 0x100_0000_0000 + s[4] * 0x1_0000_0000 + s[3] * 0x100_0000 + s[2] * 0x1_0000 + s[1]
            * 0x100 + s[0],
    }
}

/// The bytes of a number below 2^16.
pub open spec fn bytes2(x: int, e: Endianness) -> Seq<u8> {
    match e {
        Endianness::Big => seq![(x / 0x100) as u8, (x % 0x100) as u8],
        Endianness::Little => seq![(x % 0x100) as u8, (x / 0x100) as u8],
    }
}

/// The bytes of a number below 2^32.
pub open spec fn bytes4(x: int, e: Endianness) -> Seq<u8> {
    match e {
        Endianness::Big => seq![
            (x / 0x100_0000) as u8,
            (x / 0x1_0000 % 0x100) as u8,
            (x / 0x100 % 0x100) as u8,
            (x % 0x100) as u8,
        ],
        Endianness::Little => seq![
            (x % 0x100) as u8,
            (x / 0x100 % 0x100) as u8,
            (x / 0x1_0000 % 0x100) as u8,
            (x / 0x100_0000) as u8,
        ],
    }
}

/// The bytes of a number below 2^64.
pub open spec fn bytes8(x: int, e: Endianness) -> Seq<u8> {
    match e {
        Endianness::Big => seq![
            (x / 0x100_0000_0000_0000) as u8,
            (x / 0x1_0000_0000_0000 % 0x100) as u8,
            (x / 0x100_0000_0000 % 0x100) as u8,
            (x / 0x1_0000_0000 % 0x100) as u8,
            (x / 0x100_0000 % 0x100) as u8,
            (x / 0x1_0000 % 0x100) as u8,
            (x / 0x100 % 0x100) as u8,
            (x % 0x100) as u8,
        ],
        Endianness::Little => seq![
            (x % 0x100) as u8,
            (x / 0x100 % 0x100) as u8,
            (x / 0x1_0000 % 0x100) as u8,
            (x / 0x100_0000 % 0x100) as u8,
            (x / 0x1_0000_0000 % 0x100) as u8,
            (x / 0x100_0000_0000 % 0x100) as u8,
            (x / 0x1_0000_0000_0000 % 0x100) as u8,
            (x / 0x100_0000_0000_0000) as u8,
        ],
    }
}

/// The two's complement reading of an unsigned number: `x` itself below
/// `half`, which is 2^(bits - 1), else `x - 2 * half`.
pub open spec fn signed(x: int, half: int) -> int {
    if x < half {
        x
    } else {
        x - 2 * half
    }
}

/// The unsigned number whose two's complement reading is `x`.
pub open spec fn unsigned(x: int, half: int) -> int {
    if x >= 0 {
        x
    } else {
        x + 2 * half
    }
}

/// How a length is written: one byte up to 240, else a marker `0xf0 + k`
/// and `k` bytes, `k` the least of 2, 4, 8 that holds it.
pub open spec fn length_encoding(n: u64, e: Endianness) -> Seq<u8> {
    if n < 0xf1 {
        seq![n as u8]
    } else if n <= 0xffff {
        seq![0xf2u8] + bytes2(n as int, e)
    } else if n <= 0xffff_ffff {
        seq![0xf4u8] + bytes4(n as int, e)
    } else {
        seq![0xf8u8] + bytes8(n as int, e)
    }
}

/// A length and the bytes after it.
pub struct LengthRead {
    pub length: u64,
    pub rest: Seq<u8>,
}

/// The length at the start of `s`.
pub open spec fn length_decoding(s: Seq<u8>, e: Endianness) -> Result<LengthRead, ParseError> {
    if s.len() < 1 {
        Err(ParseError::UnexpectedEnd)
    } else if s[0] < 0xf1 {
        Ok(LengthRead { length: s[0] as u64, rest: s.skip(1) })
    } else if s[0] == 0xf2 {
        if s.len() < 3 {
            Err(ParseError::UnexpectedEnd)
        } else {
            Ok(LengthRead { length: word2(s.skip(1), e) as u64, rest: s.skip(3) })
        }
    } else if s[0] == 0xf4 {
        if s.len() < 5 {
            Err(ParseError::UnexpectedEnd)
        } else {
            Ok(LengthRead { length: word4(s.skip(1), e) as u64, rest: s.skip(5) })
        }
    } else if s[0] == 0xf8 {
        if s.len() < 9 {
            Err(ParseError::UnexpectedEnd)
        } else {
            Ok(LengthRead { length: word8(s.skip(1), e) as u64, rest: s.skip(9) })
        }
    } else {
        Err(ParseError::BadLengthMarker)
    }
}

/// How a string is written: the length of its UTF-8 bytes, then the bytes.
pub open spec fn text_encoding(t: Seq<char>, e: Endianness) -> Seq<u8> {
    length_encoding(encode_utf8(t).len() as u64, e) + encode_utf8(t)
}

/// A string and the bytes after it.
pub struct TextRead {
    pub text: Seq<char>,
    pub rest: Seq<u8>,
}

/// The string at the start of `s`.
pub open spec fn text_decoding(s: Seq<u8>, e: Endianness) -> Result<TextRead, ParseError> {
    match length_decoding(s, e) {
        Err(x) => Err(x),
        Ok(n) => if n.rest.len() < n.length {
            Err(ParseError::UnexpectedEnd)
        } else if !valid_utf8(n.rest.take(n.length as int)) {
            Err(ParseError::MalformedUtf8)
        } else {
            Ok(
                TextRead {
                    text: decode_utf8(n.rest.take(n.length as int)),
                    rest: n.rest.skip(n.length as int),
                },
            )
        },
    }
}

/// Bit `k` of a byte, bit 0 the least significant.
pub open spec fn bit_of(byte: u8, k: int) -> bool {
    if k == 0 {
        byte % 2 == 1
    } else if k == 1 {
        byte / 2 % 2 == 1
    } else if k == 2 {
        byte / 4 % 2 == 1
    } else if k == 3 {
        byte / 8 % 2 == 1
    } else if k == 4 {
        byte / 16 % 2 == 1
    } else if k == 5 {
        byte / 32 % 2 == 1
    } else if k == 6 {
        byte / 64 % 2 == 1
    } else {
        byte / 128 % 2 == 1
    }
}

/// 1 where flag `j` exists and is set, else 0.
pub open spec fn flag(flags: Seq<bool>, j: int) -> int {
    if 0 <= j < flags.len() && flags[j] {
        1
    } else {
        0
    }
}

/// Byte `k` of a run of packed flags: flag `8 * k + b` is its bit `b`.
pub open spec fn flags_byte(flags: Seq<bool>, k: int) -> u8 {
    (flag(flags, 8 * k) + 2 * flag(flags, 8 * k + 1) + 4 * flag(flags, 8 * k + 2) + 8 * flag(
        flags,
        8 * k + 3,
    ) + 16 * flag(flags, 8 * k + 4) + 32 * flag(flags, 8 * k + 5) + 64 * flag(flags, 8 * k + 6)
        + 128 * flag(flags, 8 * k + 7)) as u8
}

/// The number of bytes that `n` packed flags take: whole words of 32
/// flags, the last one filled up with zero bits.
pub open spec fn flags_width(n: int) -> int {
    (n + 31) / 32 * 4
}

/// Flags packed into 32-bit little-endian words: flag `32 * w + i` is bit
/// `i` of word `w`, which makes flag `j` bit `j % 8` of byte `j / 8`.
pub open spec fn flags_encoding(flags: Seq<bool>) -> Seq<u8> {
    Seq::new(flags_width(flags.len() as int) as nat, |k: int| flags_byte(flags, k))
}

/// The first `n` flags packed in `s`.
pub open spec fn flags_decoding(s: Seq<u8>, n: nat) -> Seq<bool> {
    Seq::new(n, |j: int| bit_of(s[j / 8], j % 8))
}

/// A scalar that a uniform array can hold: how many bytes it takes, how
/// it is written and how it is read.
pub trait Scalar: Sized + Copy {
    /// The number of bytes of one scalar: 1, 2, 4 or 8.
    spec fn width() -> int;

    /// The bytes of the scalar.
    spec fn wire(self, e: Endianness) -> Seq<u8>;

    /// The scalar that the first bytes of `s` hold.
    spec fn unwire(s: Seq<u8>, e: Endianness) -> Self;

    /// A scalar is written in `width()` bytes and read back from them
    /// unchanged.
    proof fn lemma_wire(x: Self, e: Endianness)
        ensures
            1 <= Self::width() <= 8,
            x.wire(e).len() == Self::width(),
            Self::unwire(x.wire(e), e) == x,
    ;

    /// Reading looks at the first `width()` bytes only.
    proof fn lemma_unwire_prefix(s: Seq<u8>, t: Seq<u8>, e: Endianness)
        requires
            s.len() >= Self::width(),
            t.len() >= Self::width(),
            s.take(Self::width()) == t.take(Self::width()),
        ensures
            Self::unwire(s, e) == Self::unwire(t, e),
    ;

    /// The number of bytes of one scalar.
    fn size() -> (w: usize)
        ensures
            w == Self::width(),
    ;

    /// Appends the bytes of the scalar.
    fn write(self, output: &mut Vec<u8>, e: Endianness)
        ensures
            final(output)@ == old(output)@ + self.wire(e),
    ;

    /// Reads the scalar that starts at `pos`.
    fn read(input: &[u8], pos: usize, e: Endianness) -> (r: Self)
        requires
            pos + Self::width() <= input@.len(),
        ensures
            r == Self::unwire(input@.skip(pos as int), e),
    ;
}

/// The scalars `v`, written one after the other.
pub open spec fn packed<T: Scalar>(v: Seq<T>, e: Endianness) -> Seq<u8>
    decreases v.len(),
{
    if v.len() == 0 {
        Seq::empty()
    } else {
        packed(v.drop_last(), e) + v.last().wire(e)
    }
}

/// The first `n` scalars held by `s`: scalar `i` is read from the bytes
/// from `i * width()` on.
pub open spec fn blocks<T: Scalar>(s: Seq<u8>, n: nat, e: Endianness) -> Seq<T> {
    Seq::new(n, |i: int| T::unwire(s.skip(i * T::width()), e))
}

/// A run of scalars with its length in front.
pub open spec fn run_encoding<T: Scalar>(v: Seq<T>, e: Endianness) -> Seq<u8> {
    length_encoding(v.len() as u64, e) + packed(v, e)
}

/// The run of `n` scalars at the start of `s`, and the bytes after it.
pub open spec fn run_decoding<T: Scalar>(s: Seq<u8>, n: nat, e: Endianness) -> Result<
    (Seq<T>, Seq<u8>),
    ParseError,
> {
    if s.len() < T::width() * n {
        Err(ParseError::UnexpectedEnd)
    } else {
        Ok((blocks(s, n, e), s.skip(T::width() * n)))
    }
}

pub open spec fn i8_at(s: Seq<u8>) -> i8 {
    signed(s[0] as int, 0x80) as i8
}

pub open spec fn u16_at(s: Seq<u8>, e: Endianness) -> u16 {
    word2(s, e) as u16
}

pub open spec fn i16_at(s: Seq<u8>, e: Endianness) -> i16 {
    signed(word2(s, e), 0x8000) as i16
}

pub open spec fn i32_at(s: Seq<u8>, e: Endianness) -> i32 {
    signed(word4(s, e), 0x8000_0000) as i32
}

pub open spec fn i64_at(s: Seq<u8>, e: Endianness) -> i64 {
    signed(word8(s, e), 0x8000_0000_0000_0000) as i64
}

pub open spec fn single_at(s: Seq<u8>, e: Endianness) -> Real32 {
    Real32 { bits: word4(s, e) as u32 }
}

pub open spec fn double_at(s: Seq<u8>, e: Endianness) -> Real64 {
    Real64 { bits: word8(s, e) as u64 }
}

/// A half on the wire, widened to binary32.
pub open spec fn half_at(s: Seq<u8>, e: Endianness) -> Real32 {
    Real32 { bits: half_to_single(word2(s, e)) as u32 }
}

/// A binary32 number widened to binary64.
pub open spec fn widened(x: Real32) -> Real64 {
    Real64 { bits: single_to_double(x.bits as int) as u64 }
}

/// How a uniform array is written after its tag: the tag of the element
/// type, the number of elements, the elements. Halves are written as
/// binary32, under that tag.
pub open spec fn uniform_encoding(u: UniformValue, e: Endianness) -> Seq<u8> {
    match u {
        UniformValue::U8(v) => seq![JID_UINT8] + run_encoding(v, e),
        UniformValue::U16(v) => seq![JID_UINT16] + run_encoding(v, e),
        UniformValue::I8(v) => seq![JID_INT8] + run_encoding(v, e),
        UniformValue::I16(v) => seq![JID_INT16] + run_encoding(v, e),
        UniformValue::I32(v) => seq![JID_INT32] + run_encoding(v, e),
        UniformValue::I64(v) => seq![JID_INT64] + run_encoding(v, e),
        UniformValue::F16(v) => seq![JID_REAL32] + run_encoding(v, e),
        UniformValue::F32(v) => seq![JID_REAL32] + run_encoding(v, e),
        UniformValue::F64(v) => seq![JID_REAL64] + run_encoding(v, e),
        UniformValue::Bits(v) => seq![JID_BOOL] + length_encoding(v.len() as u64, e)
            + flags_encoding(v),
    }
}

/// How a tree is written. No string is interned: each is written where it
/// stands. An object is written entry by entry, each key as a string.
pub open spec fn encoding(v: Value, e: Endianness) -> Seq<u8>
    decreases v,
{
    match v {
        Value::Null => seq![JID_NULL],
        Value::Bool(b) => seq![
            JID_BOOL,
            if b {
                1u8
            } else {
                0u8
            },
        ],
        Value::Int(i) => seq![JID_INT64] + i.wire(e),
        Value::Real(r) => seq![JID_REAL64] + r.wire(e),
        Value::Text(t) => seq![JID_STRING] + text_encoding(t, e),
        Value::Array(items) => seq![JID_ARRAY_BEGIN] + elements_encoding(items, e)
            + seq![JID_ARRAY_END],
        Value::Object(entries) => seq![JID_MAP_BEGIN] + entries_encoding(entries, e)
            + seq![JID_MAP_END],
        Value::Uniform(u) => seq![JID_UNIFORM_ARRAY] + uniform_encoding(u, e),
    }
}

/// The members of an array, one after the other.
pub open spec fn elements_encoding(items: Seq<Value>, e: Endianness) -> Seq<u8>
    decreases items,
{
    if items.len() == 0 {
        Seq::empty()
    } else {
        encoding(items[0], e) + elements_encoding(items.drop_first(), e)
    }
}

/// The entries of an object, one after the other.
pub open spec fn entries_encoding(entries: Seq<(Seq<char>, Value)>, e: Endianness) -> Seq<u8>
    decreases entries,
{
    if entries.len() == 0 {
        Seq::empty()
    } else {
        seq![JID_STRING] + text_encoding(entries[0].0, e) + encoding(entries[0].1, e)
            + entries_encoding(entries.drop_first(), e)
    }
}

/// A uniform array and the bytes after it.
pub struct UniformRead {
    pub values: UniformValue,
    pub rest: Seq<u8>,
}

/// The elements `values` and the bytes after them, where a run was read.
pub open spec fn uniform_read<T>(
    run: Result<(Seq<T>, Seq<u8>), ParseError>,
    values: spec_fn(Seq<T>) -> UniformValue,
) -> Result<UniformRead, ParseError> {
    match run {
        Err(x) => Err(x),
        Ok(r) => Ok(UniformRead { values: values(r.0), rest: r.1 }),
    }
}

/// The halves at the start of `s`, each widened to binary32.
pub open spec fn halves(s: Seq<u8>, n: nat, e: Endianness) -> Seq<Real32> {
    Seq::new(n, |i: int| half_at(s.skip(2 * i), e))
}

/// The `n` elements of type `kind` at the start of `s`.
pub open spec fn uniform_elements(kind: u8, n: nat, s: Seq<u8>, e: Endianness) -> Result<
    UniformRead,
    ParseError,
> {
    if kind == JID_INT8 {
        uniform_read(run_decoding::<i8>(s, n, e), |v: Seq<i8>| UniformValue::I8(v))
    } else if kind == JID_INT16 {
        uniform_read(run_decoding::<i16>(s, n, e), |v: Seq<i16>| UniformValue::I16(v))
    } else if kind == JID_INT32 {
        uniform_read(run_decoding::<i32>(s, n, e), |v: Seq<i32>| UniformValue::I32(v))
    } else if kind == JID_INT64 {
        uniform_read(run_decoding::<i64>(s, n, e), |v: Seq<i64>| UniformValue::I64(v))
    } else if kind == JID_UINT8 {
        uniform_read(run_decoding::<u8>(s, n, e), |v: Seq<u8>| UniformValue::U8(v))
    } else if kind == JID_UINT16 {
        uniform_read(run_decoding::<u16>(s, n, e), |v: Seq<u16>| UniformValue::U16(v))
    } else if kind == JID_REAL16 {
        if s.len() < 2 * n {
            Err(ParseError::UnexpectedEnd)
        } else {
            Ok(UniformRead { values: UniformValue::F16(halves(s, n, e)), rest: s.skip(2 * (n as int)) })
        }
    } else if kind == JID_REAL32 {
        uniform_read(run_decoding::<Real32>(s, n, e), |v: Seq<Real32>| UniformValue::F32(v))
    } else if kind == JID_REAL64 {
        uniform_read(run_decoding::<Real64>(s, n, e), |v: Seq<Real64>| UniformValue::F64(v))
    } else if kind == JID_BOOL {
        if s.len() < flags_width(n as int) {
            Err(ParseError::UnexpectedEnd)
        } else {
            Ok(
                UniformRead {
                    values: UniformValue::Bits(flags_decoding(s, n)),
                    rest: s.skip(flags_width(n as int)),
                },
            )
        }
    } else if kind == JID_TOKENREF || kind == JID_STRING {
        Err(ParseError::NotImplemented)
    } else {
        Err(ParseError::UnexpectedToken)
    }
}

/// The uniform array at the start of `s`, which stands after the array's
/// own tag: the tag of the element type, the number of elements, the
/// elements.
pub open spec fn uniform_decoding(s: Seq<u8>, e: Endianness) -> Result<UniformRead, ParseError> {
    if s.len() < 1 {
        Err(ParseError::UnexpectedEnd)
    } else {
        match length_decoding(s.skip(1), e) {
            Err(x) => Err(x),
            Ok(n) => uniform_elements(s[0], n.length as nat, n.rest, e),
        }
    }
}

/// What one step of the decoder yields: a value, or the tag that closes
/// the container being read.
pub enum Item {
    Element(Value),
    ArrayEnd,
    MapEnd,
}

/// The outcome of one step: what was read, the bytes after it, and the
/// token table as the step left it.
pub struct Decoded {
    pub item: Item,
    pub rest: Seq<u8>,
    pub tokens: Map<u64, Seq<char>>,
}

/// A scalar of `w` bytes: the value `v` if `s` holds that many.
pub open spec fn scalar(s: Seq<u8>, w: int, v: Value, tokens: Map<u64, Seq<char>>) -> Result<
    Decoded,
    ParseError,
> {
    if s.len() < w {
        Err(ParseError::UnexpectedEnd)
    } else {
        Ok(Decoded { item: Item::Element(v), rest: s.skip(w), tokens })
    }
}

/// One step of the decoder at the start of `s`.
///
/// Records that define or undefine a token come before the tag of a value
/// in any number; each changes the table and is otherwise passed over. To
/// undefine a token that the table lacks is an error.
///
/// (A step that succeeds consumes at least one byte, so the tests on the
/// length of what is left never fail: they make termination evident.)
pub open spec fn decode_item(s: Seq<u8>, tokens: Map<u64, Seq<char>>, e: Endianness) -> Result<
    Decoded,
    ParseError,
>
    decreases s.len(), 0nat,
{
    if s.len() < 1 {
        Err(ParseError::UnexpectedEnd)
    } else if s[0] == JID_TOKENDEF {
        match length_decoding(s.skip(1), e) {
            Err(x) => Err(x),
            Ok(id) => match text_decoding(id.rest, e) {
                Err(x) => Err(x),
                Ok(t) => if t.rest.len() < s.len() {
                    decode_item(t.rest, tokens.insert(id.length, t.text), e)
                } else {
                    Err(ParseError::UnexpectedEnd)
                },
            },
        }
    } else if s[0] == JID_TOKENUNDEF {
        match length_decoding(s.skip(1), e) {
            Err(x) => Err(x),
            Ok(id) => if !tokens.contains_key(id.length) {
                Err(ParseError::UndefinedToken)
            } else if id.rest.len() < s.len() {
                decode_item(id.rest, tokens.remove(id.length), e)
            } else {
                Err(ParseError::UnexpectedEnd)
            },
        }
    } else {
        decode_tagged(s[0], s.skip(1), tokens, e)
    }
}

/// What the tag `tag` announces, read from `s`, the bytes after the tag.
pub open spec fn decode_tagged(
    tag: u8,
    s: Seq<u8>,
    tokens: Map<u64, Seq<char>>,
    e: Endianness,
) -> Result<Decoded, ParseError>
    decreases s.len(), 2nat,
{
    if tag == JID_MAP_BEGIN {
        decode_entries(s, tokens, e, Seq::empty())
    } else if tag == JID_ARRAY_BEGIN {
        decode_elements(s, tokens, e, Seq::empty())
    } else if tag == JID_BOOL {
        scalar(s, 1, Value::Bool(s[0] != 0), tokens)
    } else if tag == JID_FALSE {
        scalar(s, 0, Value::Bool(false), tokens)
    } else if tag == JID_TRUE {
        scalar(s, 0, Value::Bool(true), tokens)
    } else if tag == JID_INT8 {
        scalar(s, 1, Value::Int(i8_at(s) as i64), tokens)
    } else if tag == JID_INT16 {
        scalar(s, 2, Value::Int(i16_at(s, e) as i64), tokens)
    } else if tag == JID_INT32 {
        scalar(s, 4, Value::Int(i32_at(s, e) as i64), tokens)
    } else if tag == JID_INT64 {
        scalar(s, 8, Value::Int(i64_at(s, e)), tokens)
    } else if tag == JID_UINT8 {
        scalar(s, 1, Value::Int(s[0] as i64), tokens)
    } else if tag == JID_UINT16 {
        scalar(s, 2, Value::Int(u16_at(s, e) as i64), tokens)
    } else if tag == JID_REAL16 {
        scalar(s, 2, Value::Real(widened(half_at(s, e))), tokens)
    } else if tag == JID_REAL32 {
        scalar(s, 4, Value::Real(widened(single_at(s, e))), tokens)
    } else if tag == JID_REAL64 {
        scalar(s, 8, Value::Real(double_at(s, e)), tokens)
    } else if tag == JID_STRING {
        match text_decoding(s, e) {
            Err(x) => Err(x),
            Ok(t) => Ok(Decoded { item: Item::Element(Value::Text(t.text)), rest: t.rest, tokens }),
        }
    } else if tag == JID_TOKENREF {
        match length_decoding(s, e) {
            Err(x) => Err(x),
            Ok(id) => if tokens.contains_key(id.length) {
                Ok(
                    Decoded {
                        item: Item::Element(Value::Text(tokens[id.length])),
                        rest: id.rest,
                        tokens,
                    },
                )
            } else {
                Err(ParseError::UndefinedToken)
            },
        }
    } else if tag == JID_UNIFORM_ARRAY {
        match uniform_decoding(s, e) {
            Err(x) => Err(x),
            Ok(u) => Ok(
                Decoded { item: Item::Element(Value::Uniform(u.values)), rest: u.rest, tokens },
            ),
        }
    } else if tag == JID_NULL {
        scalar(s, 0, Value::Null, tokens)
    } else if tag == JID_MAP_END {
        Ok(Decoded { item: Item::MapEnd, rest: s, tokens })
    } else if tag == JID_ARRAY_END {
        Ok(Decoded { item: Item::ArrayEnd, rest: s, tokens })
    } else {
        Err(ParseError::UnexpectedToken)
    }
}

/// The members of an array from the start of `s` up to the tag that ends
/// it, after the members `acc` that were read before.
pub open spec fn decode_elements(
    s: Seq<u8>,
    tokens: Map<u64, Seq<char>>,
    e: Endianness,
    acc: Seq<Value>,
) -> Result<Decoded, ParseError>
    decreases s.len(), 1nat,
{
    match decode_item(s, tokens, e) {
        Err(x) => Err(x),
        Ok(d) => match d.item {
            Item::ArrayEnd => Ok(
                Decoded { item: Item::Element(Value::Array(acc)), rest: d.rest, tokens: d.tokens },
            ),
            Item::Element(v) => if d.rest.len() < s.len() {
                decode_elements(d.rest, d.tokens, e, acc.push(v))
            } else {
                Err(ParseError::UnexpectedEnd)
            },
            Item::MapEnd => Err(ParseError::UnexpectedToken),
        },
    }
}

/// The entries of an object from the start of `s` up to the tag that ends
/// it, after the entries `acc` that were read before. A key must be a
/// string; a key that was read before gets the later value.
pub open spec fn decode_entries(
    s: Seq<u8>,
    tokens: Map<u64, Seq<char>>,
    e: Endianness,
    acc: Seq<(Seq<char>, Value)>,
) -> Result<Decoded, ParseError>
    decreases s.len(), 1nat,
{
    match decode_item(s, tokens, e) {
        Err(x) => Err(x),
        Ok(k) => match k.item {
            Item::MapEnd => Ok(
                Decoded { item: Item::Element(Value::Object(acc)), rest: k.rest, tokens: k.tokens },
            ),
            Item::Element(Value::Text(key)) => if k.rest.len() < s.len() {
                match decode_item(k.rest, k.tokens, e) {
                    Err(x) => Err(x),
                    Ok(v) => match v.item {
                        Item::Element(value) => if v.rest.len() < k.rest.len() {
                            decode_entries(v.rest, v.tokens, e, object_insert(acc, key, value))
                        } else {
                            Err(ParseError::UnexpectedEnd)
                        },
                        _ => Err(ParseError::UnexpectedToken),
                    },
                }
            } else {
                Err(ParseError::UnexpectedEnd)
            },
            _ => Err(ParseError::UnexpectedToken),
        },
    }
}

/// The byte order that the four bytes after the format marker select.
pub open spec fn byte_order(magic: Seq<u8>) -> Option<Endianness> {
    if magic =~= seq![0x62u8, 0x4au8, 0x53u8, 0x4eu8] {
        Some(Endianness::Big)
    } else if magic =~= seq![0x4eu8, 0x53u8, 0x4au8, 0x62u8] {
        Some(Endianness::Little)
    } else {
        None
    }
}

/// The header of a stream in the given byte order.
pub open spec fn header(e: Endianness) -> Seq<u8> {
    match e {
        Endianness::Big => seq![JID_MAGIC, 0x62u8, 0x4au8, 0x53u8, 0x4eu8],
        Endianness::Little => seq![JID_MAGIC, 0x4eu8, 0x53u8, 0x4au8, 0x62u8],
    }
}

/// The tree that a whole binary stream holds: the format marker, the
/// magic that fixes the byte order, one value. What follows the value is
/// not looked at.
pub open spec fn stream_decoding(s: Seq<u8>) -> Result<Value, ParseError> {
    if s.len() < 1 {
        Err(ParseError::UnexpectedEnd)
    } else if s[0] != JID_MAGIC {
        Err(ParseError::BadMagic)
    } else if s.len() < 5 {
        Err(ParseError::UnexpectedEnd)
    } else {
        match byte_order(s.subrange(1, 5)) {
            None => Err(ParseError::UnrecognizedMagic),
            Some(e) => match decode_item(s.skip(5), Map::empty(), e) {
                Err(x) => Err(x),
                Ok(d) => match d.item {
                    Item::Element(v) => Ok(v),
                    _ => Err(ParseError::UnexpectedToken),
                },
            },
        }
    }
}

/// The whole stream that holds the tree `v`.
pub open spec fn stream_encoding(v: Value, e: Endianness) -> Seq<u8> {
    header(e) + encoding(v, e)
}

} // verus!
