//! What is written can be read back: the laws that tie the binary
//! encoding to the binary decoding.

use vstd::prelude::*;
use vstd::utf8::{decode_utf8, encode_utf8, valid_utf8};
use crate::bgeo_constants::{
    JID_ARRAY_BEGIN, JID_ARRAY_END, JID_BOOL, JID_INT16, JID_INT32, JID_INT64, JID_INT8, JID_MAGIC,
    JID_MAP_BEGIN, JID_MAP_END, JID_NULL, JID_REAL32, JID_REAL64, JID_STRING, JID_UINT16,
    JID_UINT8, JID_UNIFORM_ARRAY,
};
use crate::bgeo_format::{
    bit_of, blocks, bytes2, bytes4, bytes8, decode_elements, decode_entries, decode_item,
    decode_tagged, elements_encoding, encoding, entries_encoding, flag, flags_byte,
    flags_decoding, flags_encoding, flags_width, header, length_decoding, length_encoding, packed,
    run_decoding, run_encoding, scalar, stream_decoding, stream_encoding, text_decoding,
    text_encoding, uniform_decoding, uniform_elements, uniform_encoding, uniform_read, word2,
    word4, word8, Decoded, Endianness, Item, LengthRead, Scalar, TextRead, UniformRead,
};
use crate::errors::ParseError;
use crate::geo_struct::{
    key_position, keys_unique, lemma_insert_keeps_unique, object_insert, well_formed, Real32,
    Real64, UniformValue, Value,
};
use crate::scalars::{lemma_word2, lemma_word4, lemma_word8};

verus! {

/// A length that was written is read back as it was, from the least
/// width that holds it, and what stood after it is left over.
pub proof fn lemma_length_round_trip(n: u64, e: Endianness, rest: Seq<u8>)
    ensures
        length_decoding(length_encoding(n, e) + rest, e) == Ok::<LengthRead, ParseError>(
            LengthRead { length: n, rest },
        ),
        n < 0xf1 ==> length_encoding(n, e).len() == 1,
        0xf1 <= n <= 0xffff ==> length_encoding(n, e).len() == 3,
        0xffff < n <= 0xffff_ffff ==> length_encoding(n, e).len() == 5,
        0xffff_ffff < n ==> length_encoding(n, e).len() == 9,
{
    let s = length_encoding(n, e) + rest;
    if n < 0xf1 {
        assert(s.skip(1) =~= rest);
    } else if n <= 0xffff {
        lemma_word2(n as int, e);
        let b = bytes2(n as int, e);
        assert(s.skip(1)[0] == b[0] && s.skip(1)[1] == b[1]);
        assert(s.skip(3) =~= rest);
    } else if n <= 0xffff_ffff {
        lemma_word4(n as int, e);
        let b = bytes4(n as int, e);
        assert(s.skip(1)[0] == b[0] && s.skip(1)[1] == b[1] && s.skip(1)[2] == b[2] && s.skip(
            1,
        )[3] == b[3]);
        assert(s.skip(5) =~= rest);
    } else {
        lemma_word8(n as int, e);
        let b = bytes8(n as int, e);
        assert(s.skip(1)[0] == b[0] && s.skip(1)[1] == b[1] && s.skip(1)[2] == b[2] && s.skip(
            1,
        )[3] == b[3]);
        assert(s.skip(1)[4] == b[4] && s.skip(1)[5] == b[5] && s.skip(1)[6] == b[6] && s.skip(
            1,
        )[7] == b[7]);
        assert(s.skip(9) =~= rest);
    }
}

/// A string that was written is read back as it was.
pub proof fn lemma_text_round_trip(t: Seq<char>, e: Endianness, rest: Seq<u8>)
    requires
        encode_utf8(t).len() <= u64::MAX,
    ensures
        text_decoding(text_encoding(t, e) + rest, e) == Ok::<TextRead, ParseError>(
            TextRead { text: t, rest },
        ),
{
    let bytes = encode_utf8(t);
    let n = bytes.len() as u64;
    lemma_length_round_trip(n, e, bytes + rest);
    assert(text_encoding(t, e) + rest =~= length_encoding(n, e) + (bytes + rest));
    assert((bytes + rest).take(n as int) =~= bytes);
    assert((bytes + rest).skip(n as int) =~= rest);
    vstd::utf8::encode_utf8_valid_utf8(t);
    vstd::utf8::encode_utf8_decode_utf8(t);
}

/// Scalars written one after the other take `width()` bytes each.
pub proof fn lemma_packed_len<T: Scalar>(v: Seq<T>, e: Endianness)
    ensures
        packed(v, e).len() == v.len() * T::width(),
    decreases v.len(),
{
    if v.len() > 0 {
        lemma_packed_len(v.drop_last(), e);
        T::lemma_wire(v.last(), e);
        assert((v.len() - 1) * T::width() + T::width() == v.len() * T::width())
            by (nonlinear_arith);
    }
}

/// Among scalars written one after the other, the bytes of scalar `i`
/// stand from `i * width()` on.
pub proof fn lemma_packed_block<T: Scalar>(v: Seq<T>, e: Endianness, i: int)
    requires
        0 <= i < v.len(),
    ensures
        0 <= i * T::width(),
        i * T::width() + T::width() <= packed(v, e).len(),
        packed(v, e).subrange(i * T::width(), i * T::width() + T::width()) == v[i].wire(e),
    decreases v.len(),
{
    let w = T::width();
    let head = v.drop_last();
    T::lemma_wire(v.last(), e);
    lemma_packed_len(head, e);
    lemma_packed_len(v, e);
    assert(0 <= i * w && i * w + w <= v.len() * w) by (nonlinear_arith)
        requires
            0 <= i < v.len(),
            w >= 1,
    ;
    if i == v.len() - 1 {
        assert(packed(v, e).subrange(i * w, i * w + w) =~= v[i].wire(e));
    } else {
        lemma_packed_block(head, e, i);
        assert(i * w + w <= head.len() * w) by (nonlinear_arith)
            requires
                0 <= i < head.len(),
                w >= 1,
        ;
        assert(packed(v, e).subrange(i * w, i * w + w) =~= packed(head, e).subrange(
            i * w,
            i * w + w,
        ));
    }
}

/// A run of scalars that was written is read back as it was.
pub proof fn lemma_run_round_trip<T: Scalar>(v: Seq<T>, e: Endianness, rest: Seq<u8>)
    ensures
        run_decoding::<T>(packed(v, e) + rest, v.len(), e) == Ok::<(Seq<T>, Seq<u8>), ParseError>(
            (v, rest),
        ),
{
    let w = T::width();
    let s = packed(v, e) + rest;
    lemma_packed_len(v, e);
    assert(w * v.len() == v.len() * w) by (nonlinear_arith);
    assert(s.skip(w * v.len()) =~= rest);
    assert forall|i: int| 0 <= i < v.len() implies T::unwire(s.skip(i * w), e) == v[i] by {
        lemma_packed_block(v, e, i);
        T::lemma_wire(v[i], e);
        assert(s.skip(i * w).take(w) =~= packed(v, e).subrange(i * w, i * w + w));
        assert(v[i].wire(e).take(w) =~= v[i].wire(e));
        T::lemma_unwire_prefix(s.skip(i * w), v[i].wire(e), e);
    }
    assert(blocks::<T>(s, v.len(), e) =~= v);
}

/// Bit `b` of a byte made of eight flags is flag `b`.
pub proof fn lemma_flag_bits(f0: int, f1: int, f2: int, f3: int, f4: int, f5: int, f6: int, f7: int)
    requires
        0 <= f0 <= 1,
        0 <= f1 <= 1,
        0 <= f2 <= 1,
        0 <= f3 <= 1,
        0 <= f4 <= 1,
        0 <= f5 <= 1,
        0 <= f6 <= 1,
        0 <= f7 <= 1,
    ensures
        ({
            let byte = (f0 + 2 * f1 + 4 * f2 + 8 * f3 + 16 * f4 + 32 * f5 + 64 * f6 + 128 * f7) as u8;
            &&& bit_of(byte, 0) == (f0 == 1)
            &&& bit_of(byte, 1) == (f1 == 1)
            &&& bit_of(byte, 2) == (f2 == 1)
            &&& bit_of(byte, 3) == (f3 == 1)
            &&& bit_of(byte, 4) == (f4 == 1)
            &&& bit_of(byte, 5) == (f5 == 1)
            &&& bit_of(byte, 6) == (f6 == 1)
            &&& bit_of(byte, 7) == (f7 == 1)
        }),
{
    let r6 = f6 + 2 * f7;
    let r5 = f5 + 2 * r6;
    let r4 = f4 + 2 * r5;
    let r3 = f3 + 2 * r4;
    let r2 = f2 + 2 * r3;
    let r1 = f1 + 2 * r2;
    let r0 = f0 + 2 * r1;
    assert(r0 / 2 == r1 && r0 % 2 == f0);
    assert(r1 / 2 == r2 && r1 % 2 == f1);
    assert(r2 / 2 == r3 && r2 % 2 == f2);
    assert(r3 / 2 == r4 && r3 % 2 == f3);
    assert(r4 / 2 == r5 && r4 % 2 == f4);
    assert(r5 / 2 == r6 && r5 % 2 == f5);
    assert(r6 / 2 == f7 && r6 % 2 == f6);
    vstd::arithmetic::div_mod::lemma_div_denominator(r0, 2, 2);
    vstd::arithmetic::div_mod::lemma_div_denominator(r0, 4, 2);
    vstd::arithmetic::div_mod::lemma_div_denominator(r0, 8, 2);
    vstd::arithmetic::div_mod::lemma_div_denominator(r0, 16, 2);
    vstd::arithmetic::div_mod::lemma_div_denominator(r0, 32, 2);
    vstd::arithmetic::div_mod::lemma_div_denominator(r0, 64, 2);
    assert(r0 / 4 == r2);
    assert(r0 / 8 == r3);
    assert(r0 / 16 == r4);
    assert(r0 / 32 == r5);
    assert(r0 / 64 == r6);
    assert(r0 / 128 == f7);
    assert(0 <= r0 <= 255);
}

/// Flags that were packed are read back as they were.
pub proof fn lemma_flags_round_trip(flags: Seq<bool>, rest: Seq<u8>)
    ensures
        flags_encoding(flags).len() == flags_width(flags.len() as int),
        flags_decoding(flags_encoding(flags) + rest, flags.len()) == flags,
{
    let s = flags_encoding(flags) + rest;
    assert forall|j: int| 0 <= j < flags.len() implies bit_of(s[j / 8], j % 8) == flags[j] by {
        let k = j / 8;
        assert(0 <= k < flags_width(flags.len() as int));
        assert(s[k] == flags_byte(flags, k));
        lemma_flag_bits(
            flag(flags, 8 * k),
            flag(flags, 8 * k + 1),
            flag(flags, 8 * k + 2),
            flag(flags, 8 * k + 3),
            flag(flags, 8 * k + 4),
            flag(flags, 8 * k + 5),
            flag(flags, 8 * k + 6),
            flag(flags, 8 * k + 7),
        );
        assert(j == 8 * k + j % 8);
    }
    assert(flags_decoding(s, flags.len()) =~= flags);
}

/// The uniform arrays that are written under their own tag: all but
/// arrays of halves, which are written as binary32.
pub open spec fn keeps_kind(u: UniformValue) -> bool {
    !(u is F16)
}

/// The number of elements of a uniform array.
pub open spec fn uniform_len(u: UniformValue) -> nat {
    match u {
        UniformValue::U8(v) => v.len(),
        UniformValue::U16(v) => v.len(),
        UniformValue::I8(v) => v.len(),
        UniformValue::I16(v) => v.len(),
        UniformValue::I32(v) => v.len(),
        UniformValue::I64(v) => v.len(),
        UniformValue::F16(v) => v.len(),
        UniformValue::F32(v) => v.len(),
        UniformValue::F64(v) => v.len(),
        UniformValue::Bits(v) => v.len(),
    }
}

/// A uniform array of scalars of one type, written after its tag, is
/// read back as it was.
proof fn lemma_uniform_run<T: Scalar>(
    kind: u8,
    v: Seq<T>,
    e: Endianness,
    rest: Seq<u8>,
    wrap: spec_fn(Seq<T>) -> UniformValue,
)
    requires
        v.len() <= u64::MAX,
        uniform_elements(kind, v.len(), packed(v, e) + rest, e) == uniform_read(
            run_decoding::<T>(packed(v, e) + rest, v.len(), e),
            wrap,
        ),
    ensures
        uniform_decoding(seq![kind] + run_encoding(v, e) + rest, e) == Ok::<
            UniformRead,
            ParseError,
        >(UniformRead { values: wrap(v), rest }),
{
    let s = seq![kind] + run_encoding(v, e) + rest;
    let n = v.len() as u64;
    lemma_length_round_trip(n, e, packed(v, e) + rest);
    assert(s.skip(1) =~= length_encoding(n, e) + (packed(v, e) + rest));
    lemma_run_round_trip(v, e, rest);
}

/// A uniform array that was written is read back as it was.
#[verifier::rlimit(60)]
#[verifier::spinoff_prover]
pub proof fn lemma_uniform_round_trip(u: UniformValue, e: Endianness, rest: Seq<u8>)
    requires
        keeps_kind(u),
        uniform_len(u) <= u64::MAX,
    ensures
        uniform_decoding(uniform_encoding(u, e) + rest, e) == Ok::<UniformRead, ParseError>(
            UniformRead { values: u, rest },
        ),
{
    match u {
        UniformValue::U8(v) => {
            let s = packed(v, e) + rest;
            assert(uniform_elements(JID_UINT8, v.len(), s, e) == uniform_read(
                run_decoding::<u8>(s, v.len(), e),
                |v: Seq<u8>| UniformValue::U8(v),
            ));
            lemma_uniform_run(JID_UINT8, v, e, rest, |v: Seq<u8>| UniformValue::U8(v));
        },
        UniformValue::U16(v) => {
            let s = packed(v, e) + rest;
            assert(uniform_elements(JID_UINT16, v.len(), s, e) == uniform_read(
                run_decoding::<u16>(s, v.len(), e),
                |v: Seq<u16>| UniformValue::U16(v),
            ));
            lemma_uniform_run(JID_UINT16, v, e, rest, |v: Seq<u16>| UniformValue::U16(v));
        },
        UniformValue::I8(v) => {
            let s = packed(v, e) + rest;
            assert(uniform_elements(JID_INT8, v.len(), s, e) == uniform_read(
                run_decoding::<i8>(s, v.len(), e),
                |v: Seq<i8>| UniformValue::I8(v),
            ));
            lemma_uniform_run(JID_INT8, v, e, rest, |v: Seq<i8>| UniformValue::I8(v));
        },
        UniformValue::I16(v) => {
            let s = packed(v, e) + rest;
            assert(uniform_elements(JID_INT16, v.len(), s, e) == uniform_read(
                run_decoding::<i16>(s, v.len(), e),
                |v: Seq<i16>| UniformValue::I16(v),
            ));
            lemma_uniform_run(JID_INT16, v, e, rest, |v: Seq<i16>| UniformValue::I16(v));
        },
        UniformValue::I32(v) => {
            let s = packed(v, e) + rest;
            assert(uniform_elements(JID_INT32, v.len(), s, e) == uniform_read(
                run_decoding::<i32>(s, v.len(), e),
                |v: Seq<i32>| UniformValue::I32(v),
            ));
            lemma_uniform_run(JID_INT32, v, e, rest, |v: Seq<i32>| UniformValue::I32(v));
        },
        UniformValue::I64(v) => {
            let s = packed(v, e) + rest;
            assert(uniform_elements(JID_INT64, v.len(), s, e) == uniform_read(
                run_decoding::<i64>(s, v.len(), e),
                |v: Seq<i64>| UniformValue::I64(v),
            ));
            lemma_uniform_run(JID_INT64, v, e, rest, |v: Seq<i64>| UniformValue::I64(v));
        },
        UniformValue::F16(v) => {},
        UniformValue::F32(v) => {
            let s = packed(v, e) + rest;
            assert(uniform_elements(JID_REAL32, v.len(), s, e) == uniform_read(
                run_decoding::<Real32>(s, v.len(), e),
                |v: Seq<Real32>| UniformValue::F32(v),
            ));
            lemma_uniform_run(JID_REAL32, v, e, rest, |v: Seq<Real32>| UniformValue::F32(v));
        },
        UniformValue::F64(v) => {
            let s = packed(v, e) + rest;
            assert(uniform_elements(JID_REAL64, v.len(), s, e) == uniform_read(
                run_decoding::<Real64>(s, v.len(), e),
                |v: Seq<Real64>| UniformValue::F64(v),
            ));
            lemma_uniform_run(JID_REAL64, v, e, rest, |v: Seq<Real64>| UniformValue::F64(v));
        },
        UniformValue::Bits(v) => {
            let s = uniform_encoding(u, e) + rest;
            let n = v.len() as u64;
            lemma_length_round_trip(n, e, flags_encoding(v) + rest);
            assert(s.skip(1) =~= length_encoding(n, e) + (flags_encoding(v) + rest));
            lemma_flags_round_trip(v, rest);
            assert((flags_encoding(v) + rest).skip(flags_width(n as int)) =~= rest);
        },
    }
}

/// The trees that are read back as they were written: every length fits
/// in 64 bits, no object has a key twice, and there is no array of
/// halves.
pub open spec fn storable(v: Value) -> bool
    decreases v,
{
    match v {
        Value::Text(t) => encode_utf8(t).len() <= u64::MAX,
        Value::Array(items) => forall|i: int|
            0 <= i < items.len() ==> storable(#[trigger] items[i]),
        Value::Object(entries) => keys_unique(entries) && forall|i: int|
            0 <= i < entries.len() ==> encode_utf8((#[trigger] entries[i]).0).len() <= u64::MAX
                && storable(entries[i].1),
        Value::Uniform(u) => keeps_kind(u) && uniform_len(u) <= u64::MAX,
        _ => true,
    }
}

/// An array is storable where its members are; an object, where its
/// keys differ and its keys and values are storable.
pub proof fn lemma_storable_parts(v: Value)
    ensures
        v is Array ==> (storable(v) <==> forall|k: int|
            0 <= k < v->Array_0.len() ==> storable(#[trigger] v->Array_0[k])),
        v is Object ==> (storable(v) <==> keys_unique(v->Object_0) && forall|k: int|
            0 <= k < v->Object_0.len() ==> encode_utf8((#[trigger] v->Object_0[k]).0).len()
                <= u64::MAX && storable(v->Object_0[k].1)),
{
}

/// A key that no entry has is looked for in vain.
pub proof fn lemma_key_absent(entries: Seq<(Seq<char>, Value)>, key: Seq<char>)
    requires
        forall|i: int| 0 <= i < entries.len() ==> (#[trigger] entries[i]).0 != key,
    ensures
        key_position(entries, key) == entries.len(),
    decreases entries.len(),
{
    if entries.len() > 0 {
        assert(entries[0].0 != key);
        assert forall|i: int| 0 <= i < entries.drop_first().len() implies (
        #[trigger] entries.drop_first()[i]).0 != key by {
            assert(entries.drop_first()[i] == entries[i + 1]);
        }
        lemma_key_absent(entries.drop_first(), key);
    }
}

/// The encoding of a tree starts with the tag of a value: it is not
/// empty, and its first byte neither ends a container nor touches the
/// token table.
pub proof fn lemma_encoding_starts_with_tag(v: Value, e: Endianness)
    ensures
        encoding(v, e).len() >= 1,
        encoding(v, e)[0] != JID_ARRAY_END,
        encoding(v, e)[0] != JID_MAP_END,
        encoding(v, e)[0] != 0x2b,
        encoding(v, e)[0] != 0x2d,
{
}

/// Where the first byte touches no token, a step of the decoder reads
/// what that byte announces.
pub proof fn lemma_item_is_tagged(s: Seq<u8>, tokens: Map<u64, Seq<char>>, e: Endianness)
    requires
        s.len() >= 1,
        s[0] != 0x2b,
        s[0] != 0x2d,
    ensures
        decode_item(s, tokens, e) == decode_tagged(s[0], s.skip(1), tokens, e),
{
}

/// The outcome of a step that read the value `v` and left `rest`.
pub open spec fn read(v: Value, rest: Seq<u8>, tokens: Map<u64, Seq<char>>) -> Result<
    Decoded,
    ParseError,
> {
    Ok(Decoded { item: Item::Element(v), rest, tokens })
}

proof fn lemma_read_null(rest: Seq<u8>, tokens: Map<u64, Seq<char>>, e: Endianness)
    ensures
        decode_tagged(JID_NULL, rest, tokens, e) == read(Value::Null, rest, tokens),
{
    assert(rest.skip(0) =~= rest);
}

proof fn lemma_read_bool(b: bool, rest: Seq<u8>, tokens: Map<u64, Seq<char>>, e: Endianness)
    ensures
        decode_tagged(
            JID_BOOL,
            seq![
                if b {
                    1u8
                } else {
                    0u8
                },
            ] + rest,
            tokens,
            e,
        ) == read(Value::Bool(b), rest, tokens),
{
    let body = seq![
        if b {
            1u8
        } else {
            0u8
        },
    ] + rest;
    assert(body.skip(1) =~= rest);
}

proof fn lemma_read_int(i: i64, rest: Seq<u8>, tokens: Map<u64, Seq<char>>, e: Endianness)
    ensures
        decode_tagged(JID_INT64, i.wire(e) + rest, tokens, e) == read(Value::Int(i), rest, tokens),
{
    let body = i.wire(e) + rest;
    i64::lemma_wire(i, e);
    assert(body.take(8) =~= i.wire(e).take(8));
    i64::lemma_unwire_prefix(body, i.wire(e), e);
    assert(body.skip(8) =~= rest);
}

proof fn lemma_read_real(r: Real64, rest: Seq<u8>, tokens: Map<u64, Seq<char>>, e: Endianness)
    ensures
        decode_tagged(JID_REAL64, r.wire(e) + rest, tokens, e) == read(
            Value::Real(r),
            rest,
            tokens,
        ),
{
    let body = r.wire(e) + rest;
    Real64::lemma_wire(r, e);
    assert(body.take(8) =~= r.wire(e).take(8));
    Real64::lemma_unwire_prefix(body, r.wire(e), e);
    assert(body.skip(8) =~= rest);
}

proof fn lemma_read_text(t: Seq<char>, rest: Seq<u8>, tokens: Map<u64, Seq<char>>, e: Endianness)
    requires
        encode_utf8(t).len() <= u64::MAX,
    ensures
        decode_tagged(JID_STRING, text_encoding(t, e) + rest, tokens, e) == read(
            Value::Text(t),
            rest,
            tokens,
        ),
{
    lemma_text_round_trip(t, e, rest);
}

proof fn lemma_read_uniform(
    u: UniformValue,
    rest: Seq<u8>,
    tokens: Map<u64, Seq<char>>,
    e: Endianness,
)
    requires
        keeps_kind(u),
        uniform_len(u) <= u64::MAX,
    ensures
        decode_tagged(JID_UNIFORM_ARRAY, uniform_encoding(u, e) + rest, tokens, e) == read(
            Value::Uniform(u),
            rest,
            tokens,
        ),
{
    lemma_uniform_round_trip(u, e, rest);
}

proof fn lemma_read_array_end(rest: Seq<u8>, tokens: Map<u64, Seq<char>>, e: Endianness)
    ensures
        decode_item(seq![JID_ARRAY_END] + rest, tokens, e) == Ok::<Decoded, ParseError>(
            Decoded { item: Item::ArrayEnd, rest, tokens },
        ),
{
    let s = seq![JID_ARRAY_END] + rest;
    assert(s.skip(1) =~= rest);
    lemma_item_is_tagged(s, tokens, e);
}

proof fn lemma_read_map_end(rest: Seq<u8>, tokens: Map<u64, Seq<char>>, e: Endianness)
    ensures
        decode_item(seq![JID_MAP_END] + rest, tokens, e) == Ok::<Decoded, ParseError>(
            Decoded { item: Item::MapEnd, rest, tokens },
        ),
{
    let s = seq![JID_MAP_END] + rest;
    assert(s.skip(1) =~= rest);
    lemma_item_is_tagged(s, tokens, e);
}

proof fn lemma_read_key(
    key: Seq<char>,
    rest: Seq<u8>,
    tokens: Map<u64, Seq<char>>,
    e: Endianness,
)
    requires
        encode_utf8(key).len() <= u64::MAX,
    ensures
        decode_item(seq![JID_STRING] + text_encoding(key, e) + rest, tokens, e) == read(
            Value::Text(key),
            rest,
            tokens,
        ),
{
    let s = seq![JID_STRING] + text_encoding(key, e) + rest;
    assert(s.skip(1) =~= text_encoding(key, e) + rest);
    lemma_item_is_tagged(s, tokens, e);
    lemma_read_text(key, rest, tokens, e);
}

proof fn lemma_begin_array(body: Seq<u8>, tokens: Map<u64, Seq<char>>, e: Endianness)
    ensures
        decode_tagged(JID_ARRAY_BEGIN, body, tokens, e) == decode_elements(
            body,
            tokens,
            e,
            Seq::empty(),
        ),
{
}

proof fn lemma_begin_map(body: Seq<u8>, tokens: Map<u64, Seq<char>>, e: Endianness)
    ensures
        decode_tagged(JID_MAP_BEGIN, body, tokens, e) == decode_entries(
            body,
            tokens,
            e,
            Seq::empty(),
        ),
{
}

/// One more member: where a step reads the value `v` and leaves less
/// than it was given, the members that follow are read after `v`.
proof fn lemma_next_element(
    s: Seq<u8>,
    v: Value,
    after: Seq<u8>,
    tokens: Map<u64, Seq<char>>,
    e: Endianness,
    acc: Seq<Value>,
)
    requires
        decode_item(s, tokens, e) == read(v, after, tokens),
        after.len() < s.len(),
    ensures
        decode_elements(s, tokens, e, acc) == decode_elements(after, tokens, e, acc.push(v)),
{
}

/// The last member was read: where a step meets the end of the array,
/// the array is made of the members read so far.
proof fn lemma_last_element(
    s: Seq<u8>,
    rest: Seq<u8>,
    tokens: Map<u64, Seq<char>>,
    e: Endianness,
    acc: Seq<Value>,
)
    requires
        decode_item(s, tokens, e) == Ok::<Decoded, ParseError>(
            Decoded { item: Item::ArrayEnd, rest, tokens },
        ),
    ensures
        decode_elements(s, tokens, e, acc) == read(Value::Array(acc), rest, tokens),
{
}

/// One more entry: where a step reads the string `key`, and the next
/// the value `v`, the entries that follow are read after that entry.
proof fn lemma_next_entry(
    s: Seq<u8>,
    key: Seq<char>,
    middle: Seq<u8>,
    v: Value,
    after: Seq<u8>,
    tokens: Map<u64, Seq<char>>,
    e: Endianness,
    acc: Seq<(Seq<char>, Value)>,
)
    requires
        decode_item(s, tokens, e) == read(Value::Text(key), middle, tokens),
        decode_item(middle, tokens, e) == read(v, after, tokens),
        after.len() < middle.len() < s.len(),
    ensures
        decode_entries(s, tokens, e, acc) == decode_entries(
            after,
            tokens,
            e,
            object_insert(acc, key, v),
        ),
{
}

/// The last entry was read: where a step meets the end of the object,
/// the object is made of the entries read so far.
proof fn lemma_last_entry(
    s: Seq<u8>,
    rest: Seq<u8>,
    tokens: Map<u64, Seq<char>>,
    e: Endianness,
    acc: Seq<(Seq<char>, Value)>,
)
    requires
        decode_item(s, tokens, e) == Ok::<Decoded, ParseError>(
            Decoded { item: Item::MapEnd, rest, tokens },
        ),
    ensures
        decode_entries(s, tokens, e, acc) == read(Value::Object(acc), rest, tokens),
{
}

/// What is read from `tag` and `payload + rest` is read from the two in
/// one piece.
proof fn lemma_tag_then_payload(
    tag: u8,
    payload: Seq<u8>,
    rest: Seq<u8>,
    tokens: Map<u64, Seq<char>>,
    e: Endianness,
)
    requires
        tag != 0x2b,
        tag != 0x2d,
    ensures
        decode_item(seq![tag] + payload + rest, tokens, e) == decode_tagged(
            tag,
            payload + rest,
            tokens,
            e,
        ),
{
    let s = seq![tag] + payload + rest;
    assert(s.skip(1) =~= payload + rest);
    lemma_item_is_tagged(s, tokens, e);
}

proof fn lemma_scalar_round_trip(
    v: Value,
    e: Endianness,
    rest: Seq<u8>,
    tokens: Map<u64, Seq<char>>,
)
    requires
        storable(v),
        !(v is Array),
        !(v is Object),
    ensures
        decode_item(encoding(v, e) + rest, tokens, e) == read(v, rest, tokens),
{
    match v {
        Value::Null => {
            lemma_tag_then_payload(JID_NULL, Seq::empty(), rest, tokens, e);
            assert(encoding(v, e) + rest =~= seq![JID_NULL] + Seq::<u8>::empty() + rest);
            assert(Seq::<u8>::empty() + rest =~= rest);
            lemma_read_null(rest, tokens, e);
        },
        Value::Bool(b) => {
            let payload = seq![
                if b {
                    1u8
                } else {
                    0u8
                },
            ];
            lemma_tag_then_payload(JID_BOOL, payload, rest, tokens, e);
            assert(encoding(v, e) + rest =~= seq![JID_BOOL] + payload + rest);
            lemma_read_bool(b, rest, tokens, e);
        },
        Value::Int(i) => {
            lemma_tag_then_payload(JID_INT64, i.wire(e), rest, tokens, e);
            lemma_read_int(i, rest, tokens, e);
        },
        Value::Real(r) => {
            lemma_tag_then_payload(JID_REAL64, r.wire(e), rest, tokens, e);
            lemma_read_real(r, rest, tokens, e);
        },
        Value::Text(t) => {
            lemma_tag_then_payload(JID_STRING, text_encoding(t, e), rest, tokens, e);
            lemma_read_text(t, rest, tokens, e);
        },
        Value::Uniform(u) => {
            lemma_tag_then_payload(JID_UNIFORM_ARRAY, uniform_encoding(u, e), rest, tokens, e);
            lemma_read_uniform(u, rest, tokens, e);
        },
        _ => {},
    }
}

/// A tree that was written is read back as it was, whatever follows it
/// and whatever the token table holds; the table is left as it was.
pub proof fn lemma_value_round_trip(
    v: Value,
    e: Endianness,
    rest: Seq<u8>,
    tokens: Map<u64, Seq<char>>,
)
    requires
        storable(v),
    ensures
        decode_item(encoding(v, e) + rest, tokens, e) == read(v, rest, tokens),
    decreases v,
{
    match v {
        Value::Array(items) => {
            let payload = elements_encoding(items, e) + seq![JID_ARRAY_END];
            lemma_tag_then_payload(JID_ARRAY_BEGIN, payload, rest, tokens, e);
            assert(encoding(v, e) + rest =~= seq![JID_ARRAY_BEGIN] + payload + rest);
            assert(payload + rest =~= elements_encoding(items, e) + seq![JID_ARRAY_END] + rest);
            lemma_begin_array(payload + rest, tokens, e);
            lemma_elements_round_trip(items, e, rest, tokens, Seq::empty());
            assert(Seq::<Value>::empty() + items =~= items);
        },
        Value::Object(entries) => {
            let payload = entries_encoding(entries, e) + seq![JID_MAP_END];
            lemma_tag_then_payload(JID_MAP_BEGIN, payload, rest, tokens, e);
            assert(encoding(v, e) + rest =~= seq![JID_MAP_BEGIN] + payload + rest);
            assert(payload + rest =~= entries_encoding(entries, e) + seq![JID_MAP_END] + rest);
            lemma_begin_map(payload + rest, tokens, e);
            assert(Seq::<(Seq<char>, Value)>::empty() + entries =~= entries);
            lemma_entries_round_trip(entries, e, rest, tokens, Seq::empty());
        },
        _ => {
            lemma_scalar_round_trip(v, e, rest, tokens);
        },
    }
}

/// The members of an array that were written are read back as they
/// were, after the members `acc` read before them.
pub proof fn lemma_elements_round_trip(
    items: Seq<Value>,
    e: Endianness,
    rest: Seq<u8>,
    tokens: Map<u64, Seq<char>>,
    acc: Seq<Value>,
)
    requires
        forall|i: int| 0 <= i < items.len() ==> storable(#[trigger] items[i]),
    ensures
        decode_elements(
            elements_encoding(items, e) + seq![JID_ARRAY_END] + rest,
            tokens,
            e,
            acc,
        ) == read(Value::Array(acc + items), rest, tokens),
    decreases items,
{
    let s = elements_encoding(items, e) + seq![JID_ARRAY_END] + rest;
    if items.len() == 0 {
        assert(s =~= seq![JID_ARRAY_END] + rest);
        lemma_read_array_end(rest, tokens, e);
        lemma_last_element(s, rest, tokens, e, acc);
        assert(acc + items =~= acc);
    } else {
        let tail = items.drop_first();
        let after = elements_encoding(tail, e) + seq![JID_ARRAY_END] + rest;
        assert(s =~= encoding(items[0], e) + after);
        lemma_encoding_starts_with_tag(items[0], e);
        lemma_value_round_trip(items[0], e, after, tokens);
        lemma_next_element(s, items[0], after, tokens, e, acc);
        assert forall|i: int| 0 <= i < tail.len() implies storable(#[trigger] tail[i]) by {
            assert(tail[i] == items[i + 1]);
        }
        lemma_elements_round_trip(tail, e, rest, tokens, acc.push(items[0]));
        assert(acc.push(items[0]) + tail =~= acc + items);
    }
}

/// The entries of an object that were written are read back as they
/// were, after the entries `acc` read before them.
pub proof fn lemma_entries_round_trip(
    entries: Seq<(Seq<char>, Value)>,
    e: Endianness,
    rest: Seq<u8>,
    tokens: Map<u64, Seq<char>>,
    acc: Seq<(Seq<char>, Value)>,
)
    requires
        keys_unique(acc + entries),
        forall|i: int|
            0 <= i < entries.len() ==> encode_utf8((#[trigger] entries[i]).0).len() <= u64::MAX
                && storable(entries[i].1),
    ensures
        decode_entries(
            entries_encoding(entries, e) + seq![JID_MAP_END] + rest,
            tokens,
            e,
            acc,
        ) == read(Value::Object(acc + entries), rest, tokens),
    decreases entries,
{
    let s = entries_encoding(entries, e) + seq![JID_MAP_END] + rest;
    if entries.len() == 0 {
        assert(s =~= seq![JID_MAP_END] + rest);
        lemma_read_map_end(rest, tokens, e);
        lemma_last_entry(s, rest, tokens, e, acc);
        assert(acc + entries =~= acc);
    } else {
        let key = entries[0].0;
        let value = entries[0].1;
        let tail = entries.drop_first();
        let after = entries_encoding(tail, e) + seq![JID_MAP_END] + rest;
        let middle = encoding(value, e) + after;
        assert(s =~= seq![JID_STRING] + text_encoding(key, e) + middle);
        lemma_read_key(key, middle, tokens, e);
        lemma_encoding_starts_with_tag(value, e);
        lemma_value_round_trip(value, e, after, tokens);
        lemma_next_entry(s, key, middle, value, after, tokens, e, acc);
        let all = acc + entries;
        assert forall|i: int| 0 <= i < acc.len() implies (#[trigger] acc[i]).0 != key by {
            assert(all[i] == acc[i]);
            assert(all[acc.len() as int] == entries[0]);
        }
        lemma_key_absent(acc, key);
        assert(object_insert(acc, key, value) == acc.push(entries[0]));
        assert(acc.push(entries[0]) + tail =~= all);
        assert forall|i: int| 0 <= i < tail.len() implies encode_utf8(
            (#[trigger] tail[i]).0,
        ).len() <= u64::MAX && storable(tail[i].1) by {
            assert(tail[i] == entries[i + 1]);
        }
        lemma_entries_round_trip(tail, e, rest, tokens, acc.push(entries[0]));
    }
}

/// The header of a stream tells its byte order.
proof fn lemma_header(e: Endianness, body: Seq<u8>)
    ensures
        (header(e) + body).len() == 5 + body.len(),
        (header(e) + body)[0] == JID_MAGIC,
        crate::bgeo_format::byte_order((header(e) + body).subrange(1, 5)) == Some(e),
        (header(e) + body).skip(5) == body,
{
    let s = header(e) + body;
    assert(s.skip(5) =~= body);
    match e {
        Endianness::Big => {
            assert(s.subrange(1, 5) =~= seq![0x62u8, 0x4au8, 0x53u8, 0x4eu8]);
        },
        Endianness::Little => {
            assert(s.subrange(1, 5) =~= seq![0x4eu8, 0x53u8, 0x4au8, 0x62u8]);
            let m = s.subrange(1, 5);
            assert(m[0] != 0x62u8);
            assert(!(m =~= seq![0x62u8, 0x4au8, 0x53u8, 0x4eu8]));
        },
    }
}

/// A whole stream that holds a storable tree is decoded to that tree.
pub proof fn theorem_stream_round_trip(v: Value, e: Endianness)
    requires
        storable(v),
    ensures
        stream_decoding(stream_encoding(v, e)) == Ok::<Value, ParseError>(v),
{
    let body = encoding(v, e);
    lemma_header(e, body);
    lemma_value_round_trip(v, e, Seq::empty(), Map::empty());
    assert(body + Seq::<u8>::empty() =~= body);
}

/// Whether what a step of the decoder made, if it made a value, is a
/// tree in which no object has a key twice.
pub open spec fn made_well(r: Result<Decoded, ParseError>) -> bool {
    match r {
        Ok(d) => match d.item {
            Item::Element(v) => well_formed(v),
            _ => true,
        },
        Err(_) => true,
    }
}

/// The decoder makes trees in which no object has a key twice.
pub proof fn lemma_decode_well_formed(s: Seq<u8>, tokens: Map<u64, Seq<char>>, e: Endianness)
    ensures
        made_well(decode_item(s, tokens, e)),
    decreases s.len(), 0nat,
{
    if s.len() >= 1 {
        if s[0] == 0x2b {
            match length_decoding(s.skip(1), e) {
                Ok(id) => match text_decoding(id.rest, e) {
                    Ok(t) => if t.rest.len() < s.len() {
                        lemma_decode_well_formed(t.rest, tokens.insert(id.length, t.text), e);
                    },
                    Err(_) => {},
                },
                Err(_) => {},
            }
        } else if s[0] == 0x2d {
            match length_decoding(s.skip(1), e) {
                Ok(id) => if tokens.contains_key(id.length) && id.rest.len() < s.len() {
                    lemma_decode_well_formed(id.rest, tokens.remove(id.length), e);
                },
                Err(_) => {},
            }
        } else {
            lemma_tagged_well_formed(s[0], s.skip(1), tokens, e);
        }
    }
}

proof fn lemma_tagged_well_formed(tag: u8, s: Seq<u8>, tokens: Map<u64, Seq<char>>, e: Endianness)
    ensures
        made_well(decode_tagged(tag, s, tokens, e)),
    decreases s.len(), 2nat,
{
    if tag == JID_MAP_BEGIN {
        lemma_entries_well_formed(s, tokens, e, Seq::empty());
    } else if tag == JID_ARRAY_BEGIN {
        lemma_elements_well_formed(s, tokens, e, Seq::empty());
    }
}

proof fn lemma_elements_well_formed(
    s: Seq<u8>,
    tokens: Map<u64, Seq<char>>,
    e: Endianness,
    acc: Seq<Value>,
)
    requires
        forall|i: int| 0 <= i < acc.len() ==> well_formed(#[trigger] acc[i]),
    ensures
        made_well(decode_elements(s, tokens, e, acc)),
    decreases s.len(), 1nat,
{
    lemma_decode_well_formed(s, tokens, e);
    match decode_item(s, tokens, e) {
        Ok(d) => match d.item {
            Item::Element(v) => if d.rest.len() < s.len() {
                lemma_elements_well_formed(d.rest, d.tokens, e, acc.push(v));
            },
            _ => {},
        },
        Err(_) => {},
    }
}

proof fn lemma_entries_well_formed(
    s: Seq<u8>,
    tokens: Map<u64, Seq<char>>,
    e: Endianness,
    acc: Seq<(Seq<char>, Value)>,
)
    requires
        keys_unique(acc),
        forall|i: int| 0 <= i < acc.len() ==> well_formed((#[trigger] acc[i]).1),
    ensures
        made_well(decode_entries(s, tokens, e, acc)),
    decreases s.len(), 1nat,
{
    match decode_item(s, tokens, e) {
        Ok(k) => match k.item {
            Item::Element(Value::Text(key)) => if k.rest.len() < s.len() {
                lemma_decode_well_formed(k.rest, k.tokens, e);
                match decode_item(k.rest, k.tokens, e) {
                    Ok(v) => match v.item {
                        Item::Element(value) => if v.rest.len() < k.rest.len() {
                            lemma_insert_keeps_unique(acc, key, value);
                            lemma_entries_well_formed(
                                v.rest,
                                v.tokens,
                                e,
                                object_insert(acc, key, value),
                            );
                        },
                        _ => {},
                    },
                    Err(_) => {},
                }
            },
            _ => {},
        },
        Err(_) => {},
    }
}

/// A stream that decodes holds a tree in which no object has a key
/// twice.
pub proof fn lemma_stream_well_formed(s: Seq<u8>)
    ensures
        stream_decoding(s) is Ok ==> well_formed(stream_decoding(s)->Ok_0),
{
    if s.len() >= 5 {
        match crate::bgeo_format::byte_order(s.subrange(1, 5)) {
            Some(e) => {
                lemma_decode_well_formed(s.skip(5), Map::empty(), e);
            },
            None => {},
        }
    }
}

} // verus!
