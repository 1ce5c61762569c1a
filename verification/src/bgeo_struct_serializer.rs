//! The binary encoder.

use vstd::prelude::*;
use crate::bgeo_constants::{
    JID_ARRAY_BEGIN, JID_ARRAY_END, JID_BOOL, JID_INT16, JID_INT32, JID_INT64, JID_INT8, JID_MAGIC,
    JID_MAP_BEGIN, JID_MAP_END, JID_NULL, JID_REAL32, JID_REAL64, JID_STRING, JID_UINT16,
    JID_UINT8, JID_UNIFORM_ARRAY,
};
use crate::bgeo_format::{
    elements_encoding, encoding, entries_encoding, flag, flags_byte, flags_encoding, flags_width,
    header, length_encoding, packed, run_encoding, stream_encoding, text_encoding,
    uniform_encoding, Endianness, Scalar,
};
use crate::geo_struct::{
    entries_of, lemma_view_array, lemma_view_object, values_of, KeyValueEntry, ReaderElement,
    UniformArrayType, Value,
};
use crate::bgeo_laws::{keeps_kind, lemma_storable_parts, storable, uniform_len};
use crate::geo_struct::keys_unique;
use crate::scalars::{write_word2, write_word4, write_word8};
use vstd::utf8::encode_utf8;

verus! {

/// Appends a whole little-endian stream that holds `element`: the header,
/// then the tree.
pub fn to_bjson(element: &ReaderElement, output: &mut Vec<u8>)
    ensures
        final(output)@ == old(output)@ + stream_encoding(element@, Endianness::Little),
{
    to_bjson_ordered(element, Endianness::Little, output);
}

/// Appends a whole stream in the byte order `e` that holds `element`.
pub fn to_bjson_ordered(element: &ReaderElement, e: Endianness, output: &mut Vec<u8>)
    ensures
        final(output)@ == old(output)@ + stream_encoding(element@, e),
{
    output.push(JID_MAGIC);
    match e {
        Endianness::Big => {
            output.push(0x62);
            output.push(0x4a);
            output.push(0x53);
            output.push(0x4e);
        },
        Endianness::Little => {
            output.push(0x4e);
            output.push(0x53);
            output.push(0x4a);
            output.push(0x62);
        },
    }
    assert(output@ =~= old(output)@ + header(e));
    write_element(output, element, e);
    assert(output@ =~= old(output)@ + stream_encoding(element@, e));
}

/// Appends a length in the least width that holds it.
pub fn write_length(output: &mut Vec<u8>, len: usize, e: Endianness)
    ensures
        final(output)@ == old(output)@ + length_encoding(len as u64, e),
{
    let n: u64 = len as u64;
    if n < 0xf1 {
        output.push(n as u8);
    } else if n <= 0xffff {
        output.push(0xf2);
        write_word2(output, n as u16, e);
    } else if n <= 0xffff_ffff {
        output.push(0xf4);
        write_word4(output, n as u32, e);
    } else {
        output.push(0xf8);
        write_word8(output, n, e);
    }
    assert(output@ =~= old(output)@ + length_encoding(len as u64, e));
}

/// Appends a string: the length of its UTF-8 bytes, then the bytes.
pub fn write_string(output: &mut Vec<u8>, string: &String, e: Endianness)
    ensures
        final(output)@ == old(output)@ + text_encoding(string@, e),
{
    let bytes = string.as_str().as_bytes();
    write_length(output, bytes.len(), e);
    output.extend_from_slice(bytes);
    assert(output@ =~= old(output)@ + text_encoding(string@, e));
}

/// Appends a run of scalars: their number, then each of them.
pub fn write_uniform_array<T: Scalar>(output: &mut Vec<u8>, array: &Vec<T>, e: Endianness)
    ensures
        final(output)@ == old(output)@ + run_encoding(array@, e),
{
    write_length(output, array.len(), e);
    let ghost base = output@;
    let mut i: usize = 0;
    while i < array.len()
        invariant
            i <= array.len(),
            output@ == base + packed(array@.take(i as int), e),
        decreases array.len() - i,
    {
        array[i].write(output, e);
        proof {
            assert(array@.take(i + 1).drop_last() =~= array@.take(i as int));
            assert(output@ =~= base + packed(array@.take(i + 1), e));
        }
        i = i + 1;
    }
    proof {
        assert(array@.take(array.len() as int) =~= array@);
        assert(output@ =~= old(output)@ + run_encoding(array@, e));
    }
}

/// Appends flags packed into 32-bit little-endian words, the last word
/// filled up with zero bits.
pub fn write_flags(output: &mut Vec<u8>, flags: &Vec<bool>)
    ensures
        final(output)@ == old(output)@ + flags_encoding(flags@),
{
    let n: usize = flags.len();
    let ghost base = output@;
    let words: usize = if n % 32 == 0 {
        n / 32
    } else {
        n / 32 + 1
    };
    let width: usize = words * 4;
    let mut k: usize = 0;
    while k < width
        invariant
            n == flags.len(),
            k <= width,
            width == flags_width(n as int),
            output@.len() == base.len() + k,
            forall|j: int| 0 <= j < base.len() ==> output@[j] == base[j],
            forall|j: int| 0 <= j < k ==> output@[base.len() + j] == flags_byte(flags@, j),
        decreases flags_width(n as int) - k,
    {
        let mut byte: u8 = 0;
        let mut weight: u8 = 1;
        let mut b: usize = 0;
        while b < 8
            invariant
                n == flags.len(),
                b <= 8,
                weight as int == (if b == 0 { 1int } else if b == 1 { 2int } else if b == 2 { 4int } else if b == 3 { 8int } else if b == 4 { 16int } else if b == 5 { 32int } else if b == 6 { 64int } else { 128int }),
                byte as int == (if b > 0 { flag(flags@, 8 * k) } else { 0int }) + (if b > 1 { 2 * flag(flags@, 8 * k + 1) } else { 0int }) + (if b > 2 { 4 * flag(flags@, 8 * k + 2) } else { 0int }) + (if b > 3 { 8 * flag(flags@, 8 * k + 3) } else { 0int }) + (if b > 4 { 16 * flag(flags@, 8 * k + 4) } else { 0int }) + (if b > 5 { 32 * flag(flags@, 8 * k + 5) } else { 0int }) + (if b > 6 { 64 * flag(flags@, 8 * k + 6) } else { 0int }) + (if b > 7 { 128 * flag(flags@, 8 * k + 7) } else { 0int }),
            decreases 8 - b,
        {
            let j: u128 = 8 * (k as u128) + b as u128;
            if j < n as u128 && flags[j as usize] {
                byte = byte + weight;
            }
            if b < 7 {
                weight = weight * 2;
            }
            b = b + 1;
        }
        output.push(byte);
        k = k + 1;
    }
    assert(output@ =~= old(output)@ + flags_encoding(flags@));
}

/// The encoding of members is the encoding of all but the last, then
/// that of the last.
pub proof fn lemma_elements_encoding_push(items: Seq<Value>, last: Value, e: Endianness)
    ensures
        elements_encoding(items.push(last), e) == elements_encoding(items, e) + encoding(last, e),
    decreases items.len(),
{
    let all = items.push(last);
    if items.len() == 0 {
        assert(all.drop_first() =~= Seq::<Value>::empty());
        assert(elements_encoding(all.drop_first(), e) =~= Seq::<u8>::empty());
        assert(elements_encoding(items, e) =~= Seq::<u8>::empty());
        assert(elements_encoding(all, e) =~= elements_encoding(items, e) + encoding(last, e));
    } else {
        lemma_elements_encoding_push(items.drop_first(), last, e);
        assert(all.drop_first() =~= items.drop_first().push(last));
        assert(all[0] == items[0]);
        assert(elements_encoding(all, e) =~= elements_encoding(items, e) + encoding(last, e));
    }
}

/// The encoding of entries is the encoding of all but the last, then
/// that of the last.
pub proof fn lemma_entries_encoding_push(
    entries: Seq<(Seq<char>, Value)>,
    last: (Seq<char>, Value),
    e: Endianness,
)
    ensures
        entries_encoding(entries.push(last), e) == entries_encoding(entries, e) + (seq![JID_STRING]
            + text_encoding(last.0, e) + encoding(last.1, e)),
    decreases entries.len(),
{
    let all = entries.push(last);
    if entries.len() == 0 {
        assert(all.drop_first() =~= Seq::<(Seq<char>, Value)>::empty());
        assert(entries_encoding(all.drop_first(), e) =~= Seq::<u8>::empty());
        assert(entries_encoding(entries, e) =~= Seq::<u8>::empty());
        assert(entries_encoding(all, e) =~= entries_encoding(entries, e) + (seq![JID_STRING]
            + text_encoding(last.0, e) + encoding(last.1, e)));
    } else {
        lemma_entries_encoding_push(entries.drop_first(), last, e);
        assert(all.drop_first() =~= entries.drop_first().push(last));
        assert(all[0] == entries[0]);
        assert(entries_encoding(all, e) =~= entries_encoding(entries, e) + (seq![JID_STRING]
            + text_encoding(last.0, e) + encoding(last.1, e)));
    }
}

/// Appends a uniform array after its tag was written.
fn write_uniform(output: &mut Vec<u8>, uarr: &UniformArrayType, e: Endianness)
    ensures
        final(output)@ == old(output)@ + uniform_encoding(uarr@, e),
{
    match uarr {
        UniformArrayType::UniformArrayTu8(vec) => {
            output.push(JID_UINT8);
            write_uniform_array(output, vec, e);
        },
        UniformArrayType::UniformArrayTu16(vec) => {
            output.push(JID_UINT16);
            write_uniform_array(output, vec, e);
        },
        UniformArrayType::UniformArrayTi8(vec) => {
            output.push(JID_INT8);
            write_uniform_array(output, vec, e);
        },
        UniformArrayType::UniformArrayTi16(vec) => {
            output.push(JID_INT16);
            write_uniform_array(output, vec, e);
        },
        UniformArrayType::UniformArrayTi32(vec) => {
            output.push(JID_INT32);
            write_uniform_array(output, vec, e);
        },
        UniformArrayType::UniformArrayTi64(vec) => {
            output.push(JID_INT64);
            write_uniform_array(output, vec, e);
        },
        UniformArrayType::UniformArrayTf16(vec) => {
            output.push(JID_REAL32);
            write_uniform_array(output, vec, e);
        },
        UniformArrayType::UniformArrayTf32(vec) => {
            output.push(JID_REAL32);
            write_uniform_array(output, vec, e);
        },
        UniformArrayType::UniformArrayTf64(vec) => {
            output.push(JID_REAL64);
            write_uniform_array(output, vec, e);
        },
        UniformArrayType::UniformArrayTbool(vec) => {
            output.push(JID_BOOL);
            write_length(output, vec.len(), e);
            write_flags(output, vec);
        },
    }
    assert(output@ =~= old(output)@ + uniform_encoding(uarr@, e));
}

/// Appends the encoding of a tree.
pub fn write_element(output: &mut Vec<u8>, elem: &ReaderElement, e: Endianness)
    ensures
        final(output)@ == old(output)@ + encoding(elem@, e),
    decreases elem,
{
    match elem {
        ReaderElement::Array(arr) => {
            output.push(JID_ARRAY_BEGIN);
            let ghost base = output@;
            let mut i: usize = 0;
            while i < arr.len()
                invariant
                    i <= arr.len(),
                    elem is Array,
                    elem->Array_0 == *arr,
                    output@ == base + elements_encoding(values_of(arr@).take(i as int), e),
                decreases arr.len() - i,
            {
                assert(decreases_to!(elem => elem->Array_0[i as int]));
                write_element(output, &arr[i], e);
                proof {
                    lemma_elements_encoding_push(values_of(arr@).take(i as int), arr@[i as int]@, e);
                    assert(values_of(arr@).take(i + 1) =~= values_of(arr@).take(i as int).push(
                        arr@[i as int]@,
                    ));
                    assert(output@ =~= base + elements_encoding(values_of(arr@).take(i + 1), e));
                }
                i = i + 1;
            }
            output.push(JID_ARRAY_END);
            proof {
                lemma_view_array(*arr);
                assert(values_of(arr@).take(arr.len() as int) =~= values_of(arr@));
                assert(output@ =~= old(output)@ + encoding(elem@, e));
            }
        },
        ReaderElement::KeyValueObject(kvo) => {
            output.push(JID_MAP_BEGIN);
            let ghost base = output@;
            let mut i: usize = 0;
            while i < kvo.len()
                invariant
                    i <= kvo.len(),
                    elem is KeyValueObject,
                    elem->KeyValueObject_0 == *kvo,
                    output@ == base + entries_encoding(entries_of(kvo@).take(i as int), e),
                decreases kvo.len() - i,
            {
                let ghost before = output@;
                output.push(JID_STRING);
                write_string(output, &kvo[i].key, e);
                assert(decreases_to!(elem => elem->KeyValueObject_0[i as int].value));
                write_element(output, &kvo[i].value, e);
                proof {
                    let entry = (kvo@[i as int].key@, kvo@[i as int].value@);
                    lemma_entries_encoding_push(entries_of(kvo@).take(i as int), entry, e);
                    assert(entries_of(kvo@).take(i + 1) =~= entries_of(kvo@).take(i as int).push(
                        entry,
                    ));
                    assert(output@ =~= before + (seq![JID_STRING] + text_encoding(entry.0, e)
                        + encoding(entry.1, e)));
                    assert(output@ =~= base + entries_encoding(entries_of(kvo@).take(i + 1), e));
                }
                i = i + 1;
            }
            output.push(JID_MAP_END);
            proof {
                lemma_view_object(*kvo);
                assert(entries_of(kvo@).take(kvo.len() as int) =~= entries_of(kvo@));
                assert(output@ =~= old(output)@ + encoding(elem@, e));
            }
        },
        ReaderElement::UniformArray(uarr) => {
            output.push(JID_UNIFORM_ARRAY);
            write_uniform(output, uarr, e);
            assert(output@ =~= old(output)@ + encoding(elem@, e));
        },
        ReaderElement::Int(i) => {
            output.push(JID_INT64);
            (*i).write(output, e);
            assert(output@ =~= old(output)@ + encoding(elem@, e));
        },
        ReaderElement::Float(f) => {
            output.push(JID_REAL64);
            (*f).write(output, e);
            assert(output@ =~= old(output)@ + encoding(elem@, e));
        },
        ReaderElement::Text(t) => {
            output.push(JID_STRING);
            write_string(output, t, e);
            assert(output@ =~= old(output)@ + encoding(elem@, e));
        },
        ReaderElement::Bool(b) => {
            output.push(JID_BOOL);
            output.push(if *b { 1 } else { 0 });
            assert(output@ =~= old(output)@ + encoding(elem@, e));
        },
        ReaderElement::Null => {
            output.push(JID_NULL);
            assert(output@ =~= old(output)@ + encoding(elem@, e));
        },
    }
}

/// Whether no two entries have the same key.
fn has_unique_keys(entries: &Vec<KeyValueEntry>) -> (r: bool)
    ensures
        r == keys_unique(entries_of(entries@)),
{
    let ghost all = entries_of(entries@);
    let mut j: usize = 0;
    while j < entries.len()
        invariant
            j <= entries@.len(),
            all == entries_of(entries@),
            forall|a: int, b: int| 0 <= a < b < j ==> (#[trigger] all[a]).0 != (#[trigger] all[b]).0,
        decreases entries.len() - j,
    {
        let mut i: usize = 0;
        while i < j
            invariant
                i <= j < entries@.len(),
                all == entries_of(entries@),
                forall|a: int| 0 <= a < i ==> (#[trigger] all[a]).0 != all[j as int].0,
            decreases j - i,
        {
            if entries[i].key == entries[j].key {
                assert(all[i as int].0 == all[j as int].0);
                return false;
            }
            i = i + 1;
        }
        j = j + 1;
    }
    true
}

/// Whether a tree is one of those that are read back as they were
/// written: no object has a key twice, and there is no array of halves.
pub fn is_storable(elem: &ReaderElement) -> (r: bool)
    ensures
        r == storable(elem@),
    decreases elem,
{
    match elem {
        ReaderElement::Text(t) => {
            // every length is a machine word, which 64 bits hold
            let n: usize = t.as_str().as_bytes().len();
            true
        },
        ReaderElement::Array(arr) => {
            proof {
                lemma_view_array(*arr);
            }
            let mut i: usize = 0;
            while i < arr.len()
                invariant
                    i <= arr@.len(),
                    elem is Array,
                    elem->Array_0 == *arr,
                    elem@ == Value::Array(values_of(arr@)),
                    forall|k: int| 0 <= k < i ==> storable(#[trigger] values_of(arr@)[k]),
                decreases arr.len() - i,
            {
                if !is_storable(&arr[i]) {
                    proof {
                        lemma_storable_parts(elem@);
                        assert(!storable(values_of(arr@)[i as int]));
                    }
                    return false;
                }
                i = i + 1;
            }
            proof {
                lemma_storable_parts(elem@);
            }
            true
        },
        ReaderElement::KeyValueObject(kvo) => {
            proof {
                lemma_view_object(*kvo);
                lemma_storable_parts(elem@);
            }
            if !has_unique_keys(kvo) {
                return false;
            }
            let mut i: usize = 0;
            while i < kvo.len()
                invariant
                    i <= kvo@.len(),
                    elem is KeyValueObject,
                    elem->KeyValueObject_0 == *kvo,
                    elem@ == Value::Object(entries_of(kvo@)),
                    keys_unique(entries_of(kvo@)),
                    forall|k: int|
                        0 <= k < i ==> encode_utf8((#[trigger] entries_of(kvo@)[k]).0).len()
                            <= u64::MAX && storable(entries_of(kvo@)[k].1),
                decreases kvo.len() - i,
            {
                let n: usize = kvo[i].key.as_str().as_bytes().len();
                if !is_storable(&kvo[i].value) {
                    proof {
                        lemma_storable_parts(elem@);
                        assert(!storable(entries_of(kvo@)[i as int].1));
                    }
                    return false;
                }
                i = i + 1;
            }
            true
        },
        ReaderElement::UniformArray(uarr) => match uarr {
            UniformArrayType::UniformArrayTf16(_) => false,
            UniformArrayType::UniformArrayTu8(v) => {
                let n: usize = v.len();
                true
            },
            UniformArrayType::UniformArrayTu16(v) => {
                let n: usize = v.len();
                true
            },
            UniformArrayType::UniformArrayTi8(v) => {
                let n: usize = v.len();
                true
            },
            UniformArrayType::UniformArrayTi16(v) => {
                let n: usize = v.len();
                true
            },
            UniformArrayType::UniformArrayTi32(v) => {
                let n: usize = v.len();
                true
            },
            UniformArrayType::UniformArrayTi64(v) => {
                let n: usize = v.len();
                true
            },
            UniformArrayType::UniformArrayTf32(v) => {
                let n: usize = v.len();
                true
            },
            UniformArrayType::UniformArrayTf64(v) => {
                let n: usize = v.len();
                true
            },
            UniformArrayType::UniformArrayTbool(v) => {
                let n: usize = v.len();
                true
            },
        },
        _ => true,
    }
}

} // verus!
