use geoconverter::bgeo_format::Endianness;
use geoconverter::bgeo_struct_serializer::{to_bjson, write_length};
use geoconverter::parse_binary;
use geoconverter::{ParseError, ReaderElement, UniformArrayType};

fn encoded(len: usize, e: Endianness) -> Vec<u8> {
    let mut out = Vec::new();
    write_length(&mut out, len, e);
    out
}

/// A stream that holds a uniform array of `len` bytes under the given
/// length bytes, to read a length back through the decoder.
fn read_back(length_bytes: &[u8], body: usize, big: bool) -> Result<usize, ParseError> {
    let mut stream = vec![0x7fu8];
    if big {
        stream.extend_from_slice(&[0x62, 0x4a, 0x53, 0x4e]);
    } else {
        stream.extend_from_slice(&[0x4e, 0x53, 0x4a, 0x62]);
    }
    stream.push(0x40);
    stream.push(0x21);
    stream.extend_from_slice(length_bytes);
    stream.extend(std::iter::repeat(7u8).take(body));
    match parse_binary(&stream)? {
        ReaderElement::UniformArray(UniformArrayType::UniformArrayTu8(v)) => Ok(v.len()),
        other => panic!("unexpected {:?}", other),
    }
}

#[test]
fn length_is_written_in_the_least_width() {
    assert_eq!(encoded(0, Endianness::Little), vec![0u8]);
    assert_eq!(encoded(1, Endianness::Little), vec![1u8]);
    assert_eq!(encoded(240, Endianness::Little), vec![240u8]);
    assert_eq!(encoded(241, Endianness::Little), vec![0xf2u8, 241, 0]);
    assert_eq!(encoded(65535, Endianness::Little), vec![0xf2u8, 0xff, 0xff]);
    assert_eq!(encoded(65536, Endianness::Little), vec![0xf4u8, 0, 0, 1, 0]);
    assert_eq!(encoded(4294967295, Endianness::Little), vec![0xf4u8, 0xff, 0xff, 0xff, 0xff]);
    assert_eq!(
        encoded(4294967296, Endianness::Little),
        vec![0xf8u8, 0, 0, 0, 0, 1, 0, 0, 0]
    );
}

#[test]
fn length_is_written_in_the_byte_order_of_the_stream() {
    assert_eq!(encoded(241, Endianness::Big), vec![0xf2u8, 0, 241]);
    assert_eq!(encoded(65536, Endianness::Big), vec![0xf4u8, 0, 1, 0, 0]);
    assert_eq!(
        encoded(4294967296, Endianness::Big),
        vec![0xf8u8, 0, 0, 0, 1, 0, 0, 0, 0]
    );
}

#[test]
fn length_round_trips() {
    for &len in &[0usize, 1, 240, 241, 65535, 65536] {
        assert_eq!(read_back(&encoded(len, Endianness::Little), len, false), Ok(len));
        assert_eq!(read_back(&encoded(len, Endianness::Big), len, true), Ok(len));
    }
}

#[test]
fn length_of_four_and_eight_bytes_is_read() {
    assert_eq!(read_back(&[0xf4, 3, 0, 0, 0], 3, false), Ok(3));
    assert_eq!(read_back(&[0xf8, 0, 0, 0, 0, 0, 0, 0, 2], 2, true), Ok(2));
    assert_eq!(
        read_back(&encoded(4294967295, Endianness::Little), 0, false),
        Err(ParseError::UnexpectedEnd)
    );
    assert_eq!(
        read_back(&encoded(4294967296, Endianness::Little), 0, false),
        Err(ParseError::UnexpectedEnd)
    );
}

#[test]
fn length_marker_must_announce_a_width() {
    for marker in [0xf1u8, 0xf3, 0xf5, 0xf6, 0xf7, 0xf9, 0xff] {
        assert_eq!(read_back(&[marker, 0, 0], 0, false), Err(ParseError::BadLengthMarker));
    }
}

#[test]
fn length_cut_short_is_an_error() {
    assert_eq!(read_back(&[0xf2, 1], 0, false), Err(ParseError::UnexpectedEnd));
    assert_eq!(read_back(&[0xf4, 1, 0, 0], 0, false), Err(ParseError::UnexpectedEnd));
    assert_eq!(read_back(&[], 0, false), Err(ParseError::UnexpectedEnd));
}

#[test]
fn stream_starts_with_marker_and_magic() {
    let mut out = Vec::new();
    to_bjson(&ReaderElement::Null, &mut out);
    assert_eq!(out, vec![0x7fu8, 0x4e, 0x53, 0x4a, 0x62, 0x00]);
}
