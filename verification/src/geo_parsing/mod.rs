//! The two decoders, and the choice between them.

pub mod parsing_ascii;
pub mod parsing_bin;

use vstd::prelude::*;
use crate::bgeo_constants::JID_MAGIC;
use crate::bgeo_format::stream_decoding;
use crate::errors::ParseError;
use crate::geo_format::text_decoding;
use crate::geo_parsing::parsing_ascii::parse_ascii;
use crate::geo_parsing::parsing_bin::parse_binary;
use crate::geo_struct::{well_formed, ReaderElement, Real64, Value};

verus! {

/// The tree that an input holds: that of a binary stream where the first
/// byte is the format marker, else that of a text.
pub open spec fn decoding(s: Seq<u8>, reals: Seq<Option<Real64>>) -> Result<Value, ParseError> {
    if s.len() == 0 {
        Err(ParseError::UnexpectedEnd)
    } else if s[0] == JID_MAGIC {
        stream_decoding(s)
    } else {
        text_decoding(s, reals)
    }
}

/// Decodes an input in either encoding, told apart by the first byte.
/// `reals` is looked at for a text only; see `parse_ascii`.
pub fn parse(input: &[u8], reals: &Vec<Option<Real64>>) -> (r: Result<ReaderElement, ParseError>)
    ensures
        match decoding(input@, reals@) {
            Ok(v) => r is Ok && r->Ok_0@ == v && well_formed(v),
            Err(x) => r is Err && r->Err_0 == x,
        },
{
    if input.len() == 0 {
        return Err(ParseError::UnexpectedEnd);
    }
    if input[0] == JID_MAGIC {
        parse_binary(input)
    } else {
        parse_ascii(input, reals)
    }
}

} // verus!
