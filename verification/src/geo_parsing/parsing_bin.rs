//! The binary decoder.

use std::collections::HashMap;
use vstd::prelude::*;
use vstd::slice::{slice_subrange, slice_to_vec};
use vstd::utf8::{decode_utf8, valid_utf8};
use crate::bgeo_constants::{
    JID_ARRAY_BEGIN, JID_ARRAY_END, JID_BOOL, JID_FALSE, JID_INT16, JID_INT32, JID_INT64, JID_INT8,
    JID_MAGIC, JID_MAP_BEGIN, JID_MAP_END, JID_NULL, JID_REAL16, JID_REAL32, JID_REAL64,
    JID_STRING, JID_TOKENDEF, JID_TOKENREF, JID_TOKENUNDEF, JID_TRUE, JID_UINT16, JID_UINT8,
    JID_UNIFORM_ARRAY,
};
use crate::bgeo_format::{
    bit_of, blocks, byte_order, decode_elements, decode_entries, decode_item, decode_tagged,
    flags_decoding, flags_width, half_at, halves, length_decoding, run_decoding, scalar,
    stream_decoding, text_decoding, uniform_decoding, uniform_elements, uniform_read, widened,
    Decoded, Endianness, Item, Scalar,
};
use crate::bgeo_laws::lemma_stream_well_formed;
use crate::errors::ParseError;
use crate::f16_half::half_from_word;
use crate::geo_struct::{
    entries_of, insert_entry, lemma_view_array, lemma_view_object, values_of, well_formed,
    KeyValueEntry, ReaderElement, Real32, Real64, UniformArrayType, Value,
};
use crate::ieee::widen;
use crate::scalars::{read_word2, read_word4, read_word8};

verus! {

broadcast use vstd::std_specs::hash::group_hash_axioms;

/// What one step of the decoder hands back: a value, or the news that the
/// container being read has ended.
#[derive(Debug)]
pub enum ReaderElementOption {
    Element(ReaderElement),
    ArrayEndToken,
    MapEndToken,
}

impl View for ReaderElementOption {
    type V = Item;

    open spec fn view(&self) -> Item {
        match self {
            ReaderElementOption::Element(x) => Item::Element(x@),
            ReaderElementOption::ArrayEndToken => Item::ArrayEnd,
            ReaderElementOption::MapEndToken => Item::MapEnd,
        }
    }
}

/// `String::from_utf8`: the string whose UTF-8 encoding the bytes are,
/// if they are the encoding of one, and nothing else.
#[verifier::external_body]
fn string_from_utf8(bytes: Vec<u8>) -> (r: Option<String>)
    ensures
        r is Some <==> valid_utf8(bytes@),
        r is Some ==> r->0@ == decode_utf8(bytes@),
{
    String::from_utf8(bytes).ok()
}

/// Bit `k` of a byte.
fn bit(byte: u8, k: u8) -> (r: bool)
    requires
        k < 8,
    ensures
        r == bit_of(byte, k as int),
{
    if k == 0 {
        byte % 2 == 1
    } else if k == 1 {
        byte / 2 % 2 == 1
    } else if k == 2 {
        byte / 4 % 2 == 1
    } else if k == 3 {
        byte / 8 % 2 == 1
    } else if k == 4 {
        byte / 16 % 2 == 1
    } else if k == 5 {
        byte / 32 % 2 == 1
    } else if k == 6 {
        byte / 64 % 2 == 1
    } else {
        byte / 128 % 2 == 1
    }
}

/// A decoder at work on one stream: the input, how far it was read, the
/// byte order fixed at the start, and the tokens defined so far.
pub struct BgeoParser<'a> {
    input: &'a [u8],
    pos: usize,
    tokens: HashMap<u64, String>,
    order: Endianness,
}

impl<'a> BgeoParser<'a> {
    /// The bytes not yet read.
    pub closed spec fn remaining(&self) -> Seq<u8> {
        self.input@.skip(self.pos as int)
    }

    /// The tokens defined and not undefined so far.
    pub closed spec fn table(&self) -> Map<u64, Seq<char>> {
        self.tokens@.map_values(|s: String| s@)
    }

    /// The byte order of the stream.
    pub closed spec fn order(&self) -> Endianness {
        self.order
    }

    /// The read position lies within the input.
    pub closed spec fn wf(&self) -> bool {
        self.pos <= self.input@.len() <= usize::MAX
    }

    /// The same stream at a later moment: nothing changed but the read
    /// position and the token table.
    pub closed spec fn continues(&self, before: &Self) -> bool {
        &&& self.input@ == before.input@
        &&& self.order == before.order
        &&& self.pos >= before.pos
        &&& self.wf()
    }

    /// A decoder of big-endian primitives at the start of `input`.
    pub fn new_be(input: &'a [u8]) -> (r: Self)
        ensures
            r.wf(),
            r.remaining() == input@,
            r.table() == Map::<u64, Seq<char>>::empty(),
            r.order() == Endianness::Big,
    {
        // a slice is no longer than a machine word counts
        let total: usize = input.len();
        let r = BgeoParser { input, pos: 0, tokens: HashMap::new(), order: Endianness::Big };
        assert(r.remaining() =~= input@);
        assert(r.table() =~= Map::<u64, Seq<char>>::empty());
        r
    }

    /// A decoder of little-endian primitives at the start of `input`.
    pub fn new_le(input: &'a [u8]) -> (r: Self)
        ensures
            r.wf(),
            r.remaining() == input@,
            r.table() == Map::<u64, Seq<char>>::empty(),
            r.order() == Endianness::Little,
    {
        // a slice is no longer than a machine word counts
        let total: usize = input.len();
        let r = BgeoParser { input, pos: 0, tokens: HashMap::new(), order: Endianness::Little };
        assert(r.remaining() =~= input@);
        assert(r.table() =~= Map::<u64, Seq<char>>::empty());
        r
    }

    /// The number of bytes not yet read.
    fn available(&self) -> (n: usize)
        requires
            self.wf(),
        ensures
            n == self.remaining().len(),
    {
        self.input.len() - self.pos
    }

    /// Passes over `n` bytes.
    fn advance(&mut self, n: usize)
        requires
            old(self).wf(),
            n <= old(self).remaining().len(),
        ensures
            final(self).continues(old(self)),
            final(self).table() == old(self).table(),
            final(self).remaining() == old(self).remaining().skip(n as int),
    {
        self.pos = self.pos + n;
        assert(self.remaining() =~= old(self).remaining().skip(n as int));
    }

    /// Reads a length.
    fn parse_read_length(&mut self) -> (r: Result<u64, ParseError>)
        requires
            old(self).wf(),
        ensures
            final(self).continues(old(self)),
            final(self).table() == old(self).table(),
            match length_decoding(old(self).remaining(), old(self).order()) {
                Ok(l) => r is Ok && r->Ok_0 == l.length && final(self).remaining() == l.rest,
                Err(x) => r is Err && r->Err_0 == x,
            },
    {
        let ghost s = self.remaining();
        if self.available() < 1 {
            return Err(ParseError::UnexpectedEnd);
        }
        let marker: u8 = self.input[self.pos];
        assert(marker == s[0]);
        if marker < 0xf1 {
            self.advance(1);
            Ok(marker as u64)
        } else if marker == 0xf2 {
            if self.available() < 3 {
                return Err(ParseError::UnexpectedEnd);
            }
            let v: u16 = read_word2(self.input, self.pos + 1, self.order);
            assert(self.input@.skip(self.pos + 1) =~= s.skip(1));
            self.advance(3);
            Ok(v as u64)
        } else if marker == 0xf4 {
            if self.available() < 5 {
                return Err(ParseError::UnexpectedEnd);
            }
            let v: u32 = read_word4(self.input, self.pos + 1, self.order);
            assert(self.input@.skip(self.pos + 1) =~= s.skip(1));
            self.advance(5);
            Ok(v as u64)
        } else if marker == 0xf8 {
            if self.available() < 9 {
                return Err(ParseError::UnexpectedEnd);
            }
            let v: u64 = read_word8(self.input, self.pos + 1, self.order);
            assert(self.input@.skip(self.pos + 1) =~= s.skip(1));
            self.advance(9);
            Ok(v)
        } else {
            Err(ParseError::BadLengthMarker)
        }
    }

    /// Reads a string: its length, then its UTF-8 bytes.
    fn parse_string(&mut self) -> (r: Result<String, ParseError>)
        requires
            old(self).wf(),
        ensures
            final(self).continues(old(self)),
            final(self).table() == old(self).table(),
            match text_decoding(old(self).remaining(), old(self).order()) {
                Ok(t) => r is Ok && r->Ok_0@ == t.text && final(self).remaining() == t.rest,
                Err(x) => r is Err && r->Err_0 == x,
            },
    {
        let len: u64 = match self.parse_read_length() {
            Ok(len) => len,
            Err(x) => {
                return Err(x);
            },
        };
        let ghost s = self.remaining();
        if (self.available() as u64) < len {
            return Err(ParseError::UnexpectedEnd);
        }
        let n: usize = len as usize;
        let bytes: Vec<u8> = slice_to_vec(slice_subrange(self.input, self.pos, self.pos + n));
        assert(bytes@ =~= s.take(n as int));
        match string_from_utf8(bytes) {
            Some(text) => {
                self.advance(n);
                Ok(text)
            },
            None => Err(ParseError::MalformedUtf8),
        }
    }

    /// Reads `n` scalars of one type.
    fn parse_uniform_array<T: Scalar>(&mut self, n: u64) -> (r: Result<Vec<T>, ParseError>)
        requires
            old(self).wf(),
        ensures
            final(self).continues(old(self)),
            final(self).table() == old(self).table(),
            match run_decoding::<T>(old(self).remaining(), n as nat, old(self).order()) {
                Ok(run) => r is Ok && r->Ok_0@ == run.0 && final(self).remaining() == run.1,
                Err(x) => r is Err && r->Err_0 == x,
            },
    {
        let ghost s = self.remaining();
        let w: usize = T::size();
        proof {
            if n > 0 {
                T::lemma_wire(T::unwire(s, self.order), self.order);
            }
        }
        if n == 0 {
            assert(blocks::<T>(s, 0, self.order) =~= Seq::<T>::empty());
            assert(s.skip(T::width() * 0) =~= s);
            return Ok(Vec::new());
        }
        let avail: usize = self.available();
        if ((avail / w) as u64) < n {
            assert(avail < w * n) by (nonlinear_arith)
                requires
                    (avail / w) < n,
                    w > 0,
            ;
            return Err(ParseError::UnexpectedEnd);
        }
        assert(w * n <= avail) by (nonlinear_arith)
            requires
                (avail / w) >= n,
                w > 0,
                n >= 0,
        ;
        let count: usize = n as usize;
        let mut out: Vec<T> = Vec::new();
        let mut i: usize = 0;
        while i < count
            invariant
                i <= count,
                count == n,
                w == T::width(),
                1 <= w <= 8,
                w * n <= avail,
                avail == s.len(),
                self.wf(),
                self == old(self),
                s == self.remaining(),
                out@ == blocks::<T>(s, i as nat, self.order),
            decreases count - i,
        {
            assert(w * i + w <= w * n) by (nonlinear_arith)
                requires
                    i < n,
                    w >= 0,
            ;
            let x: T = T::read(self.input, self.pos + i * w, self.order);
            proof {
                assert(self.input@.skip(self.pos + i * w) =~= s.skip(i * T::width()));
            }
            out.push(x);
            assert(out@ =~= blocks::<T>(s, (i + 1) as nat, self.order));
            i = i + 1;
        }
        assert(w * count == T::width() * (n as nat)) by (nonlinear_arith)
            requires
                w == T::width(),
                count == n,
        ;
        self.advance(w * count);
        Ok(out)
    }

    /// Reads `n` halves, each widened to binary32.
    fn parse_halves(&mut self, n: u64) -> (r: Result<Vec<Real32>, ParseError>)
        requires
            old(self).wf(),
        ensures
            final(self).continues(old(self)),
            final(self).table() == old(self).table(),
            old(self).remaining().len() < 2 * n ==> r is Err && r->Err_0
                == ParseError::UnexpectedEnd,
            old(self).remaining().len() >= 2 * n ==> r is Ok && r->Ok_0@ == halves(
                old(self).remaining(),
                n as nat,
                old(self).order(),
            ) && final(self).remaining() == old(self).remaining().skip(2 * n),
    {
        let ghost s = self.remaining();
        let avail: usize = self.available();
        if ((avail / 2) as u64) < n {
            return Err(ParseError::UnexpectedEnd);
        }
        let count: usize = n as usize;
        let mut out: Vec<Real32> = Vec::new();
        let mut i: usize = 0;
        while i < count
            invariant
                i <= count,
                count == n,
                2 * n <= avail,
                avail == s.len(),
                self.wf(),
                self == old(self),
                s == self.remaining(),
                out@ == halves(s, i as nat, self.order),
            decreases count - i,
        {
            let h: u16 = read_word2(self.input, self.pos + 2 * i, self.order);
            proof {
                assert(self.input@.skip(self.pos + 2 * i) =~= s.skip(2 * i));
            }
            out.push(half_from_word(h));
            assert(out@ =~= halves(s, (i + 1) as nat, self.order));
            i = i + 1;
        }
        self.advance(2 * count);
        Ok(out)
    }

    /// Reads `n` flags packed into 32-bit words.
    fn parse_flags(&mut self, n: u64) -> (r: Result<Vec<bool>, ParseError>)
        requires
            old(self).wf(),
        ensures
            final(self).continues(old(self)),
            final(self).table() == old(self).table(),
            old(self).remaining().len() < flags_width(n as int) ==> r is Err && r->Err_0
                == ParseError::UnexpectedEnd,
            old(self).remaining().len() >= flags_width(n as int) ==> r is Ok && r->Ok_0@
                == flags_decoding(old(self).remaining(), n as nat) && final(self).remaining()
                == old(self).remaining().skip(flags_width(n as int)),
    {
        let ghost s = self.remaining();
        let avail: usize = self.available();
        let words: u64 = if n % 32 == 0 {
            n / 32
        } else {
            n / 32 + 1
        };
        let width: u64 = words * 4;
        assert(width == flags_width(n as int));
        if (avail as u64) < width {
            return Err(ParseError::UnexpectedEnd);
        }
        let mut out: Vec<bool> = Vec::new();
        let mut j: u64 = 0;
        while j < n
            invariant
                j <= n,
                width == flags_width(n as int),
                width <= avail,
                avail == s.len(),
                self.wf(),
                self == old(self),
                s == self.remaining(),
                out@ == flags_decoding(s, j as nat),
            decreases n - j,
        {
            let at: usize = (j / 8) as usize;
            let byte: u8 = self.input[self.pos + at];
            assert(byte == s[j as int / 8]);
            out.push(bit(byte, (j % 8) as u8));
            assert(out@ =~= flags_decoding(s, (j + 1) as nat));
            j = j + 1;
        }
        self.advance(width as usize);
        Ok(out)
    }

    /// Reads `n` elements of the type that the tag `kind` names.
    #[verifier::rlimit(40)]
    fn parse_uniform_elements(&mut self, kind: u8, n: u64) -> (r: Result<
        UniformArrayType,
        ParseError,
    >)
        requires
            old(self).wf(),
        ensures
            final(self).continues(old(self)),
            final(self).table() == old(self).table(),
            match uniform_elements(kind, n as nat, old(self).remaining(), old(self).order()) {
                Ok(u) => r is Ok && r->Ok_0@ == u.values && final(self).remaining() == u.rest,
                Err(x) => r is Err && r->Err_0 == x,
            },
    {
        if kind == JID_INT8 {
            match self.parse_uniform_array::<i8>(n) {
                Ok(v) => Ok(UniformArrayType::UniformArrayTi8(v)),
                Err(x) => Err(x),
            }
        } else if kind == JID_INT16 {
            match self.parse_uniform_array::<i16>(n) {
                Ok(v) => Ok(UniformArrayType::UniformArrayTi16(v)),
                Err(x) => Err(x),
            }
        } else if kind == JID_INT32 {
            match self.parse_uniform_array::<i32>(n) {
                Ok(v) => Ok(UniformArrayType::UniformArrayTi32(v)),
                Err(x) => Err(x),
            }
        } else if kind == JID_INT64 {
            match self.parse_uniform_array::<i64>(n) {
                Ok(v) => Ok(UniformArrayType::UniformArrayTi64(v)),
                Err(x) => Err(x),
            }
        } else if kind == JID_UINT8 {
            match self.parse_uniform_array::<u8>(n) {
                Ok(v) => Ok(UniformArrayType::UniformArrayTu8(v)),
                Err(x) => Err(x),
            }
        } else if kind == JID_UINT16 {
            match self.parse_uniform_array::<u16>(n) {
                Ok(v) => Ok(UniformArrayType::UniformArrayTu16(v)),
                Err(x) => Err(x),
            }
        } else if kind == JID_REAL16 {
            match self.parse_halves(n) {
                Ok(v) => Ok(UniformArrayType::UniformArrayTf16(v)),
                Err(x) => Err(x),
            }
        } else if kind == JID_REAL32 {
            match self.parse_uniform_array::<Real32>(n) {
                Ok(v) => Ok(UniformArrayType::UniformArrayTf32(v)),
                Err(x) => Err(x),
            }
        } else if kind == JID_REAL64 {
            match self.parse_uniform_array::<Real64>(n) {
                Ok(v) => Ok(UniformArrayType::UniformArrayTf64(v)),
                Err(x) => Err(x),
            }
        } else if kind == JID_BOOL {
            match self.parse_flags(n) {
                Ok(v) => Ok(UniformArrayType::UniformArrayTbool(v)),
                Err(x) => Err(x),
            }
        } else if kind == JID_TOKENREF || kind == JID_STRING {
            Err(ParseError::NotImplemented)
        } else {
            Err(ParseError::UnexpectedToken)
        }
    }

    /// Reads a uniform array, whose tag was read: the tag of the element
    /// type, the number of elements, the elements.
    fn parse_uniform(&mut self) -> (r: Result<UniformArrayType, ParseError>)
        requires
            old(self).wf(),
        ensures
            final(self).continues(old(self)),
            final(self).table() == old(self).table(),
            match uniform_decoding(old(self).remaining(), old(self).order()) {
                Ok(u) => r is Ok && r->Ok_0@ == u.values && final(self).remaining() == u.rest,
                Err(x) => r is Err && r->Err_0 == x,
            },
    {
        if self.available() < 1 {
            return Err(ParseError::UnexpectedEnd);
        }
        let kind: u8 = self.input[self.pos];
        assert(kind == self.remaining()[0]);
        self.advance(1);
        let n: u64 = match self.parse_read_length() {
            Ok(n) => n,
            Err(x) => {
                return Err(x);
            },
        };
        self.parse_uniform_elements(kind, n)
    }

    /// Reads a scalar of `w` bytes, which `value` was made of.
    fn parse_scalar(&mut self, w: usize, value: ReaderElement) -> (r: Result<
        ReaderElementOption,
        ParseError,
    >)
        requires
            old(self).wf(),
        ensures
            final(self).continues(old(self)),
            final(self).table() == old(self).table(),
            match scalar(old(self).remaining(), w as int, value@, old(self).table()) {
                Ok(d) => r is Ok && r->Ok_0@ == d.item && final(self).remaining() == d.rest
                    && final(self).table() == d.tokens,
                Err(x) => r is Err && r->Err_0 == x,
            },
    {
        if self.available() < w {
            return Err(ParseError::UnexpectedEnd);
        }
        self.advance(w);
        Ok(ReaderElementOption::Element(value))
    }

    /// Defines a token: reads its number and its text.
    fn parse_token_def_binary(&mut self) -> (r: Result<(), ParseError>)
        requires
            old(self).wf(),
        ensures
            final(self).continues(old(self)),
            match length_decoding(old(self).remaining(), old(self).order()) {
                Err(x) => r is Err && r->Err_0 == x,
                Ok(id) => match text_decoding(id.rest, old(self).order()) {
                    Err(x) => r is Err && r->Err_0 == x,
                    Ok(t) => r is Ok && final(self).remaining() == t.rest && final(self).table()
                        == old(self).table().insert(id.length, t.text),
                },
            },
    {
        let token_id: u64 = match self.parse_read_length() {
            Ok(n) => n,
            Err(x) => {
                return Err(x);
            },
        };
        let text: String = match self.parse_string() {
            Ok(t) => t,
            Err(x) => {
                return Err(x);
            },
        };
        self.tokens.insert(token_id, text);
        assert(self.table() =~= old(self).table().insert(token_id, text@));
        Ok(())
    }

    /// Undefines a token: reads its number and takes it out of the table.
    fn parse_token_undef_binary(&mut self) -> (r: Result<(), ParseError>)
        requires
            old(self).wf(),
        ensures
            final(self).continues(old(self)),
            match length_decoding(old(self).remaining(), old(self).order()) {
                Err(x) => r is Err && r->Err_0 == x,
                Ok(id) => if old(self).table().contains_key(id.length) {
                    r is Ok && final(self).remaining() == id.rest && final(self).table() == old(
                        self,
                    ).table().remove(id.length)
                } else {
                    r is Err && r->Err_0 == ParseError::UndefinedToken
                },
            },
    {
        let token_id: u64 = match self.parse_read_length() {
            Ok(n) => n,
            Err(x) => {
                return Err(x);
            },
        };
        match self.tokens.remove(&token_id) {
            Some(_) => {
                assert(self.table() =~= old(self).table().remove(token_id));
                Ok(())
            },
            None => Err(ParseError::UndefinedToken),
        }
    }

    /// Reads the text of a token that is referenced by its number.
    fn parse_token_ref(&mut self) -> (r: Result<ReaderElementOption, ParseError>)
        requires
            old(self).wf(),
        ensures
            final(self).continues(old(self)),
            final(self).table() == old(self).table(),
            match length_decoding(old(self).remaining(), old(self).order()) {
                Err(x) => r is Err && r->Err_0 == x,
                Ok(id) => if old(self).table().contains_key(id.length) {
                    r is Ok && r->Ok_0@ == Item::Element(
                        Value::Text(old(self).table()[id.length]),
                    ) && final(self).remaining() == id.rest
                } else {
                    r is Err && r->Err_0 == ParseError::UndefinedToken
                },
            },
    {
        let token_id: u64 = match self.parse_read_length() {
            Ok(n) => n,
            Err(x) => {
                return Err(x);
            },
        };
        match self.tokens.get(&token_id) {
            Some(text) => Ok(ReaderElementOption::Element(ReaderElement::Text(text.clone()))),
            None => Err(ParseError::UndefinedToken),
        }
    }

    /// Reads the members of an array up to the tag that ends it.
    fn parse_array(&mut self) -> (r: Result<
        ReaderElementOption,
        ParseError,
    >)
        requires
            old(self).wf(),
        ensures
            final(self).continues(old(self)),
            match decode_elements(
                old(self).remaining(),
                old(self).table(),
                old(self).order(),
                Seq::empty(),
            ) {
                Ok(d) => r is Ok && r->Ok_0@ == d.item && final(self).remaining() == d.rest
                    && final(self).table() == d.tokens && d.rest.len() < old(
                    self,
                ).remaining().len(),
                Err(x) => r is Err && r->Err_0 == x,
            },
        decreases old(self).remaining().len(), 2nat,
    {
        let mut arr: Vec<ReaderElement> = Vec::new();
        let ghost start = decode_elements(self.remaining(), self.table(), self.order, Seq::empty());
        assert(values_of(arr@) =~= Seq::<Value>::empty());
        loop
            invariant
                self.continues(old(self)),
                self.remaining().len() <= old(self).remaining().len(),
                start == decode_elements(
                    old(self).remaining(),
                    old(self).table(),
                    old(self).order(),
                    Seq::empty(),
                ),
                start == decode_elements(
                    self.remaining(),
                    self.table(),
                    self.order,
                    values_of(arr@),
                ),
            decreases self.remaining().len(),
        {
            let ghost before = self.remaining();
            let ghost members = values_of(arr@);
            match self.parse_one_element_binary() {
                Err(x) => {
                    return Err(x);
                },
                Ok(ReaderElementOption::Element(x)) => {
                    arr.push(x);
                    assert(values_of(arr@) =~= members.push(x@));
                },
                Ok(ReaderElementOption::ArrayEndToken) => {
                    proof {
                        lemma_view_array(arr);
                    }
                    return Ok(ReaderElementOption::Element(ReaderElement::Array(arr)));
                },
                Ok(ReaderElementOption::MapEndToken) => {
                    return Err(ParseError::UnexpectedToken);
                },
            }
        }
    }

    /// Reads the entries of an object up to the tag that ends it.
    fn parse_map(&mut self) -> (r: Result<
        ReaderElementOption,
        ParseError,
    >)
        requires
            old(self).wf(),
        ensures
            final(self).continues(old(self)),
            match decode_entries(
                old(self).remaining(),
                old(self).table(),
                old(self).order(),
                Seq::empty(),
            ) {
                Ok(d) => r is Ok && r->Ok_0@ == d.item && final(self).remaining() == d.rest
                    && final(self).table() == d.tokens && d.rest.len() < old(
                    self,
                ).remaining().len(),
                Err(x) => r is Err && r->Err_0 == x,
            },
        decreases old(self).remaining().len(), 2nat,
    {
        let mut map: Vec<KeyValueEntry> = Vec::new();
        let ghost start = decode_entries(self.remaining(), self.table(), self.order, Seq::empty());
        assert(entries_of(map@) =~= Seq::<(Seq<char>, Value)>::empty());
        loop
            invariant
                self.continues(old(self)),
                self.remaining().len() <= old(self).remaining().len(),
                start == decode_entries(
                    old(self).remaining(),
                    old(self).table(),
                    old(self).order(),
                    Seq::empty(),
                ),
                start == decode_entries(
                    self.remaining(),
                    self.table(),
                    self.order,
                    entries_of(map@),
                ),
            decreases self.remaining().len(),
        {
            let key: String = match self.parse_one_element_binary() {
                Err(x) => {
                    return Err(x);
                },
                Ok(ReaderElementOption::Element(ReaderElement::Text(key))) => key,
                Ok(ReaderElementOption::MapEndToken) => {
                    proof {
                        lemma_view_object(map);
                    }
                    return Ok(ReaderElementOption::Element(ReaderElement::KeyValueObject(map)));
                },
                Ok(_) => {
                    return Err(ParseError::UnexpectedToken);
                },
            };
            let val: ReaderElement = match self.parse_one_element_binary() {
                Err(x) => {
                    return Err(x);
                },
                Ok(ReaderElementOption::Element(x)) => x,
                Ok(_) => {
                    return Err(ParseError::UnexpectedToken);
                },
            };
            insert_entry(&mut map, key, val);
        }
    }

    /// One step of the decoder: passes over the records that define and
    /// undefine tokens, then reads what the next tag announces.
    pub fn parse_one_element_binary(&mut self) -> (r: Result<
        ReaderElementOption,
        ParseError,
    >)
        requires
            old(self).wf(),
        ensures
            final(self).continues(old(self)),
            match decode_item(old(self).remaining(), old(self).table(), old(self).order()) {
                Ok(d) => r is Ok && r->Ok_0@ == d.item && final(self).remaining() == d.rest
                    && final(self).table() == d.tokens && d.rest.len() < old(
                    self,
                ).remaining().len(),
                Err(x) => r is Err && r->Err_0 == x,
            },
        decreases old(self).remaining().len(), 1nat,
    {
        let ghost start = decode_item(self.remaining(), self.table(), self.order);
        let mut tag: u8 = 0;
        loop
            invariant_except_break
                self.continues(old(self)),
                self.remaining().len() <= old(self).remaining().len(),
                start == decode_item(old(self).remaining(), old(self).table(), old(self).order()),
                start == decode_item(self.remaining(), self.table(), self.order),
            ensures
                self.continues(old(self)),
                self.remaining().len() < old(self).remaining().len(),
                start == decode_item(old(self).remaining(), old(self).table(), old(self).order()),
                start == decode_tagged(tag, self.remaining(), self.table(), self.order),
            decreases self.remaining().len(),
        {
            if self.available() < 1 {
                return Err(ParseError::UnexpectedEnd);
            }
            tag = self.input[self.pos];
            assert(tag == self.remaining()[0]);
            self.advance(1);
            if tag == JID_TOKENDEF {
                match self.parse_token_def_binary() {
                    Ok(_) => {},
                    Err(x) => {
                        return Err(x);
                    },
                }
            } else if tag == JID_TOKENUNDEF {
                match self.parse_token_undef_binary() {
                    Ok(_) => {},
                    Err(x) => {
                        return Err(x);
                    },
                }
            } else {
                break ;
            }
        }
        self.parse_tagged(tag)
    }

    /// Reads what the tag `tag`, which was read, announces.
    #[verifier::rlimit(40)]
    fn parse_tagged(&mut self, tag: u8) -> (r: Result<
        ReaderElementOption,
        ParseError,
    >)
        requires
            old(self).wf(),
        ensures
            final(self).continues(old(self)),
            match decode_tagged(tag, old(self).remaining(), old(self).table(), old(self).order()) {
                Ok(d) => r is Ok && r->Ok_0@ == d.item && final(self).remaining() == d.rest
                    && final(self).table() == d.tokens,
                Err(x) => r is Err && r->Err_0 == x,
            },
        decreases old(self).remaining().len(), 3nat,
    {
        let ghost s = self.remaining();
        if tag == JID_MAP_BEGIN {
            self.parse_map()
        } else if tag == JID_ARRAY_BEGIN {
            self.parse_array()
        } else if tag == JID_BOOL {
            if self.available() < 1 {
                return Err(ParseError::UnexpectedEnd);
            }
            let b: u8 = self.input[self.pos];
            assert(b == s[0]);
            self.parse_scalar(1, ReaderElement::Bool(b != 0))
        } else if tag == JID_FALSE {
            self.parse_scalar(0, ReaderElement::Bool(false))
        } else if tag == JID_TRUE {
            self.parse_scalar(0, ReaderElement::Bool(true))
        } else if tag == JID_INT8 {
            if self.available() < 1 {
                return Err(ParseError::UnexpectedEnd);
            }
            let x: i8 = i8::read(self.input, self.pos, self.order);
            self.parse_scalar(1, ReaderElement::Int(x as i64))
        } else if tag == JID_INT16 {
            if self.available() < 2 {
                return Err(ParseError::UnexpectedEnd);
            }
            let x: i16 = i16::read(self.input, self.pos, self.order);
            self.parse_scalar(2, ReaderElement::Int(x as i64))
        } else if tag == JID_INT32 {
            if self.available() < 4 {
                return Err(ParseError::UnexpectedEnd);
            }
            let x: i32 = i32::read(self.input, self.pos, self.order);
            self.parse_scalar(4, ReaderElement::Int(x as i64))
        } else if tag == JID_INT64 {
            if self.available() < 8 {
                return Err(ParseError::UnexpectedEnd);
            }
            let x: i64 = i64::read(self.input, self.pos, self.order);
            self.parse_scalar(8, ReaderElement::Int(x))
        } else if tag == JID_UINT8 {
            if self.available() < 1 {
                return Err(ParseError::UnexpectedEnd);
            }
            let x: u8 = self.input[self.pos];
            assert(x == s[0]);
            self.parse_scalar(1, ReaderElement::Int(x as i64))
        } else if tag == JID_UINT16 {
            if self.available() < 2 {
                return Err(ParseError::UnexpectedEnd);
            }
            let x: u16 = u16::read(self.input, self.pos, self.order);
            self.parse_scalar(2, ReaderElement::Int(x as i64))
        } else if tag == JID_REAL16 {
            if self.available() < 2 {
                return Err(ParseError::UnexpectedEnd);
            }
            let h: u16 = read_word2(self.input, self.pos, self.order);
            self.parse_scalar(2, ReaderElement::Float(widen(half_from_word(h))))
        } else if tag == JID_REAL32 {
            if self.available() < 4 {
                return Err(ParseError::UnexpectedEnd);
            }
            let x: Real32 = Real32::read(self.input, self.pos, self.order);
            self.parse_scalar(4, ReaderElement::Float(widen(x)))
        } else if tag == JID_REAL64 {
            if self.available() < 8 {
                return Err(ParseError::UnexpectedEnd);
            }
            let x: Real64 = Real64::read(self.input, self.pos, self.order);
            self.parse_scalar(8, ReaderElement::Float(x))
        } else if tag == JID_STRING {
            match self.parse_string() {
                Ok(t) => Ok(ReaderElementOption::Element(ReaderElement::Text(t))),
                Err(x) => Err(x),
            }
        } else if tag == JID_TOKENREF {
            self.parse_token_ref()
        } else if tag == JID_UNIFORM_ARRAY {
            match self.parse_uniform() {
                Ok(u) => Ok(ReaderElementOption::Element(ReaderElement::UniformArray(u))),
                Err(x) => Err(x),
            }
        } else if tag == JID_NULL {
            self.parse_scalar(0, ReaderElement::Null)
        } else if tag == JID_MAP_END {
            Ok(ReaderElementOption::MapEndToken)
        } else if tag == JID_ARRAY_END {
            Ok(ReaderElementOption::ArrayEndToken)
        } else {
            Err(ParseError::UnexpectedToken)
        }
    }
}

/// Decodes a binary stream whose first byte was read already.
pub fn parse_binary_first_byte_separately(first_byte: u8, input: &[u8]) -> (r: Result<
    ReaderElement,
    ParseError,
>)
    ensures
        match stream_decoding(seq![first_byte] + input@) {
            Ok(v) => r is Ok && r->Ok_0@ == v && well_formed(v),
            Err(x) => r is Err && r->Err_0 == x,
        },
{
    let ghost s = seq![first_byte] + input@;
    proof {
        lemma_stream_well_formed(s);
    }
    if first_byte != JID_MAGIC {
        return Err(ParseError::BadMagic);
    }
    if input.len() < 4 {
        return Err(ParseError::UnexpectedEnd);
    }
    assert(s.subrange(1, 5) =~= input@.subrange(0, 4));
    assert(s.skip(5) =~= input@.skip(4));
    let body: &[u8] = slice_subrange(input, 4, input.len());
    assert(body@ =~= input@.skip(4));
    let mut parser = if input[0] == 0x62 && input[1] == 0x4a && input[2] == 0x53 && input[3]
        == 0x4e {
        assert(input@.subrange(0, 4) =~= seq![0x62u8, 0x4au8, 0x53u8, 0x4eu8]);
        BgeoParser::new_be(body)
    } else if input[0] == 0x4e && input[1] == 0x53 && input[2] == 0x4a && input[3] == 0x62 {
        assert(input@.subrange(0, 4) =~= seq![0x4eu8, 0x53u8, 0x4au8, 0x62u8]);
        BgeoParser::new_le(body)
    } else {
        assert(byte_order(input@.subrange(0, 4)) is None) by {
            let m = input@.subrange(0, 4);
            assert(m[0] == input@[0] && m[1] == input@[1] && m[2] == input@[2] && m[3]
                == input@[3]);
        }
        return Err(ParseError::UnrecognizedMagic);
    };
    match parser.parse_one_element_binary() {
        Ok(ReaderElementOption::Element(x)) => Ok(x),
        Ok(_) => Err(ParseError::UnexpectedToken),
        Err(x) => Err(x),
    }
}

/// Decodes a whole binary stream: the format marker, the magic that fixes
/// the byte order, one value.
pub fn parse_binary(input: &[u8]) -> (r: Result<ReaderElement, ParseError>)
    ensures
        match stream_decoding(input@) {
            Ok(v) => r is Ok && r->Ok_0@ == v && well_formed(v),
            Err(x) => r is Err && r->Err_0 == x,
        },
{
    if input.len() < 1 {
        return Err(ParseError::UnexpectedEnd);
    }
    let rest: &[u8] = slice_subrange(input, 1, input.len());
    assert(seq![input@[0]] + rest@ =~= input@);
    parse_binary_first_byte_separately(input[0], rest)
}

} // verus!
