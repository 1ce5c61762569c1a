//! The textual decoder.

use vstd::prelude::*;
use vstd::slice::slice_subrange;
use vstd::utf8::{decode_utf8, valid_utf8};
use crate::errors::ParseError;
use crate::geo_format::{
    any_reading, digits_value, done, fail, in_keyword, in_number, integer_literal, is_digit,
    is_letter, is_space, keyword_length, number_length, readings_for, readings_of, starts_number,
    string_length, text_array, text_decoding, text_element, text_entries, text_keyword,
    text_members, text_number, text_object, text_reals, text_string, trimmed, Readings,
    TextOutcome,
};
use vstd::slice::slice_to_vec;
use crate::geo_laws::lemma_decoding_well_formed;
use crate::geo_struct::{
    entries_of, insert_entry, lemma_view_array, lemma_view_object, object_insert, values_of,
    well_formed, KeyValueEntry, ReaderElement, Real64, Value,
};

verus! {

/// The text that bytes stand for when they are read leniently: the text
/// that they encode where they are UTF-8, and some text in any case.
pub uninterp spec fn lossy_text(bytes: Seq<u8>) -> Seq<char>;

/// `String::from_utf8_lossy`: the text of the bytes, where each sequence
/// that is not UTF-8 is replaced by U+FFFD. Valid UTF-8 comes out as the
/// text that it encodes.
#[verifier::external_body]
fn string_from_utf8_lossy(bytes: &[u8]) -> (r: String)
    ensures
        r@ == lossy_text(bytes@),
        valid_utf8(bytes@) ==> r@ == decode_utf8(bytes@),
{
    String::from_utf8_lossy(bytes).into_owned()
}

/// The first byte of `s`, if there is one.
pub open spec fn first(s: Seq<u8>) -> Option<u8> {
    if s.len() > 0 {
        Some(s[0])
    } else {
        None
    }
}

/// A reader over the bytes of a source, with a buffer that is filled
/// chunk by chunk and that holds the token being read.
pub struct BuffChannel<'a> {
    buff: Vec<u8>,
    chunk_size: usize,
    start: usize,
    i: usize,
    src: &'a [u8],
    fed: usize,
}

impl<'a> BuffChannel<'a> {
    /// The bytes not yet consumed.
    pub closed spec fn unread(&self) -> Seq<u8> {
        if self.chunk_size == 0 {
            self.buff@.skip(self.i as int)
        } else {
            self.buff@.skip(self.i as int) + self.src@.skip(self.fed as int)
        }
    }

    /// The token being read: the bytes consumed since the buffer was
    /// last reset.
    pub closed spec fn token(&self) -> Seq<u8> {
        self.buff@.subrange(self.start as int, self.i as int)
    }

    /// The marks lie within the buffer, in order, and within the source.
    pub closed spec fn wf(&self) -> bool {
        &&& self.start <= self.i <= self.buff@.len() <= usize::MAX
        &&& self.fed <= self.src@.len() <= usize::MAX
    }

    /// A reader at the start of `file`, which takes `chunk_size` bytes
    /// at a time, or `buff_size` where `chunk_size` is 0. With both 0 it
    /// takes nothing and sees no byte.
    pub fn new(file: &'a [u8], buff_size: usize, chunk_size: usize) -> (r: BuffChannel<'a>)
        ensures
            r.wf(),
            r.token() == Seq::<u8>::empty(),
            r.unread() == (if chunk_size == 0 && buff_size == 0 {
                Seq::<u8>::empty()
            } else {
                file@
            }),
    {
        // a slice is no longer than a machine word counts
        let total: usize = file.len();
        let buffer: Vec<u8> = Vec::with_capacity(buff_size);
        let chunk_size: usize = if chunk_size == 0 {
            buff_size
        } else {
            chunk_size
        };
        let r = BuffChannel { buff: buffer, chunk_size, start: 0, i: 0, src: file, fed: 0 };
        assert(r.token() =~= Seq::<u8>::empty());
        assert(r.unread() =~= (if chunk_size == 0 {
            Seq::<u8>::empty()
        } else {
            file@
        }));
        r
    }

    /// Takes the next chunk of the source into the buffer. `None` where
    /// the source gave nothing.
    fn buffer_moar(&mut self) -> (r: Option<()>)
        requires
            old(self).wf(),
        ensures
            final(self).wf(),
            final(self).unread() == old(self).unread(),
            final(self).token() == old(self).token(),
            final(self).i == old(self).i,
            final(self).start == old(self).start,
            final(self).chunk_size == old(self).chunk_size,
            r is None ==> final(self).buff@ == old(self).buff@,
            r is None <==> (old(self).chunk_size == 0 || old(self).fed == old(self).src@.len()),
            r is Some ==> final(self).buff@.len() > old(self).buff@.len(),
    {
        let left: usize = self.src.len() - self.fed;
        let n: usize = if self.chunk_size < left {
            self.chunk_size
        } else {
            left
        };
        let chunk: &[u8] = slice_subrange(self.src, self.fed, self.fed + n);
        self.buff.extend_from_slice(chunk);
        self.fed = self.fed + n;
        // nor is a vector
        let held: usize = self.buff.len();
        proof {
            assert(self.token() =~= old(self).token());
            assert(self.unread() =~= old(self).unread());
            if n == 0 {
                assert(self.buff@ =~= old(self).buff@);
            }
        }
        if n == 0 {
            return None;
        }
        Some(())
    }

    /// The next byte, which stays unconsumed; `None` at the end.
    pub fn peek(&mut self) -> (r: Option<u8>)
        requires
            old(self).wf(),
        ensures
            final(self).wf(),
            final(self).unread() == old(self).unread(),
            final(self).token() == old(self).token(),
            r == first(old(self).unread()),
    {
        if self.i == self.buff.len() {
            if self.buffer_moar().is_none() {
                return None;
            }
        }
        Some(self.buff[self.i])
    }

    /// The next byte, as `peek` gives it.
    pub fn peak(&mut self) -> (r: Option<u8>)
        requires
            old(self).wf(),
        ensures
            final(self).wf(),
            final(self).unread() == old(self).unread(),
            final(self).token() == old(self).token(),
            r == first(old(self).unread()),
    {
        self.peek()
    }

    /// Consumes the next byte, which joins the token; `None` at the
    /// end, where nothing changes.
    pub fn consume(&mut self) -> (r: Option<()>)
        requires
            old(self).wf(),
        ensures
            final(self).wf(),
            r is Some <==> old(self).unread().len() > 0,
            r is Some ==> final(self).unread() == old(self).unread().skip(1) && final(self).token()
                == old(self).token().push(old(self).unread()[0]),
            r is None ==> final(self).unread() == old(self).unread() && final(self).token() == old(
                self,
            ).token(),
    {
        if self.i == self.buff.len() {
            if self.buffer_moar().is_none() {
                return None;
            }
        }
        let ghost before = *self;
        self.i = self.i + 1;
        proof {
            assert(self.unread() =~= before.unread().skip(1));
            assert(self.token() =~= before.token().push(before.unread()[0]));
        }
        Some(())
    }

    /// Consumes the next byte and hands it out; `None` at the end, where
    /// nothing changes.
    pub fn get(&mut self) -> (r: Option<u8>)
        requires
            old(self).wf(),
        ensures
            final(self).wf(),
            r == first(old(self).unread()),
            r is Some ==> final(self).unread() == old(self).unread().skip(1) && final(self).token()
                == old(self).token().push(old(self).unread()[0]),
            r is None ==> final(self).unread() == old(self).unread() && final(self).token() == old(
                self,
            ).token(),
    {
        let x: Option<u8> = self.peek();
        if x.is_some() {
            let _ = self.consume();
        }
        x
    }

    /// The token being read.
    pub fn buffer(&self) -> (r: &[u8])
        requires
            self.wf(),
        ensures
            r@ == self.token(),
    {
        slice_subrange(self.buff.as_slice(), self.start, self.i)
    }

    /// Starts a new token at the next byte.
    pub fn reset_buffer(&mut self)
        requires
            old(self).wf(),
        ensures
            final(self).wf(),
            final(self).unread() == old(self).unread(),
            final(self).token() == Seq::<u8>::empty(),
    {
        if self.i == self.buff.len() {
            self.buff.clear();
            self.i = 0;
            self.start = 0;
        } else {
            self.start = self.i;
        }
        proof {
            assert(self.unread() =~= old(self).unread());
            assert(self.token() =~= Seq::<u8>::empty());
        }
    }

    /// The next byte that is no whitespace, as `peek_skip_whitespaces`
    /// gives it.
    pub fn peak_skip_whitespaces(&mut self) -> (r: Option<u8>)
        requires
            old(self).wf(),
        ensures
            final(self).wf(),
            final(self).unread() == trimmed(old(self).unread()),
            final(self).unread().len() <= old(self).unread().len(),
            final(self).token() + final(self).unread() == old(self).token() + old(self).unread(),
            r == first(trimmed(old(self).unread())),
    {
        self.peek_skip_whitespaces()
    }

    /// Consumes whitespace up to the next byte that is none, and hands
    /// that byte out unconsumed; `None` where only whitespace was left.
    pub fn peek_skip_whitespaces(&mut self) -> (r: Option<u8>)
        requires
            old(self).wf(),
        ensures
            final(self).wf(),
            final(self).unread() == trimmed(old(self).unread()),
            final(self).unread().len() <= old(self).unread().len(),
            final(self).token() + final(self).unread() == old(self).token() + old(self).unread(),
            r == first(trimmed(old(self).unread())),
    {
        loop
            invariant
                self.wf(),
                trimmed(self.unread()) == trimmed(old(self).unread()),
                self.unread().len() <= old(self).unread().len(),
                self.token() + self.unread() == old(self).token() + old(self).unread(),
            decreases self.unread().len(),
        {
            match self.peek() {
                Some(x) => {
                    if is_ascii_whitespace(x) {
                        let ghost token = self.token();
                        let ghost unread = self.unread();
                        let _ = self.consume();
                        assert(token.push(unread[0]) + unread.skip(1) =~= token + unread);
                    } else {
                        return Some(x);
                    }
                },
                None => {
                    return None;
                },
            }
        }
    }

    /// Consumes whitespace and the byte after it, which is handed out;
    /// `None` where only whitespace was left.
    pub fn get_skip_whitespaces(&mut self) -> (r: Option<u8>)
        requires
            old(self).wf(),
        ensures
            final(self).wf(),
            r == first(trimmed(old(self).unread())),
            r is Some ==> final(self).unread() == trimmed(old(self).unread()).skip(1),
            r is None ==> final(self).unread() == trimmed(old(self).unread()),
            final(self).unread().len() <= old(self).unread().len(),
            final(self).token() + final(self).unread() == old(self).token() + old(self).unread(),
            trimmed(old(self).unread()).len() <= old(self).unread().len(),
    {
        let x: Option<u8> = self.peek_skip_whitespaces();
        if x.is_some() {
            let ghost token = self.token();
            let ghost unread = self.unread();
            let _ = self.consume();
            assert(token.push(unread[0]) + unread.skip(1) =~= token + unread);
        }
        x
    }
}

/// Whether a byte is whitespace.
pub fn is_ascii_whitespace(b: u8) -> (r: bool)
    ensures
        r == is_space(b),
{
    b == 0x20 || b == 0x09 || b == 0x0a || b == 0x0c || b == 0x0d
}

/// Whether a byte is a decimal digit.
pub fn is_ascii_digit(b: u8) -> (r: bool)
    ensures
        r == is_digit(b),
{
    0x30 <= b && b <= 0x39
}

/// Whether a byte is a letter.
pub fn is_ascii_alphabetic(b: u8) -> (r: bool)
    ensures
        r == is_letter(b),
{
    (0x41 <= b && b <= 0x5a) || (0x61 <= b && b <= 0x7a)
}

/// More digits make a number no smaller.
pub proof fn lemma_digits_grow(d: Seq<u8>, k: int)
    requires
        0 <= k <= d.len(),
        digits_value(d) is Some,
    ensures
        digits_value(d.take(k)) is Some,
        digits_value(d.take(k))->0 <= digits_value(d)->0,
    decreases d.len() - k,
{
    if k == d.len() {
        assert(d.take(k) =~= d);
    } else {
        assert(d.drop_last().take(k) =~= d.take(k));
        lemma_digits_grow(d.drop_last(), k);
    }
}

/// Where one byte is no digit, the whole is no number.
pub proof fn lemma_digits_all(d: Seq<u8>, k: int)
    requires
        0 <= k < d.len(),
        !is_digit(d[k]),
    ensures
        digits_value(d) is None,
    decreases d.len(),
{
    if k < d.len() - 1 {
        lemma_digits_all(d.drop_last(), k);
    }
}

/// The number that the digits from `from` on stand for, if it is at
/// most `limit`.
fn parse_digits(t: &[u8], from: usize, limit: u64) -> (r: Option<u64>)
    requires
        from <= t@.len(),
    ensures
        r == (match digits_value(t@.skip(from as int)) {
            Some(n) => if n <= limit {
                Some(n as u64)
            } else {
                None
            },
            None => None,
        }),
{
    let ghost d = t@.skip(from as int);
    let mut acc: u64 = 0;
    let mut i: usize = from;
    assert(d.take(0) =~= Seq::<u8>::empty());
    while i < t.len()
        invariant
            from <= i <= t@.len(),
            d == t@.skip(from as int),
            digits_value(d.take(i - from)) == Some(acc as nat),
            acc <= limit,
        decreases t.len() - i,
    {
        let b: u8 = t[i];
        assert(b == d[i - from]);
        assert(d.take(i - from + 1).drop_last() =~= d.take(i - from));
        if !is_ascii_digit(b) {
            proof {
                lemma_digits_all(d, i - from);
            }
            return None;
        }
        let digit: u64 = (b - 0x30) as u64;
        if digit > limit || acc > (limit - digit) / 10 {
            proof {
                if digits_value(d) is Some {
                    lemma_digits_grow(d, i - from + 1);
                }
            }
            return None;
        }
        acc = acc * 10 + digit;
        i = i + 1;
    }
    assert(d.take(i - from) =~= d);
    Some(acc)
}

/// The 64-bit integer that `t` reads as, if it reads as one.
pub fn parse_integer(t: &[u8]) -> (r: Option<i64>)
    ensures
        r == integer_literal(t@),
{
    if t.len() == 0 {
        return None;
    }
    if t[0] == 0x2d {
        if t.len() == 1 {
            return None;
        }
        match parse_digits(t, 1, 0x8000_0000_0000_0000) {
            Some(n) => if n == 0x8000_0000_0000_0000 {
                Some(i64::MIN)
            } else {
                Some(0 - (n as i64))
            },
            None => None,
        }
    } else if t[0] == 0x2b {
        if t.len() == 1 {
            return None;
        }
        match parse_digits(t, 1, 0x7fff_ffff_ffff_ffff) {
            Some(n) => Some(n as i64),
            None => None,
        }
    } else {
        assert(t@.skip(0) =~= t@);
        match parse_digits(t, 0, 0x7fff_ffff_ffff_ffff) {
            Some(n) => Some(n as i64),
            None => None,
        }
    }
}

/// The texts that a list of byte strings holds, in order.
pub open spec fn texts_of(found: Seq<Vec<u8>>) -> Seq<Seq<u8>> {
    Seq::new(found.len(), |i: int| found[i]@)
}

/// What a byte string reads as where it is no integer: the caller's
/// reading of it or, while numbers are only looked for, zero. The byte
/// string joins those found.
fn read_real(
    span: &[u8],
    reals: &Vec<Option<Real64>>,
    scanning: bool,
    found: &mut Vec<Vec<u8>>,
) -> (r: Result<ReaderElement, ParseError>)
    ensures
        texts_of(final(found)@) == texts_of(old(found)@).push(span@),
        match readings_for(reals@, scanning)(old(found)@.len() as int) {
            Some(x) => r is Ok && r->Ok_0@ == Value::Real(x),
            None => r is Err && r->Err_0 == ParseError::BadNumber,
        },
{
    let k: usize = found.len();
    found.push(slice_to_vec(span));
    assert(texts_of(found@) =~= texts_of(old(found)@).push(span@));
    if scanning {
        Ok(ReaderElement::Float(Real64 { bits: 0 }))
    } else if k < reals.len() {
        match reals[k] {
            Some(x) => Ok(ReaderElement::Float(x)),
            None => Err(ParseError::BadNumber),
        }
    } else {
        Err(ParseError::BadNumber)
    }
}

/// Reads a number, which starts at the next byte.
fn parse_number(
    chan: &mut BuffChannel,
    reals: &Vec<Option<Real64>>,
    scanning: bool,
    found: &mut Vec<Vec<u8>>,
) -> (r: Result<ReaderElement, ParseError>)
    requires
        old(chan).wf(),
    ensures
        final(chan).wf(),
        final(chan).unread().len() <= old(chan).unread().len(),
        ({
            let o = text_number(
                old(chan).unread(),
                readings_for(reals@, scanning),
                texts_of(old(found)@),
            );
            &&& texts_of(final(found)@) == o.found
            &&& match o.result {
                Ok(v) => r is Ok && r->Ok_0@ == v.0 && final(chan).unread() == v.1,
                Err(x) => r is Err && r->Err_0 == x,
            }
        }),
{
    let ghost s = chan.unread();
    chan.reset_buffer();
    let ghost mut k: int = 0;
    proof {
        assert(s.take(0) =~= Seq::<u8>::empty());
        assert(s.skip(0) =~= s);
    }
    loop
        invariant_except_break
            chan.wf(),
            found == old(found),
            s == old(chan).unread(),
            0 <= k <= s.len(),
            chan.token() == s.take(k),
            chan.unread() == s.skip(k),
            number_length(s) == k + number_length(s.skip(k)),
        ensures
            chan.wf(),
            found == old(found),
            0 <= k < s.len(),
            chan.token() == s.take(k),
            chan.unread() == s.skip(k),
            number_length(s) == k,
        decreases s.len() - k,
    {
        match chan.peek() {
            None => {
                assert(texts_of(found@) =~= texts_of(old(found)@));
                assert(k == s.len());
                assert(number_length(s.skip(k)) == 0);
                return Err(ParseError::UnexpectedEnd);
            },
            Some(c) => {
                if !(is_ascii_digit(c) || c == 0x2e || c == 0x2d || c == 0x2b || c == 0x65) {
                    break ;
                }
                let _ = chan.consume();
                proof {
                    assert(s.take(k + 1) =~= s.take(k).push(s[k]));
                    assert(s.skip(k + 1) =~= s.skip(k).skip(1));
                    k = k + 1;
                }
            },
        }
    }
    let span: &[u8] = chan.buffer();
    match parse_integer(span) {
        Some(i) => {
            assert(texts_of(found@) =~= texts_of(old(found)@));
            Ok(ReaderElement::Int(i))
        },
        None => read_real(span, reals, scanning, found),
    }
}

/// Reads a keyword, which starts at the next byte.
fn parse_keyword(chan: &mut BuffChannel, Ghost(found): Ghost<Seq<Seq<u8>>>) -> (r: Result<
    ReaderElement,
    ParseError,
>)
    requires
        old(chan).wf(),
    ensures
        final(chan).wf(),
        final(chan).unread().len() <= old(chan).unread().len(),
        match text_keyword(old(chan).unread(), found).result {
            Ok(v) => r is Ok && r->Ok_0@ == v.0 && final(chan).unread() == v.1,
            Err(x) => r is Err && r->Err_0 == x,
        },
{
    let ghost s = chan.unread();
    chan.reset_buffer();
    let ghost mut k: int = 0;
    proof {
        assert(s.take(0) =~= Seq::<u8>::empty());
        assert(s.skip(0) =~= s);
    }
    loop
        invariant_except_break
            chan.wf(),
            s == old(chan).unread(),
            0 <= k <= s.len(),
            chan.token() == s.take(k),
            chan.unread() == s.skip(k),
            keyword_length(s) == k + keyword_length(s.skip(k)),
        ensures
            chan.wf(),
            0 <= k < s.len(),
            chan.token() == s.take(k),
            chan.unread() == s.skip(k),
            keyword_length(s) == k,
        decreases s.len() - k,
    {
        match chan.peek() {
            None => {
                assert(k == s.len());
                assert(keyword_length(s.skip(k)) == 0);
                return Err(ParseError::UnexpectedEnd);
            },
            Some(c) => {
                if !(is_ascii_alphabetic(c) || is_ascii_digit(c)) {
                    break ;
                }
                let _ = chan.consume();
                proof {
                    assert(s.take(k + 1) =~= s.take(k).push(s[k]));
                    assert(s.skip(k + 1) =~= s.skip(k).skip(1));
                    k = k + 1;
                }
            },
        }
    }
    let span: &[u8] = chan.buffer();
    if span.len() == 4 && span[0] == 0x74 && span[1] == 0x72 && span[2] == 0x75 && span[3] == 0x65 {
        assert(span@ =~= seq![0x74u8, 0x72u8, 0x75u8, 0x65u8]);
        Ok(ReaderElement::Bool(true))
    } else if span.len() == 5 && span[0] == 0x66 && span[1] == 0x61 && span[2] == 0x6c && span[3]
        == 0x73 && span[4] == 0x65 {
        assert(span@ =~= seq![0x66u8, 0x61u8, 0x6cu8, 0x73u8, 0x65u8]);
        Ok(ReaderElement::Bool(false))
    } else {
        proof {
            let yes = seq![0x74u8, 0x72u8, 0x75u8, 0x65u8];
            let no = seq![0x66u8, 0x61u8, 0x6cu8, 0x73u8, 0x65u8];
            if span@ =~= yes {
                assert(span@[0] == yes[0] && span@[1] == yes[1] && span@[2] == yes[2] && span@[3]
                    == yes[3]);
            }
            if span@ =~= no {
                assert(span@[0] == no[0] && span@[1] == no[1] && span@[2] == no[2] && span@[3]
                    == no[3] && span@[4] == no[4]);
            }
        }
        Err(ParseError::UnknownKeyword)
    }
}

/// Reads a string, whose opening quote was consumed.
fn parse_text(chan: &mut BuffChannel, Ghost(found): Ghost<Seq<Seq<u8>>>) -> (r: Result<
    ReaderElement,
    ParseError,
>)
    requires
        old(chan).wf(),
    ensures
        final(chan).wf(),
        final(chan).unread().len() <= old(chan).unread().len(),
        match text_string(old(chan).unread(), found).result {
            Ok(v) => r is Ok && r->Ok_0@ == v.0 && final(chan).unread() == v.1,
            Err(x) => r is Err && r->Err_0 == x,
        },
{
    let ghost s = chan.unread();
    chan.reset_buffer();
    let ghost mut k: int = 0;
    let mut next_escaped: bool = false;
    proof {
        assert(s.take(0) =~= Seq::<u8>::empty());
        assert(s.skip(0) =~= s);
    }
    loop
        invariant_except_break
            chan.wf(),
            s == old(chan).unread(),
            0 <= k <= s.len(),
            chan.token() == s.take(k),
            chan.unread() == s.skip(k),
            string_length(s, false) == k + string_length(s.skip(k), next_escaped),
        ensures
            chan.wf(),
            0 <= k < s.len(),
            chan.token() == s.take(k),
            chan.unread() == s.skip(k),
            string_length(s, false) == k,
        decreases s.len() - k,
    {
        match chan.peek() {
            None => {
                assert(k == s.len());
                assert(string_length(s.skip(k), next_escaped) == 0);
                return Err(ParseError::UnexpectedEnd);
            },
            Some(c) => {
                if next_escaped {
                    next_escaped = false;
                } else if c == 0x5c {
                    next_escaped = true;
                } else if c == 0x22 {
                    break ;
                }
                let _ = chan.consume();
                proof {
                    assert(s.take(k + 1) =~= s.take(k).push(s[k]));
                    assert(s.skip(k + 1) =~= s.skip(k).skip(1));
                    k = k + 1;
                }
            },
        }
    }
    let text: String = string_from_utf8_lossy(chan.buffer());
    let _ = chan.consume();
    proof {
        assert(s.skip(k).skip(1) =~= s.skip(k + 1));
    }
    Ok(ReaderElement::Text(text))
}

/// Reads the members of an array, whose opening bracket was consumed.
fn parse_array(
    chan: &mut BuffChannel,
    reals: &Vec<Option<Real64>>,
    scanning: bool,
    found: &mut Vec<Vec<u8>>,
) -> (r: Result<ReaderElement, ParseError>)
    requires
        old(chan).wf(),
    ensures
        final(chan).wf(),
        final(chan).unread().len() <= old(chan).unread().len(),
        ({
            let o = text_array(
                old(chan).unread(),
                readings_for(reals@, scanning),
                texts_of(old(found)@),
            );
            &&& texts_of(final(found)@) == o.found
            &&& match o.result {
                Ok(v) => r is Ok && r->Ok_0@ == v.0 && final(chan).unread() == v.1,
                Err(x) => r is Err && r->Err_0 == x,
            }
        }),
    decreases old(chan).unread().len(), 2nat,
{
    let ghost readings = readings_for(reals@, scanning);
    let ghost whole = text_array(chan.unread(), readings, texts_of(found@));
    let mut arr: Vec<ReaderElement> = Vec::new();
    match chan.peek_skip_whitespaces() {
        None => {
            return Err(ParseError::UnexpectedEnd);
        },
        Some(c) => {
            if c == 0x5d {
                let _ = chan.consume();
                proof {
                    lemma_view_array(arr);
                    assert(values_of(arr@) =~= Seq::<Value>::empty());
                }
                return Ok(ReaderElement::Array(arr));
            }
        },
    }
    assert(values_of(arr@) =~= Seq::<Value>::empty());
    loop
        invariant
            chan.wf(),
            chan.unread().len() <= old(chan).unread().len(),
            readings == readings_for(reals@, scanning),
            whole == text_members(chan.unread(), readings, texts_of(found@), values_of(arr@)),
            whole == text_array(old(chan).unread(), readings, texts_of(old(found)@)),
        decreases chan.unread().len(),
    {
        let ghost members = values_of(arr@);
        let v: ReaderElement = match parse_one_element(chan, reals, scanning, found) {
            Ok(v) => v,
            Err(x) => {
                return Err(x);
            },
        };
        arr.push(v);
        assert(values_of(arr@) =~= members.push(v@));
        match chan.get_skip_whitespaces() {
            None => {
                return Err(ParseError::UnexpectedEnd);
            },
            Some(c) => {
                if c == 0x2c {
                } else if c == 0x5d {
                    proof {
                        lemma_view_array(arr);
                    }
                    return Ok(ReaderElement::Array(arr));
                } else {
                    return Err(ParseError::BadSeparator);
                }
            },
        }
    }
}

/// Reads the entries of an object, whose opening brace was consumed.
fn parse_object(
    chan: &mut BuffChannel,
    reals: &Vec<Option<Real64>>,
    scanning: bool,
    found: &mut Vec<Vec<u8>>,
) -> (r: Result<ReaderElement, ParseError>)
    requires
        old(chan).wf(),
    ensures
        final(chan).wf(),
        final(chan).unread().len() <= old(chan).unread().len(),
        ({
            let o = text_object(
                old(chan).unread(),
                readings_for(reals@, scanning),
                texts_of(old(found)@),
            );
            &&& texts_of(final(found)@) == o.found
            &&& match o.result {
                Ok(v) => r is Ok && r->Ok_0@ == v.0 && final(chan).unread() == v.1,
                Err(x) => r is Err && r->Err_0 == x,
            }
        }),
    decreases old(chan).unread().len(), 2nat,
{
    let ghost readings = readings_for(reals@, scanning);
    let ghost whole = text_object(chan.unread(), readings, texts_of(found@));
    let mut hmap: Vec<KeyValueEntry> = Vec::new();
    match chan.peek_skip_whitespaces() {
        None => {
            return Err(ParseError::UnexpectedEnd);
        },
        Some(c) => {
            if c == 0x7d {
                let _ = chan.consume();
                proof {
                    lemma_view_object(hmap);
                    assert(entries_of(hmap@) =~= Seq::<(Seq<char>, Value)>::empty());
                }
                return Ok(ReaderElement::KeyValueObject(hmap));
            }
        },
    }
    assert(entries_of(hmap@) =~= Seq::<(Seq<char>, Value)>::empty());
    loop
        invariant
            chan.wf(),
            chan.unread().len() <= old(chan).unread().len(),
            readings == readings_for(reals@, scanning),
            whole == text_entries(chan.unread(), readings, texts_of(found@), entries_of(hmap@)),
            whole == text_object(old(chan).unread(), readings, texts_of(old(found)@)),
        decreases chan.unread().len(),
    {
        let mkey: ReaderElement = match parse_one_element(chan, reals, scanning, found) {
            Ok(v) => v,
            Err(x) => {
                return Err(x);
            },
        };
        match chan.get_skip_whitespaces() {
            None => {
                return Err(ParseError::UnexpectedEnd);
            },
            Some(c) => {
                if c != 0x3a {
                    return Err(ParseError::BadKey);
                }
            },
        }
        let mval: ReaderElement = match parse_one_element(chan, reals, scanning, found) {
            Ok(v) => v,
            Err(x) => {
                return Err(x);
            },
        };
        match mkey {
            ReaderElement::Text(text) => {
                insert_entry(&mut hmap, text, mval);
            },
            _ => {
                return Err(ParseError::BadKey);
            },
        }
        match chan.get_skip_whitespaces() {
            None => {
                return Err(ParseError::UnexpectedEnd);
            },
            Some(c) => {
                if c == 0x2c {
                } else if c == 0x7d {
                    proof {
                        lemma_view_object(hmap);
                    }
                    return Ok(ReaderElement::KeyValueObject(hmap));
                } else {
                    return Err(ParseError::BadSeparator);
                }
            },
        }
    }
}

/// Reads the value that starts at the next byte that is no whitespace;
/// null where there is no such byte.
pub fn parse_one_element(
    chan: &mut BuffChannel,
    reals: &Vec<Option<Real64>>,
    scanning: bool,
    found: &mut Vec<Vec<u8>>,
) -> (r: Result<ReaderElement, ParseError>)
    requires
        old(chan).wf(),
    ensures
        final(chan).wf(),
        final(chan).unread().len() <= old(chan).unread().len(),
        ({
            let o = text_element(
                old(chan).unread(),
                readings_for(reals@, scanning),
                texts_of(old(found)@),
            );
            &&& texts_of(final(found)@) == o.found
            &&& match o.result {
                Ok(v) => r is Ok && r->Ok_0@ == v.0 && final(chan).unread() == v.1,
                Err(x) => r is Err && r->Err_0 == x,
            }
        }),
    decreases old(chan).unread().len(), 0nat,
{
    match chan.peek_skip_whitespaces() {
        None => Ok(ReaderElement::Null),
        Some(c) => {
            if c == 0x5b {
                let _ = chan.consume();
                parse_array(chan, reals, scanning, found)
            } else if is_ascii_digit(c) || c == 0x2e || c == 0x2d || c == 0x2b {
                parse_number(chan, reals, scanning, found)
            } else if is_ascii_alphabetic(c) {
                parse_keyword(chan, Ghost(texts_of(found@)))
            } else if c == 0x7b {
                let _ = chan.consume();
                parse_object(chan, reals, scanning, found)
            } else if c == 0x22 {
                let _ = chan.consume();
                parse_text(chan, Ghost(texts_of(found@)))
            } else {
                Err(ParseError::UnexpectedByte)
            }
        },
    }
}

/// The size of the chunks in which a text is taken in.
pub const TEXT_CHUNK: usize = 1024 * 128;

/// Decodes a text whose first byte was read already.
pub fn parse_ascii_first_byte_separately(
    first_byte: u8,
    input: &[u8],
    reals: &Vec<Option<Real64>>,
) -> (r: Result<ReaderElement, ParseError>)
    ensures
        match text_decoding(seq![first_byte] + input@, reals@) {
            Ok(v) => r is Ok && r->Ok_0@ == v && well_formed(v),
            Err(x) => r is Err && r->Err_0 == x,
        },
{
    let mut whole: Vec<u8> = Vec::new();
    whole.push(first_byte);
    whole.extend_from_slice(input);
    assert(whole@ =~= seq![first_byte] + input@);
    parse_ascii(whole.as_slice(), reals)
}

/// Decodes a text. `reals` tells what each number of the text that is no
/// integer reads as, in the order in which they stand (`real_literals`
/// lists them); a number without a reading is an error.
pub fn parse_ascii(input: &[u8], reals: &Vec<Option<Real64>>) -> (r: Result<
    ReaderElement,
    ParseError,
>)
    ensures
        match text_decoding(input@, reals@) {
            Ok(v) => r is Ok && r->Ok_0@ == v && well_formed(v),
            Err(x) => r is Err && r->Err_0 == x,
        },
{
    proof {
        lemma_decoding_well_formed(input@, reals@);
    }
    let mut chan = BuffChannel::new(input, TEXT_CHUNK, 0);
    let mut found: Vec<Vec<u8>> = Vec::new();
    assert(texts_of(found@) =~= Seq::<Seq<u8>>::empty());
    parse_one_element(&mut chan, reals, false, &mut found)
}

/// The numbers of a text that are no integers, as they stand in it, up
/// to its end or to the first error in how it is built.
pub fn real_literals(input: &[u8]) -> (r: Vec<Vec<u8>>)
    ensures
        texts_of(r@) == text_reals(input@),
{
    let mut chan = BuffChannel::new(input, TEXT_CHUNK, 0);
    let mut found: Vec<Vec<u8>> = Vec::new();
    let reals: Vec<Option<Real64>> = Vec::new();
    assert(texts_of(found@) =~= Seq::<Seq<u8>>::empty());
    let _ = parse_one_element(&mut chan, &reals, true, &mut found);
    found
}

} // verus!
