//! The textual encoding, stated over sequences of bytes.
//!
//! A real number is written in decimal. To turn decimal digits into a
//! binary64 number is not done here: the caller hands in, for each number
//! that is no integer, in the order in which they stand, what it reads
//! as. Everything in this file is specification.

use vstd::prelude::*;
use crate::errors::ParseError;
use crate::geo_parsing::parsing_ascii::lossy_text;
use crate::geo_struct::{object_insert, Real64, Value};

verus! {

/// Space, tab, line feed, form feed, carriage return.
pub open spec fn is_space(b: u8) -> bool {
    b == 0x20 || b == 0x09 || b == 0x0a || b == 0x0c || b == 0x0d
}

pub open spec fn is_digit(b: u8) -> bool {
    0x30 <= b <= 0x39
}

pub open spec fn is_letter(b: u8) -> bool {
    0x41 <= b <= 0x5a || 0x61 <= b <= 0x7a
}

/// A byte that can start a number: a digit, `.`, `-` or `+`.
pub open spec fn starts_number(b: u8) -> bool {
    is_digit(b) || b == 0x2e || b == 0x2d || b == 0x2b
}

/// A byte that a number goes on with: one that can start it, or `e`.
pub open spec fn in_number(b: u8) -> bool {
    starts_number(b) || b == 0x65
}

/// A byte that a keyword goes on with: a letter or a digit.
pub open spec fn in_keyword(b: u8) -> bool {
    is_letter(b) || is_digit(b)
}

/// `s` without the whitespace at its start.
pub open spec fn trimmed(s: Seq<u8>) -> Seq<u8>
    decreases s.len(),
{
    if s.len() > 0 && is_space(s[0]) {
        trimmed(s.skip(1))
    } else {
        s
    }
}

/// The number of bytes at the start of `s` that are all in numbers.
pub open spec fn number_length(s: Seq<u8>) -> nat
    decreases s.len(),
{
    if s.len() > 0 && in_number(s[0]) {
        1 + number_length(s.skip(1))
    } else {
        0
    }
}

/// The number of bytes at the start of `s` that are all in keywords.
pub open spec fn keyword_length(s: Seq<u8>) -> nat
    decreases s.len(),
{
    if s.len() > 0 && in_keyword(s[0]) {
        1 + keyword_length(s.skip(1))
    } else {
        0
    }
}

/// The number of bytes before the quote that ends a string. A backslash
/// takes the byte after it along, whatever it is. `escaped` says that
/// the byte before `s` was such a backslash. Without a closing quote the
/// result is the length of `s`.
pub open spec fn string_length(s: Seq<u8>, escaped: bool) -> nat
    decreases s.len(),
{
    if s.len() == 0 {
        0
    } else if escaped {
        1 + string_length(s.skip(1), false)
    } else if s[0] == 0x5c {
        1 + string_length(s.skip(1), true)
    } else if s[0] == 0x22 {
        0
    } else {
        1 + string_length(s.skip(1), false)
    }
}

/// The number that decimal digits stand for, if all of `d` are digits.
pub open spec fn digits_value(d: Seq<u8>) -> Option<nat>
    decreases d.len(),
{
    if d.len() == 0 {
        Some(0)
    } else if !is_digit(d.last()) {
        None
    } else {
        match digits_value(d.drop_last()) {
            None => None,
            Some(n) => Some(n * 10 + (d.last() - 0x30) as nat),
        }
    }
}

/// The 64-bit integer that `t` reads as: an optional sign and one digit
/// or more, within the range of the type.
pub open spec fn integer_literal(t: Seq<u8>) -> Option<i64> {
    if t.len() == 0 {
        None
    } else if t[0] == 0x2d {
        match digits_value(t.skip(1)) {
            Some(n) => if t.len() > 1 && n <= 0x8000_0000_0000_0000 {
                Some((-(n as int)) as i64)
            } else {
                None
            },
            None => None,
        }
    } else if t[0] == 0x2b {
        match digits_value(t.skip(1)) {
            Some(n) => if t.len() > 1 && n <= 0x7fff_ffff_ffff_ffff {
                Some(n as i64)
            } else {
                None
            },
            None => None,
        }
    } else {
        match digits_value(t) {
            Some(n) => if n <= 0x7fff_ffff_ffff_ffff {
                Some(n as i64)
            } else {
                None
            },
            None => None,
        }
    }
}

/// What a number reads as: the caller's reading of number `k` that is
/// no integer, counted from 0 in the order in which they stand.
pub type Readings = spec_fn(int) -> Option<Real64>;

/// How far a decode came and what it made: the numbers that are no
/// integers, as they were met up to the end or the first error, and
/// either the value with the bytes after it, or the error.
pub struct TextOutcome {
    pub found: Seq<Seq<u8>>,
    pub result: Result<(Value, Seq<u8>), ParseError>,
}

pub open spec fn fail(found: Seq<Seq<u8>>, error: ParseError) -> TextOutcome {
    TextOutcome { found, result: Err(error) }
}

pub open spec fn done(found: Seq<Seq<u8>>, value: Value, rest: Seq<u8>) -> TextOutcome {
    TextOutcome { found, result: Ok((value, rest)) }
}

/// The number at the start of `s`. A number ends before the first byte
/// that is not in numbers; there must be such a byte.
pub open spec fn text_number(s: Seq<u8>, readings: Readings, found: Seq<Seq<u8>>) -> TextOutcome {
    let n = number_length(s);
    let t = s.take(n as int);
    if n >= s.len() {
        fail(found, ParseError::UnexpectedEnd)
    } else {
        match integer_literal(t) {
            Some(i) => done(found, Value::Int(i), s.skip(n as int)),
            None => match readings(found.len() as int) {
                Some(r) => done(found.push(t), Value::Real(r), s.skip(n as int)),
                None => fail(found.push(t), ParseError::BadNumber),
            },
        }
    }
}

/// The keyword at the start of `s`: `true` or `false`. A keyword ends
/// before the first byte that is neither letter nor digit; there must be
/// such a byte.
pub open spec fn text_keyword(s: Seq<u8>, found: Seq<Seq<u8>>) -> TextOutcome {
    let n = keyword_length(s);
    let t = s.take(n as int);
    if n >= s.len() {
        fail(found, ParseError::UnexpectedEnd)
    } else if t =~= seq![0x74u8, 0x72u8, 0x75u8, 0x65u8] {
        done(found, Value::Bool(true), s.skip(n as int))
    } else if t =~= seq![0x66u8, 0x61u8, 0x6cu8, 0x73u8, 0x65u8] {
        done(found, Value::Bool(false), s.skip(n as int))
    } else {
        fail(found, ParseError::UnknownKeyword)
    }
}

/// The string whose opening quote stood before `s`.
pub open spec fn text_string(s: Seq<u8>, found: Seq<Seq<u8>>) -> TextOutcome {
    let n = string_length(s, false);
    if n >= s.len() {
        fail(found, ParseError::UnexpectedEnd)
    } else {
        done(found, Value::Text(lossy_text(s.take(n as int))), s.skip(n as int + 1))
    }
}

/// The value at the start of `s`, after whitespace. Where nothing but
/// whitespace is left, the value is null.
///
/// (A value that is not null takes at least one byte, so the tests on
/// the length of what is left never fail: they make termination
/// evident.)
pub open spec fn text_element(s: Seq<u8>, readings: Readings, found: Seq<Seq<u8>>) -> TextOutcome
    decreases s.len(), 0nat,
{
    let t = trimmed(s);
    if t.len() == 0 {
        done(found, Value::Null, t)
    } else if t.len() > s.len() {
        fail(found, ParseError::UnexpectedEnd)
    } else if t[0] == 0x5b {
        text_array(t.skip(1), readings, found)
    } else if starts_number(t[0]) {
        text_number(t, readings, found)
    } else if is_letter(t[0]) {
        text_keyword(t, found)
    } else if t[0] == 0x7b {
        text_object(t.skip(1), readings, found)
    } else if t[0] == 0x22 {
        text_string(t.skip(1), found)
    } else {
        fail(found, ParseError::UnexpectedByte)
    }
}

/// The array whose opening bracket stood before `s`.
pub open spec fn text_array(s: Seq<u8>, readings: Readings, found: Seq<Seq<u8>>) -> TextOutcome
    decreases s.len(), 2nat,
{
    let t = trimmed(s);
    if t.len() == 0 {
        fail(found, ParseError::UnexpectedEnd)
    } else if t.len() > s.len() {
        fail(found, ParseError::UnexpectedEnd)
    } else if t[0] == 0x5d {
        done(found, Value::Array(Seq::empty()), t.skip(1))
    } else {
        text_members(t, readings, found, Seq::empty())
    }
}

/// The members of an array from the start of `s` to the closing
/// bracket, after the members `acc`. Members are set apart by commas;
/// after the last one stands no comma.
pub open spec fn text_members(
    s: Seq<u8>,
    readings: Readings,
    found: Seq<Seq<u8>>,
    acc: Seq<Value>,
) -> TextOutcome
    decreases s.len(), 1nat,
{
    let m = text_element(s, readings, found);
    match m.result {
        Err(x) => m,
        Ok((v, rest)) => {
            let t = trimmed(rest);
            if t.len() == 0 {
                fail(m.found, ParseError::UnexpectedEnd)
            } else if t.len() > s.len() {
                fail(m.found, ParseError::UnexpectedEnd)
            } else if t[0] == 0x2c {
                text_members(t.skip(1), readings, m.found, acc.push(v))
            } else if t[0] == 0x5d {
                done(m.found, Value::Array(acc.push(v)), t.skip(1))
            } else {
                fail(m.found, ParseError::BadSeparator)
            }
        },
    }
}

/// The object whose opening brace stood before `s`.
pub open spec fn text_object(s: Seq<u8>, readings: Readings, found: Seq<Seq<u8>>) -> TextOutcome
    decreases s.len(), 2nat,
{
    let t = trimmed(s);
    if t.len() == 0 {
        fail(found, ParseError::UnexpectedEnd)
    } else if t.len() > s.len() {
        fail(found, ParseError::UnexpectedEnd)
    } else if t[0] == 0x7d {
        done(found, Value::Object(Seq::empty()), t.skip(1))
    } else {
        text_entries(t, readings, found, Seq::empty())
    }
}

/// The entries of an object from the start of `s` to the closing brace,
/// after the entries `acc`. An entry is a key, a colon and a value; the
/// key must be a string, which is looked at once the value was read. A
/// key that was read before gets the later value.
pub open spec fn text_entries(
    s: Seq<u8>,
    readings: Readings,
    found: Seq<Seq<u8>>,
    acc: Seq<(Seq<char>, Value)>,
) -> TextOutcome
    decreases s.len(), 1nat,
{
    let k = text_element(s, readings, found);
    match k.result {
        Err(x) => k,
        Ok((key, after_key)) => {
            let t = trimmed(after_key);
            if t.len() == 0 {
                fail(k.found, ParseError::UnexpectedEnd)
            } else if t.len() > s.len() {
                fail(k.found, ParseError::UnexpectedEnd)
            } else if t[0] != 0x3a {
                fail(k.found, ParseError::BadKey)
            } else {
                let m = text_element(t.skip(1), readings, k.found);
                match m.result {
                    Err(x) => m,
                    Ok((v, rest)) => match key {
                        Value::Text(name) => {
                            let u = trimmed(rest);
                            if u.len() == 0 {
                                fail(m.found, ParseError::UnexpectedEnd)
                            } else if u.len() >= t.len() {
                                fail(m.found, ParseError::UnexpectedEnd)
                            } else if u[0] == 0x2c {
                                text_entries(
                                    u.skip(1),
                                    readings,
                                    m.found,
                                    object_insert(acc, name, v),
                                )
                            } else if u[0] == 0x7d {
                                done(
                                    m.found,
                                    Value::Object(object_insert(acc, name, v)),
                                    u.skip(1),
                                )
                            } else {
                                fail(m.found, ParseError::BadSeparator)
                            }
                        },
                        _ => fail(m.found, ParseError::BadKey),
                    },
                }
            }
        },
    }
}

/// The readings that a list gives: reading `k` is item `k`, and beyond
/// the list there is none.
pub open spec fn readings_of(reals: Seq<Option<Real64>>) -> Readings {
    |k: int|
        if 0 <= k < reals.len() {
            reals[k]
        } else {
            None
        }
}

/// Readings that take every number for zero.
pub open spec fn any_reading() -> Readings {
    |k: int| Some(Real64 { bits: 0 })
}

/// The readings that a decode goes by: those of a list, or, where the
/// numbers are only looked for, zero for each.
pub open spec fn readings_for(reals: Seq<Option<Real64>>, scanning: bool) -> Readings {
    if scanning {
        any_reading()
    } else {
        readings_of(reals)
    }
}

/// The tree that a text holds, by the readings given for its numbers
/// that are no integers. What follows the value is not looked at.
pub open spec fn text_decoding(s: Seq<u8>, reals: Seq<Option<Real64>>) -> Result<
    Value,
    ParseError,
> {
    match text_element(s, readings_of(reals), Seq::empty()).result {
        Ok((v, rest)) => Ok(v),
        Err(x) => Err(x),
    }
}

/// The numbers of a text that are no integers, as they stand in it, up
/// to its end or to the first error in how it is built.
pub open spec fn text_reals(s: Seq<u8>) -> Seq<Seq<u8>> {
    text_element(s, any_reading(), Seq::empty()).found
}

} // verus!
