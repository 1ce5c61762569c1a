//! Conversions between the scalar types of attribute storage.

use vstd::prelude::*;
use crate::bgeo_format::widened;
use crate::geo_struct::{Real32, Real64};
use crate::ieee::{
    double_to_int, double_to_unsigned, from_int, int_to_double, to_int, to_unsigned, widen,
};

verus! {

/// A type that every scalar of attribute storage converts to, as a cast
/// between numbers does: an integer is widened; a real is cut down to an
/// integer, or rounded from one.
pub trait ConvertFromAll<T>: Sized {
    /// What `val` converts to.
    spec fn converted(val: T) -> Self;

    fn convert_from(val: T) -> (r: Self)
        ensures
            r == Self::converted(val),
    ;
}

/// A binary64 number cut down to the range of `usize`.
pub open spec fn double_to_size(bits: int) -> usize {
    if double_to_unsigned(bits) > usize::MAX {
        usize::MAX
    } else {
        double_to_unsigned(bits) as usize
    }
}

/// Cuts a binary64 number down to the range of `usize`.
pub fn to_size(x: Real64) -> (r: usize)
    ensures
        r == double_to_size(x.bits as int),
{
    let u: u64 = to_unsigned(x);
    if u > usize::MAX as u64 {
        usize::MAX
    } else {
        u as usize
    }
}

impl ConvertFromAll<i8> for i64 {
    open spec fn converted(val: i8) -> i64 {
        val as i64
    }

    fn convert_from(val: i8) -> (r: i64) {
        val as i64
    }
}

impl ConvertFromAll<i16> for i64 {
    open spec fn converted(val: i16) -> i64 {
        val as i64
    }

    fn convert_from(val: i16) -> (r: i64) {
        val as i64
    }
}

impl ConvertFromAll<i32> for i64 {
    open spec fn converted(val: i32) -> i64 {
        val as i64
    }

    fn convert_from(val: i32) -> (r: i64) {
        val as i64
    }
}

impl ConvertFromAll<i64> for i64 {
    open spec fn converted(val: i64) -> i64 {
        val as i64
    }

    fn convert_from(val: i64) -> (r: i64) {
        val as i64
    }
}

impl ConvertFromAll<u8> for i64 {
    open spec fn converted(val: u8) -> i64 {
        val as i64
    }

    fn convert_from(val: u8) -> (r: i64) {
        val as i64
    }
}

impl ConvertFromAll<u16> for i64 {
    open spec fn converted(val: u16) -> i64 {
        val as i64
    }

    fn convert_from(val: u16) -> (r: i64) {
        val as i64
    }
}

impl ConvertFromAll<Real32> for i64 {
    open spec fn converted(val: Real32) -> i64 {
        double_to_int(widened(val).bits as int) as i64
    }

    fn convert_from(val: Real32) -> (r: i64) {
        to_int(widen(val))
    }
}

impl ConvertFromAll<Real64> for i64 {
    open spec fn converted(val: Real64) -> i64 {
        double_to_int(val.bits as int) as i64
    }

    fn convert_from(val: Real64) -> (r: i64) {
        to_int(val)
    }
}

impl ConvertFromAll<i8> for Real64 {
    open spec fn converted(val: i8) -> Real64 {
        Real64 { bits: int_to_double(val as int) as u64 }
    }

    fn convert_from(val: i8) -> (r: Real64) {
        from_int(val as i64)
    }
}

impl ConvertFromAll<i16> for Real64 {
    open spec fn converted(val: i16) -> Real64 {
        Real64 { bits: int_to_double(val as int) as u64 }
    }

    fn convert_from(val: i16) -> (r: Real64) {
        from_int(val as i64)
    }
}

impl ConvertFromAll<i32> for Real64 {
    open spec fn converted(val: i32) -> Real64 {
        Real64 { bits: int_to_double(val as int) as u64 }
    }

    fn convert_from(val: i32) -> (r: Real64) {
        from_int(val as i64)
    }
}

impl ConvertFromAll<i64> for Real64 {
    open spec fn converted(val: i64) -> Real64 {
        Real64 { bits: int_to_double(val as int) as u64 }
    }

    fn convert_from(val: i64) -> (r: Real64) {
        from_int(val as i64)
    }
}

impl ConvertFromAll<u8> for Real64 {
    open spec fn converted(val: u8) -> Real64 {
        Real64 { bits: int_to_double(val as int) as u64 }
    }

    fn convert_from(val: u8) -> (r: Real64) {
        from_int(val as i64)
    }
}

impl ConvertFromAll<u16> for Real64 {
    open spec fn converted(val: u16) -> Real64 {
        Real64 { bits: int_to_double(val as int) as u64 }
    }

    fn convert_from(val: u16) -> (r: Real64) {
        from_int(val as i64)
    }
}

impl ConvertFromAll<Real32> for Real64 {
    open spec fn converted(val: Real32) -> Real64 {
        widened(val)
    }

    fn convert_from(val: Real32) -> (r: Real64) {
        widen(val)
    }
}

impl ConvertFromAll<Real64> for Real64 {
    open spec fn converted(val: Real64) -> Real64 {
        val
    }

    fn convert_from(val: Real64) -> (r: Real64) {
        val
    }
}

impl ConvertFromAll<i8> for usize {
    open spec fn converted(val: i8) -> usize {
        val as usize
    }

    fn convert_from(val: i8) -> (r: usize) {
        #[verifier::truncate]
        (val as usize)
    }
}

impl ConvertFromAll<i16> for usize {
    open spec fn converted(val: i16) -> usize {
        val as usize
    }

    fn convert_from(val: i16) -> (r: usize) {
        #[verifier::truncate]
        (val as usize)
    }
}

impl ConvertFromAll<i32> for usize {
    open spec fn converted(val: i32) -> usize {
        val as usize
    }

    fn convert_from(val: i32) -> (r: usize) {
        #[verifier::truncate]
        (val as usize)
    }
}

impl ConvertFromAll<i64> for usize {
    open spec fn converted(val: i64) -> usize {
        val as usize
    }

    fn convert_from(val: i64) -> (r: usize) {
        #[verifier::truncate]
        (val as usize)
    }
}

impl ConvertFromAll<u8> for usize {
    open spec fn converted(val: u8) -> usize {
        val as usize
    }

    fn convert_from(val: u8) -> (r: usize) {
        val as usize
    }
}

impl ConvertFromAll<u16> for usize {
    open spec fn converted(val: u16) -> usize {
        val as usize
    }

    fn convert_from(val: u16) -> (r: usize) {
        val as usize
    }
}

impl ConvertFromAll<Real32> for usize {
    open spec fn converted(val: Real32) -> usize {
        double_to_size(widened(val).bits as int)
    }

    fn convert_from(val: Real32) -> (r: usize) {
        to_size(widen(val))
    }
}

impl ConvertFromAll<Real64> for usize {
    open spec fn converted(val: Real64) -> usize {
        double_to_size(val.bits as int)
    }

    fn convert_from(val: Real64) -> (r: usize) {
        to_size(val)
    }
}

} // verus!
