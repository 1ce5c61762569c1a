//! Why a decode was abandoned.

use vstd::prelude::*;

verus! {

/// The first fatal condition met while decoding. A decode stops at the
/// first one; nothing is recovered.
#[derive(Clone, Copy, Debug, PartialEq, Eq, Structural)]
pub enum ParseError {
    /// The input ends where more bytes are required.
    UnexpectedEnd,
    /// A binary stream does not start with the format marker.
    BadMagic,
    /// The four bytes after the format marker select no byte order.
    UnrecognizedMagic,
    /// A length starts with a marker byte that announces no width.
    BadLengthMarker,
    /// The bytes of a binary string are not valid UTF-8.
    MalformedUtf8,
    /// A token is referenced or undefined that is not in the table.
    UndefinedToken,
    /// A type tag that is unknown, or that may not stand where it was met.
    UnexpectedToken,
    /// A uniform array of strings or of token references.
    NotImplemented,
    /// Text: a byte that starts no value.
    UnexpectedByte,
    /// Text: a bare word other than `true` and `false`.
    UnknownKeyword,
    /// Text: a number that reads neither as an integer nor as a real.
    BadNumber,
    /// Text: something other than `,` or the closing bracket after a member.
    BadSeparator,
    /// Text: an object key that is not a string, or no `:` after it.
    BadKey,
}

} // verus!
