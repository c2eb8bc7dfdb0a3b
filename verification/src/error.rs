//! The error taxonomy of the codec.
//!
//! Every decoding entry point reports failure through one of these kinds;
//! no operation ever returns a partially decoded value.

use vstd::prelude::*;

verus! {

/// The kinds of failure a decode can report.
#[derive(Clone, Copy, Debug, PartialEq, Eq, Hash, Structural)]
pub enum Error {
    /// A decoded byte length does not match a fixed-length field's width.
    ParseBytes,
    /// A hexadecimal digit sequence does not parse as the target integer
    /// width: empty, an invalid digit, or overflow.
    ParseUint,
    /// A textual payload after the prefix has odd length or a non-hex digit.
    FromHex,
    /// Textual input lacks the required `0x`/`0X` prefix.
    HexPrefix,
    /// An enumeration tag byte lies outside its defined set.
    InvalidTag,
}

impl Error {
    /// A human-readable description of the error kind.
    pub fn message(&self) -> &'static str {
        match self {
            Error::ParseBytes => "Parse Bytes error",
            Error::ParseUint => "Parse Uint error",
            Error::FromHex => "Parse from hex error",
            Error::HexPrefix => "Invalid hex prefix",
            Error::InvalidTag => "Invalid tag byte",
        }
    }
}

} // verus!
