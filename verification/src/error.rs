//! The faults of reading a varint.

use vstd::prelude::*;

verus! {

/// Why a varint could not be read.
#[derive(Debug, Clone, Copy, PartialEq, Eq, Structural)]
pub enum Error {
    /// The encoding goes on beyond what 64 bits can hold: nine bytes
    /// continue and the tenth is not `0x01`.
    LengthExceeded,
    /// The source ended before the value did.
    Truncated,
    /// The value was read, and does not fit the narrower integer asked for.
    WidthExceeded,
}

impl Error {
    /// The text for each fault.
    pub open spec fn message(self) -> Seq<char> {
        match self {
            Error::LengthExceeded => "varint exceeded allowed length"@,
            Error::Truncated => "varint ended before its last byte"@,
            Error::WidthExceeded => "varint exceeded usize maximum bits"@,
        }
    }

    /// A short description of the fault.
    pub fn description(&self) -> (text: &'static str)
        ensures
            text@ == self.message(),
    {
        match *self {
            Error::LengthExceeded => "varint exceeded allowed length",
            Error::Truncated => "varint ended before its last byte",
            Error::WidthExceeded => "varint exceeded usize maximum bits",
        }
    }
}

} // verus!
