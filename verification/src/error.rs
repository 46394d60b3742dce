//! The ways in which decoding or encoding can fail.

use vstd::prelude::*;

verus! {

/// Why a decode or an encode was abandoned.
///
/// Any failure in a sub-field aborts the whole enclosing operation: there is
/// no partial result.
#[derive(Clone, Copy, Debug, PartialEq, Eq, Structural)]
pub enum DnsError {
    /// The buffer is shorter than a field requires.
    Truncated,
    /// A field holds a value that the format forbids: reserved header bits
    /// that are not zero, a length byte with one of its top two bits set that
    /// is no pointer, or an address record whose length is not 4.
    InvalidField,
    /// A record type other than address (1) and alias (5).
    Unsupported,
    /// Following compression pointers exceeded the allowed number of hops.
    PointerLoop,
    /// A label is longer than 63 bytes and cannot be encoded.
    LabelTooLong,
}

impl DnsError {
    /// A short description of the error, for reports to a user.
    pub fn message(&self) -> (s: &'static str)
        ensures
            s@ == match *self {
                DnsError::Truncated => "buffer is shorter than a field requires"@,
                DnsError::InvalidField => "a field holds a forbidden value"@,
                DnsError::Unsupported => "unsupported record type"@,
                DnsError::PointerLoop => "compression pointers do not terminate"@,
                DnsError::LabelTooLong => "label is longer than 63 bytes"@,
            },
    {
        match self {
            DnsError::Truncated => "buffer is shorter than a field requires",
            DnsError::InvalidField => "a field holds a forbidden value",
            DnsError::Unsupported => "unsupported record type",
            DnsError::PointerLoop => "compression pointers do not terminate",
            DnsError::LabelTooLong => "label is longer than 63 bytes",
        }
    }
}

} // verus!
