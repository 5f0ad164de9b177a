use vstd::prelude::*;

verus! {

/// Why reading or writing a DNS message failed.
#[derive(Debug, Clone, Copy, PartialEq, Eq, Structural)]
pub enum DnsError {
    /// A read or write would reach past the end of the 512-byte buffer.
    BufferOverflow,
    /// A name label is not valid UTF-8.
    InvalidUtf8Label,
    /// The response code in a header is not one of the known codes.
    InvalidResultCode(u8),
    /// A name to be written holds a label longer than 63 bytes.
    LabelTooLong,
    /// Name compression pointers lead round in a circle.
    PointerLoop,
}

} // verus!
