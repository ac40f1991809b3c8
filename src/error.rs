use vstd::prelude::*;

verus! {

/// Why a message could not be built or decoded.
#[derive(Debug, Clone, Copy, PartialEq, Eq, Structural)]
pub enum DnsError {
    /// Fewer bytes remain than a field or section needs.
    TruncatedInput,
    /// The bytes of a name are not valid UTF-8 text.
    InvalidEncoding,
    /// Following a name's compression pointers comes back to an offset already entered.
    CompressionLoop,
    /// A label of a domain name to encode is longer than 63 bytes.
    LabelTooLong,
}

} // verus!
