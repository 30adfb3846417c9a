use vstd::prelude::*;

verus! {

/// The ways in which decoding or encoding a DNS message can fail.
#[derive(Debug, Clone, Copy, PartialEq, Eq, Structural)]
pub enum DnsError {
    /// A field or structure runs past the end of the buffer.
    TruncatedInput,
    /// A label-length byte lies in the reserved range 64..=191.
    InvalidLabelLength,
    /// A chain of compression pointers is longer than the hop limit.
    CompressionLoop,
    /// A name to encode holds an empty label.
    EmptyLabel,
    /// A label to encode is longer than 63 bytes.
    LabelTooLong,
    /// An encoded name would be longer than 255 bytes.
    NameTooLong,
    /// Record data to encode is longer than 65535 bytes.
    DataTooLong,
    /// A section holds more than 65535 entries.
    TooManyEntries,
}

} // verus!
