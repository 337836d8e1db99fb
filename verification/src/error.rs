use vstd::prelude::*;

verus! {

/// Everything that can go wrong while a message is decoded, encoded or
/// resolved.
#[derive(Debug, Clone, Copy, PartialEq, Eq, Structural)]
pub enum DnsError {
    /// A read or write would have touched a byte at or beyond the end of the
    /// buffer.
    OutOfBounds,
    /// A name took more than the allowed number of compression jumps.
    PointerLoopLimit,
    /// A label of a name to be written is longer than 63 bytes.
    LabelTooLong,
    /// A record's declared data length does not fit its type.
    MalformedRecord,
    /// A query could not be sent to, or answered by, an upstream server.
    UpstreamIo,
    /// The resolver used up its allowance of upstream queries.
    BudgetExhausted,
}

} // verus!
