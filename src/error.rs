use vstd::prelude::*;

verus! {

/// Every failure that the library reports to its caller.
#[derive(Debug, PartialEq, Eq)]
pub enum GitError {
    /// A read went past the end of a buffer.
    Exhausted,
    /// An encoded object does not have the canonical structure.
    MalformedObject,
    /// No stored object has the requested id.
    ObjectNotFound,
    /// A stored object could not be inflated or decoded.
    CorruptObject,
    /// An encoded object names a kind that this library does not decode.
    UnsupportedKind,
    /// A variable-length integer runs longer than the library accepts.
    VarintOverflow,
    /// A pack entry carries a type tag outside the known set.
    UnknownPackObjectType,
    /// A delta names a base that was not resolved before it.
    UnknownDeltaBase,
    /// A delta's declared lengths do not match what it produces or uses.
    DeltaLengthMismatch,
    /// A delta's instruction stream is invalid.
    MalformedDelta,
    /// A pack stream has a bad header or ends before all its entries.
    TruncatedPack,
    /// A pkt-line has a bad length prefix.
    MalformedPktLine,
    /// A sideband line uses a channel other than data, progress or error.
    UnknownSidebandChannel,
    /// The remote reported a fatal error; the message bytes are kept.
    RemoteError(Vec<u8>),
}

} // verus!
