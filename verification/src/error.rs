//! Every failure the library reports.
use vstd::prelude::*;

verus! {

/// Every error the codec can produce.
///
/// The variants are granular, so that callers can match on a failure mode.
#[derive(Debug)]
pub enum DelpError {
    /// `symbol_size` was zero or larger than 65 535 bytes.
    InvalidSymbolSize(usize),
    /// `window_capacity` was zero, or too large for the matrix strategy.
    InvalidWindowCapacity,
    /// The denominator of the FEC rate was zero.
    InvalidFecDenom,
    /// A submitted payload does not have the negotiated `symbol_size`.
    SymbolSizeMismatch { expected: usize, actual: usize },
    /// The encoding window is full and the backpressure mode is `Reject`.
    WindowFull { capacity: usize },
    /// The space of source symbol ids is used up.
    SourceIdExhausted,
    /// All coded ids of the matrix strategy are used up.
    CodedIdExhausted { used: u32 },
    /// A gap in the delivery sequence cannot be recovered any more, because the
    /// encoder has evicted the symbols from its window.
    UnrecoverableGap { first_missing: u32 },
    /// The buffer is shorter than what has to be read from it.
    BufferTooShort { needed: usize, available: usize },
    /// The version field is not 1.
    UnsupportedVersion(u8),
    /// The `PKT_TYPE` field carries an undefined value.
    UnknownPacketType(u8),
    /// The `HDR_LEN` field does not fit the buffer or the packet type.
    InvalidHeaderLength { hdr_len_words: u8, packet_len: usize },
    /// The `EV_LEN` field implies an encoding vector longer than the packet.
    EncodingVectorOverflow { ev_len_words: u8 },
    /// A field of the encoding vector contradicts another one.
    MalformedEncodingVector { reason: &'static str },
    /// `NB_COEFS` does not fit the `C` bit.
    CoefficientFieldInconsistency,
    /// Division by zero in a Galois field.
    DivisionByZero,
}

/// A result with the library's own error.
pub type Result<T, E = DelpError> = core::result::Result<T, E>;

} // verus!
