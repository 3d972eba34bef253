//! The error taxonomy shared by every construction and codec boundary.
//! Construction fails fast: either every field of a result is populated
//! consistently, or one of these errors comes back and no value is built.

use vstd::prelude::*;

verus! {

/// Why a script, address or transaction could not be built or decoded.
#[derive(Clone, Copy, Debug, PartialEq, Eq, Structural)]
pub enum Error {
    /// A digest handed to the script builder has the wrong length.
    InvalidDigestLength,
    /// A zero-length preimage was offered as redeem data.
    EmptyPreimage,
    /// An input exceeds the ledger's standard maximum size.
    OversizedInput,
    /// A string is not valid hexadecimal.
    InvalidHexEncoding,
    /// The script form has no defined address encoding.
    UnsupportedScript,
    /// Bytes do not follow the expected encoding.
    InvalidEncoding,
    /// An address string failed checksum or prefix validation.
    MalformedAddress,
    /// The referenced transaction has no outputs.
    NoPriorOutput,
    /// The amount to spend exceeds the funded value.
    InsufficientFunds,
    /// The residual change value would be negative.
    ValueConservationViolation,
}

} // verus!
