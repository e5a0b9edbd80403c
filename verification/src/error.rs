//! The ways in which decoding can fail.

use vstd::prelude::*;

verus! {

/// Why a decode stopped without producing a value.
#[derive(Debug, Clone, Copy, PartialEq, Eq, Hash)]
pub enum DecodeError {
    /// The input ended before a header, a continuation byte or a payload
    /// was complete, or a length was announced that no machine word holds.
    UnexpectedEof,
    /// The bytes break a structural rule: a record key that is not text, a code
    /// point that is no Unicode scalar value, or the reserved tag `111`.
    InvalidData,
    /// The bytes ask for something this codec does not provide: a decimal
    /// float, a reserved pattern under the boolean tag, an integer that 128
    /// bits do not hold, or a blob too large for a bit vector on this machine.
    Unsupported,
    /// Arrays and records are nested deeper than the decoder was allowed to
    /// follow them.
    TooDeep,
}

} // verus!
