//! Why a number could not be formatted.

use vstd::prelude::*;

verus! {

/// Why a number could not be formatted.
#[derive(Clone, Copy, Debug, PartialEq, Eq, Structural)]
pub enum FormatError {
    /// The radix is not between 2 and 36.
    InvalidRadix,
    /// The table is not the digit-pair table of the radix.
    InvalidTable,
    /// The value is not a positive, finite float.
    InvalidValue,
    /// The digits do not fit the notation of the value.
    InvalidDigits,
    /// The buffer is too small for the text.
    BufferTooSmall,
    /// There is no room for one digit more while the digits are produced.
    TooManyDigits,
}

} // verus!
