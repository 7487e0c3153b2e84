//! Radix-general number formatting, verified.
//!
//! Numbers are written in any radix from 2 to 36, into a buffer of the
//! caller and independent of locale:
//!
//! - `float`, `arith`, `native`: an extended-precision float, `frac * 2^exp`
//!   with a 64-bit fraction, its arithmetic, and its conversions from and to
//!   the bit patterns of native floats;
//! - `cached`, `powers`: a table of powers of ten in that representation,
//!   the lookup of the power for a binary exponent, and the proof that each
//!   entry is the power of ten it is named for;
//! - `digits`, `itoa`: digit strings, and the writer of unsigned integers of
//!   up to 128 bits;
//! - `ftoa`, `buffer`: the layout of the digits of a float, in fixed or
//!   scientific notation, with round-to-even and carry propagation, and the
//!   buffer that holds the digits while they are produced;
//! - `error`: why a number could not be formatted.
//!
//! Floating-point values themselves do not occur here: a native float is
//! handled as the integer that holds its bits.

pub mod arith;
pub mod buffer;
pub mod cached;
pub mod digits;
pub mod error;
pub mod float;
pub mod ftoa;
pub mod itoa;
pub mod native;
pub mod powers;
