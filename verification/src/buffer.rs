//! The digits of a float while they are produced.
//!
//! The digits stand in a buffer of fixed size, with the point in its
//! middle: the integer digits are written from the point to the left, the
//! fraction digits from the point to the right. The buffer sees that every
//! byte between its two cursors is a digit of its radix, and hands the
//! digits to the writer.

use vstd::prelude::*;
use vstd::slice::slice_subrange;
use crate::digits::{char_digit, digit_char, digit_to_char};
use crate::error::FormatError;
use crate::ftoa::{
    all_digits,
    carried_digits,
    carries_out,
    float_format_error,
    float_text,
    format_float,
    is_fixed_text,
    is_float_text,
    is_scientific_text,
    lemma_carry_adds_one,
    lemma_float_text_shape,
    point_index,
    round_up_fraction,
    SCIENTIFIC_ABOVE,
    SCIENTIFIC_BELOW,
};

verus! {

/// The size of the buffer: 1024 digits for the exponent and 52 for the
/// mantissa to either side of the point, in radix 2, and some room.
pub const DIGIT_BUFFER_SIZE: usize = 2200;

/// Where the point stands in the buffer: in its middle.
pub const DIGIT_BUFFER_POINT: usize = 1100;

/// The digits of a float in a radix, around the point.
pub struct DigitBuffer {
    radix: u32,
    bytes: [u8; DIGIT_BUFFER_SIZE],
    integer_cursor: usize,
    fraction_cursor: usize,
}

impl DigitBuffer {
    /// The radix of the digits.
    pub closed spec fn radix(self) -> u32 {
        self.radix
    }

    /// The integer digits, most significant first.
    pub closed spec fn integer_digits(self) -> Seq<u8> {
        self.bytes@.subrange(self.integer_cursor as int, DIGIT_BUFFER_POINT as int)
    }

    /// The fraction digits, most significant first.
    pub closed spec fn fraction_digits(self) -> Seq<u8> {
        self.bytes@.subrange(DIGIT_BUFFER_POINT as int, self.fraction_cursor as int)
    }

    /// All the digits: the integer digits, then the fraction digits.
    pub open spec fn digit_sequence(self) -> Seq<u8> {
        self.integer_digits() + self.fraction_digits()
    }

    /// The radix is between 2 and 36, the cursors stand to either side of
    /// the point, and every byte between them is a digit of the radix.
    pub closed spec fn well_formed(self) -> bool {
        &&& 2 <= self.radix <= 36
        &&& self.integer_cursor <= DIGIT_BUFFER_POINT <= self.fraction_cursor <= DIGIT_BUFFER_SIZE
        &&& all_digits(
            self.bytes@.subrange(self.integer_cursor as int, self.fraction_cursor as int),
            self.radix as nat,
        )
    }

    /// Why a digit cannot be written, if it cannot: it is no digit of the
    /// radix, or there are `DIGIT_BUFFER_POINT` digits on its side already.
    pub open spec fn push_error(self, digit: u32, count: nat) -> Option<FormatError> {
        if digit >= self.radix() {
            Some(FormatError::InvalidDigits)
        } else if count >= DIGIT_BUFFER_POINT {
            Some(FormatError::TooManyDigits)
        } else {
            None
        }
    }

    /// What a well-formed buffer holds: digits of its radix, no more than
    /// `DIGIT_BUFFER_POINT` to either side.
    pub proof fn lemma_well_formed(self)
        requires
            self.well_formed(),
        ensures
            2 <= self.radix() <= 36,
            self.integer_digits().len() <= DIGIT_BUFFER_POINT,
            self.fraction_digits().len() <= DIGIT_BUFFER_POINT,
            all_digits(self.integer_digits(), self.radix() as nat),
            all_digits(self.fraction_digits(), self.radix() as nat),
            all_digits(self.digit_sequence(), self.radix() as nat),
    {
        let held = self.bytes@.subrange(self.integer_cursor as int, self.fraction_cursor as int);
        assert(self.digit_sequence() =~= held);
        assert forall|i: int| 0 <= i < self.integer_digits().len() implies 0 <= char_digit(
            #[trigger] self.integer_digits()[i],
        ) < self.radix by {
            assert(self.integer_digits()[i] == held[i]);
        }
        assert forall|i: int| 0 <= i < self.fraction_digits().len() implies 0 <= char_digit(
            #[trigger] self.fraction_digits()[i],
        ) < self.radix by {
            assert(self.fraction_digits()[i] == held[i + self.integer_digits().len()]);
        }
    }

    /// An empty buffer for the digits of `radix`, which must be between 2
    /// and 36.
    pub fn new(radix: u32) -> (r: Option<DigitBuffer>)
        ensures
            r is Some <==> 2 <= radix <= 36,
            r matches Some(buffer) ==> {
                &&& buffer.well_formed()
                &&& buffer.radix() == radix
                &&& buffer.integer_digits() == Seq::<u8>::empty()
                &&& buffer.fraction_digits() == Seq::<u8>::empty()
            },
    {
        if radix < 2 || radix > 36 {
            return None;
        }
        let buffer = DigitBuffer {
            radix,
            bytes: [0u8; DIGIT_BUFFER_SIZE],
            integer_cursor: DIGIT_BUFFER_POINT,
            fraction_cursor: DIGIT_BUFFER_POINT,
        };
        proof {
            let at = DIGIT_BUFFER_POINT as int;
            assert(buffer.bytes@.subrange(at, at) =~= Seq::<u8>::empty());
        }
        Some(buffer)
    }

    /// The number of integer digits.
    pub fn point(&self) -> (n: usize)
        requires
            self.well_formed(),
        ensures
            n == self.integer_digits().len(),
    {
        DIGIT_BUFFER_POINT - self.integer_cursor
    }

    /// All the digits: the integer digits, then the fraction digits.
    pub fn as_slice(&self) -> (all: &[u8])
        requires
            self.well_formed(),
        ensures
            all@ == self.digit_sequence(),
    {
        let whole: &[u8] = &self.bytes;
        let all: &[u8] = slice_subrange(whole, self.integer_cursor, self.fraction_cursor);
        assert(all@ =~= self.digit_sequence());
        all
    }

    /// Write the next fraction digit, behind those that are there.
    ///
    /// Fails, and leaves the buffer as it is, where `digit` is no digit of
    /// the radix or where there is no room behind the fraction digits.
    pub fn push_fraction_digit(&mut self, digit: u32) -> (r: Result<(), FormatError>)
        requires
            old(self).well_formed(),
        ensures
            final(self).well_formed(),
            final(self).radix() == old(self).radix(),
            final(self).integer_digits() == old(self).integer_digits(),
            match r {
                Ok(_) => {
                    &&& old(self).push_error(digit, old(self).fraction_digits().len()) is None
                    &&& final(self).fraction_digits() == old(self).fraction_digits().push(
                        digit_char(digit as int),
                    )
                },
                Err(e) => {
                    &&& old(self).push_error(digit, old(self).fraction_digits().len()) == Some(e)
                    &&& final(self).fraction_digits() == old(self).fraction_digits()
                },
            },
    {
        if digit >= self.radix {
            return Err(FormatError::InvalidDigits);
        }
        if self.fraction_cursor >= DIGIT_BUFFER_SIZE {
            return Err(FormatError::TooManyDigits);
        }
        let ghost before = self.bytes@;
        let ghost low = self.integer_cursor as int;
        let ghost high = self.fraction_cursor as int;
        let ghost point = DIGIT_BUFFER_POINT as int;
        self.bytes[self.fraction_cursor] = digit_to_char(digit);
        self.fraction_cursor = self.fraction_cursor + 1;
        proof {
            let held = self.bytes@.subrange(low, high + 1);
            assert forall|i: int| 0 <= i < held.len() implies 0 <= char_digit(#[trigger] held[i])
                < self.radix by {
                if i < high - low {
                    assert(held[i] == before.subrange(low, high)[i]);
                }
            }
            assert(self.bytes@.subrange(low, point) =~= before.subrange(low, point));
            assert(self.bytes@.subrange(point, high + 1) =~= before.subrange(point, high).push(
                digit_char(digit as int),
            ));
        }
        Ok(())
    }

    /// Write the next integer digit, before those that are there.
    ///
    /// Fails, and leaves the buffer as it is, where `digit` is no digit of
    /// the radix or where there is no room before the integer digits.
    pub fn push_integer_digit(&mut self, digit: u32) -> (r: Result<(), FormatError>)
        requires
            old(self).well_formed(),
        ensures
            final(self).well_formed(),
            final(self).radix() == old(self).radix(),
            final(self).fraction_digits() == old(self).fraction_digits(),
            match r {
                Ok(_) => {
                    &&& old(self).push_error(digit, old(self).integer_digits().len()) is None
                    &&& final(self).integer_digits() == seq![digit_char(digit as int)] + old(
                        self,
                    ).integer_digits()
                },
                Err(e) => {
                    &&& old(self).push_error(digit, old(self).integer_digits().len()) == Some(e)
                    &&& final(self).integer_digits() == old(self).integer_digits()
                },
            },
    {
        if digit >= self.radix {
            return Err(FormatError::InvalidDigits);
        }
        if self.integer_cursor == 0 {
            return Err(FormatError::TooManyDigits);
        }
        let ghost before = self.bytes@;
        let ghost low = self.integer_cursor as int;
        let ghost high = self.fraction_cursor as int;
        let ghost point = DIGIT_BUFFER_POINT as int;
        self.integer_cursor = self.integer_cursor - 1;
        self.bytes[self.integer_cursor] = digit_to_char(digit);
        proof {
            let held = self.bytes@.subrange(low - 1, high);
            assert forall|i: int| 0 <= i < held.len() implies 0 <= char_digit(#[trigger] held[i])
                < self.radix by {
                if i > 0 {
                    assert(held[i] == before.subrange(low, high)[i - 1]);
                }
            }
            assert(self.bytes@.subrange(point, high) =~= before.subrange(point, high));
            assert(self.bytes@.subrange(low - 1, point) =~= seq![digit_char(digit as int)]
                + before.subrange(low, point));
        }
        Ok(())
    }

    /// Round the fraction digits up by one at the last place.
    ///
    /// Returns `true` where the carry ripples through every fraction digit:
    /// then none is left, and the integer part is to be raised by one.
    pub fn round_up(&mut self) -> (carry: bool)
        requires
            old(self).well_formed(),
        ensures
            final(self).well_formed(),
            final(self).radix() == old(self).radix(),
            final(self).integer_digits() == old(self).integer_digits(),
            final(self).fraction_digits() == carried_digits(
                old(self).fraction_digits(),
                old(self).radix() as nat,
            ),
            carry == carries_out(old(self).fraction_digits(), old(self).radix() as nat),
    {
        let ghost before = self.bytes@;
        let ghost low = self.integer_cursor as int;
        let ghost high = self.fraction_cursor as int;
        let ghost point = DIGIT_BUFFER_POINT as int;
        proof {
            self.lemma_well_formed();
            lemma_carry_adds_one(self.fraction_digits(), self.radix as nat);
        }
        let (end, carry) = round_up_fraction(
            &mut self.bytes,
            DIGIT_BUFFER_POINT,
            self.fraction_cursor,
            self.radix,
        );
        self.fraction_cursor = end;
        proof {
            let carried = carried_digits(before.subrange(point, high), self.radix as nat);
            assert(self.bytes@.subrange(point, end as int) == carried);
            assert(self.bytes@.subrange(low, point) =~= before.subrange(low, point));
            let held = self.bytes@.subrange(low, end as int);
            assert forall|i: int| 0 <= i < held.len() implies 0 <= char_digit(#[trigger] held[i])
                < self.radix by {
                if i < point - low {
                    assert(held[i] == before.subrange(low, high)[i]);
                } else {
                    assert(held[i] == carried[i - (point - low)]);
                }
            }
        }
        carry
    }

    /// Write the float whose digits the buffer holds.
    ///
    /// `bits` is the bit pattern of the double; `exponent` is its exponent in
    /// the radix. The text is written at the start of `bytes`, and its length
    /// is returned: digits of the radix around one point, and in scientific
    /// notation the exponent behind them. Fails, and leaves `bytes` as it
    /// is, for what `format_float` fails for.
    pub fn write(&self, bits: u64, exponent: i32, bytes: &mut [u8]) -> (r: Result<
        usize,
        FormatError,
    >)
        requires
            self.well_formed(),
        ensures
            match r {
                Ok(count) => {
                    &&& float_format_error(
                        bits,
                        self.digit_sequence(),
                        self.integer_digits().len() as int,
                        exponent as int,
                        self.radix(),
                        old(bytes)@.len(),
                    ) is None
                    &&& count == float_text(
                        bits,
                        self.digit_sequence(),
                        self.integer_digits().len() as int,
                        exponent as int,
                        self.radix() as nat,
                    ).len()
                    &&& final(bytes)@ == float_text(
                        bits,
                        self.digit_sequence(),
                        self.integer_digits().len() as int,
                        exponent as int,
                        self.radix() as nat,
                    ) + old(bytes)@.subrange(count as int, old(bytes)@.len() as int)
                    &&& is_float_text(
                        float_text(
                            bits,
                            self.digit_sequence(),
                            self.integer_digits().len() as int,
                            exponent as int,
                            self.radix() as nat,
                        ),
                        self.radix() as nat,
                        point_index(bits, self.integer_digits().len() as int),
                    )
                    &&& bits <= SCIENTIFIC_BELOW || bits >= SCIENTIFIC_ABOVE ==> is_scientific_text(
                        float_text(
                            bits,
                            self.digit_sequence(),
                            self.integer_digits().len() as int,
                            exponent as int,
                            self.radix() as nat,
                        ),
                        self.radix() as nat,
                        exponent as int,
                    )
                    &&& SCIENTIFIC_BELOW < bits < SCIENTIFIC_ABOVE ==> is_fixed_text(
                        float_text(
                            bits,
                            self.digit_sequence(),
                            self.integer_digits().len() as int,
                            exponent as int,
                            self.radix() as nat,
                        ),
                        self.radix() as nat,
                        self.integer_digits().len() as int,
                    )
                },
                Err(e) => {
                    &&& float_format_error(
                        bits,
                        self.digit_sequence(),
                        self.integer_digits().len() as int,
                        exponent as int,
                        self.radix(),
                        old(bytes)@.len(),
                    ) == Some(e)
                    &&& final(bytes)@ == old(bytes)@
                },
            },
    {
        let all: &[u8] = self.as_slice();
        let r = format_float(bits, all, self.point(), exponent, self.radix, bytes);
        proof {
            if r is Ok {
                self.lemma_well_formed();
                lemma_float_text_shape(
                    bits,
                    self.digit_sequence(),
                    self.integer_digits().len() as int,
                    exponent as int,
                    self.radix as nat,
                );
            }
        }
        r
    }
}

} // verus!
