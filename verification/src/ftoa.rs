//! Laying out the digits of a float in a radix from 2 to 36.
//!
//! The digits of a positive, finite float are produced elsewhere, digit by
//! digit, in floating-point arithmetic. This module holds what is decided on
//! the digits afterwards: rounding up with a carry that ripples through the
//! digits already written, the choice between fixed and scientific notation,
//! and the text that is written for either.

use vstd::prelude::*;
use vstd::slice::slice_subrange;
use crate::digits::{
    char_digit,
    char_to_digit,
    digit_char,
    digit_to_char,
    digits,
    digits_value,
    radix_pow,
    lemma_digits_len_bound,
    lemma_digits_round_trip,
    lemma_radix_pow_unfold,
};
use crate::error::FormatError;
use crate::itoa::{
    digit_count,
    fill_digit_pair_table,
    forward,
    is_digit_pair_table,
    MAX_TABLE_SIZE,
};

verus! {

/// The size of the buffer that a formatted number is written to.
pub const BUFFER_SIZE: usize = 256;

/// Room kept for what is no digit: the point, the exponent and its sign.
pub const MAX_NONDIGIT_LENGTH: usize = 25;

/// The largest number of digits that is written behind the first.
pub const MAX_DIGIT_LENGTH: usize = BUFFER_SIZE - MAX_NONDIGIT_LENGTH;

/// The bit pattern of the double `1e-5`: at or below it, notation is scientific.
pub const SCIENTIFIC_BELOW: u64 = 0x3EE4_F8B5_88E3_68F1;

/// The bit pattern of the double `1e9`: at or above it, notation is scientific.
pub const SCIENTIFIC_ABOVE: u64 = 0x41CD_CD65_0000_0000;

/// How a float is written.
#[derive(Clone, Copy, Debug, PartialEq, Eq, Structural)]
pub enum Notation {
    /// Integer digits, a point, fraction digits.
    Fixed,
    /// Scientific, for a value of at most `1e-5`: the first digit is a
    /// fraction digit.
    ScientificSmall,
    /// Scientific, for a value of at least `1e9`: the first digit is the
    /// first integer digit.
    ScientificLarge,
}

/// What follows a fraction digit.
#[derive(Clone, Copy, Debug, PartialEq, Eq, Structural)]
pub enum DigitStep {
    /// Take the next digit.
    Continue,
    /// Add one at the last digit, with carry, and end the digits.
    RoundUp,
    /// End the digits as they are.
    Stop,
}

/// Round-to-even at the last digit: up where the remainder is more than
/// half a unit, or half a unit behind an odd digit, if the next digit string
/// up is within the precision of the value.
pub open spec fn spec_digit_step(
    digit: u32,
    above_half: bool,
    is_half: bool,
    reaches_next: bool,
    exhausted: bool,
) -> DigitStep {
    if (above_half || (is_half && digit % 2 == 1)) && reaches_next {
        DigitStep::RoundUp
    } else if exhausted {
        DigitStep::Stop
    } else {
        DigitStep::Continue
    }
}

/// The notation for the positive, finite double with the bit pattern `bits`.
/// Among such doubles the order of the values is the order of the patterns.
pub open spec fn spec_notation(bits: u64) -> Notation {
    if bits <= SCIENTIFIC_BELOW {
        Notation::ScientificSmall
    } else if bits >= SCIENTIFIC_ABOVE {
        Notation::ScientificLarge
    } else {
        Notation::Fixed
    }
}

/// The character between the digits and the exponent: `e`, and `^` where
/// `e` is a digit of the radix.
pub open spec fn spec_exponent_char(radix: nat) -> u8 {
    if radix >= 15 {
        94u8
    } else {
        101u8
    }
}

/// `s` without its trailing zero digits.
pub open spec fn rtrim_zeros(s: Seq<u8>) -> Seq<u8>
    decreases s.len(),
{
    if s.len() > 0 && s.last() == 48u8 {
        rtrim_zeros(s.drop_last())
    } else {
        s
    }
}

/// Where the digits of scientific notation start among all the digits:
/// at the first integer digit, or, for a small value with the negative
/// exponent `exponent`, at the fraction digit of that place.
pub open spec fn window_start(notation: Notation, point: int, exponent: int) -> int {
    if notation == Notation::ScientificSmall {
        point - exponent - 1
    } else {
        0
    }
}

/// The digits that scientific notation may show: from `start`, the first
/// digit and at most `MAX_DIGIT_LENGTH` more.
pub open spec fn scientific_window(all: Seq<u8>, start: int) -> Seq<u8> {
    if all.len() - start > MAX_DIGIT_LENGTH + 1 {
        all.subrange(start, start + MAX_DIGIT_LENGTH + 1)
    } else {
        all.subrange(start, all.len() as int)
    }
}

/// The exponent as text: a minus sign for a negative one, then the digits
/// of its magnitude in the radix.
pub open spec fn exponent_text(exponent: int, radix: nat) -> Seq<u8> {
    if exponent < 0 {
        seq![45u8] + digits((-exponent) as nat, radix)
    } else {
        digits(exponent as nat, radix)
    }
}

/// Scientific notation: the first digit, a point, the other digits up to the
/// last that is not zero, the exponent character, the exponent.
pub open spec fn scientific_text(window: Seq<u8>, exponent: int, radix: nat) -> Seq<u8> {
    let shown = rtrim_zeros(window);
    seq![shown[0], 46u8] + shown.skip(1) + seq![spec_exponent_char(radix)] + exponent_text(
        exponent,
        radix,
    )
}

/// How many fraction digits fixed notation shows: all of them, as far as
/// the digits stay within `MAX_DIGIT_LENGTH` together.
pub open spec fn fixed_fraction_len(all: Seq<u8>, point: int) -> int {
    if all.len() - point < MAX_DIGIT_LENGTH - point {
        all.len() - point
    } else {
        MAX_DIGIT_LENGTH - point
    }
}

/// Fixed notation: the integer digits, a point, the fraction digits; a
/// single zero behind the point where there is no fraction digit.
pub open spec fn fixed_text(all: Seq<u8>, point: int) -> Seq<u8> {
    if fixed_fraction_len(all, point) > 0 {
        all.subrange(0, point) + seq![46u8] + all.subrange(
            point,
            point + fixed_fraction_len(all, point),
        )
    } else {
        all.subrange(0, point) + seq![46u8, 48u8]
    }
}

/// The text of a float: `all` holds its integer digits, then its fraction
/// digits; `point` is the number of integer digits; `exponent` is the
/// exponent of its first digit in the radix.
pub open spec fn float_text(
    bits: u64,
    all: Seq<u8>,
    point: int,
    exponent: int,
    radix: nat,
) -> Seq<u8> {
    let notation = spec_notation(bits);
    if notation == Notation::Fixed {
        fixed_text(all, point)
    } else {
        scientific_text(
            scientific_window(all, window_start(notation, point, exponent)),
            exponent,
            radix,
        )
    }
}

/// The digits fit the notation: in fixed notation the integer digits are
/// within `MAX_DIGIT_LENGTH`; in scientific notation there is a first digit
/// and it is not zero.
pub open spec fn digits_fit_notation(bits: u64, all: Seq<u8>, point: int, exponent: int) -> bool {
    let notation = spec_notation(bits);
    let start = window_start(notation, point, exponent);
    &&& 0 <= point <= all.len()
    &&& notation == Notation::Fixed ==> point <= MAX_DIGIT_LENGTH
    &&& notation == Notation::ScientificSmall ==> exponent < 0
    &&& notation != Notation::Fixed ==> 0 <= start < all.len() && all[start] != 48u8
}

/// The digit string with one added at its last place: trailing digits
/// that are the largest of the radix are dropped, and the digit before
/// them is raised by one. Empty where every digit is the largest.
pub open spec fn carried_digits(s: Seq<u8>, radix: nat) -> Seq<u8>
    decreases s.len(),
{
    if s.len() == 0 {
        s
    } else if char_digit(s.last()) + 1 < radix {
        s.drop_last().push(digit_char(char_digit(s.last()) + 1))
    } else {
        carried_digits(s.drop_last(), radix)
    }
}

/// Every digit of `s` is the largest of the radix, so that adding one at the
/// last place carries out of the string.
pub open spec fn carries_out(s: Seq<u8>, radix: nat) -> bool {
    forall|i: int| 0 <= i < s.len() ==> char_digit(#[trigger] s[i]) + 1 >= radix
}

/// Every byte of `s` is a digit below `radix`.
pub open spec fn all_digits(s: Seq<u8>, radix: nat) -> bool {
    forall|i: int| 0 <= i < s.len() ==> 0 <= char_digit(#[trigger] s[i]) < radix
}

/// What follows a fraction digit: round-to-even at the last digit.
///
/// `digit` is the digit just taken; `above_half` and `is_half` compare the
/// remainder behind it with half a unit; `reaches_next` says that the
/// remainder is within the precision of the next digit string up;
/// `exhausted` says that the remainder is below the precision. The digits
/// are rounded up where the remainder exceeds half a unit, or is half a
/// unit behind an odd digit, and the next string up is within the
/// precision; else they end where the precision is exhausted.
pub fn digit_step(
    digit: u32,
    above_half: bool,
    is_half: bool,
    reaches_next: bool,
    exhausted: bool,
) -> (r: DigitStep)
    ensures
        r == spec_digit_step(digit, above_half, is_half, reaches_next, exhausted),
{
    if (above_half || (is_half && digit % 2 == 1)) && reaches_next {
        DigitStep::RoundUp
    } else if exhausted {
        DigitStep::Stop
    } else {
        DigitStep::Continue
    }
}

/// The notation for the positive, finite double with the bit pattern `bits`.
pub fn notation(bits: u64) -> (r: Notation)
    ensures
        r == spec_notation(bits),
{
    if bits <= SCIENTIFIC_BELOW {
        Notation::ScientificSmall
    } else if bits >= SCIENTIFIC_ABOVE {
        Notation::ScientificLarge
    } else {
        Notation::Fixed
    }
}

/// The character between the digits and the exponent.
pub fn exponent_notation_char(radix: u32) -> (c: u8)
    ensures
        c == spec_exponent_char(radix as nat),
{
    if radix >= 15 {
        94u8
    } else {
        101u8
    }
}

/// Round the fraction digits up by one at the last place.
///
/// The fraction digits are `digits[start..end]`. Goes back through them: a
/// digit that is the largest of the radix is dropped, the first that is not
/// is raised by one. Returns where the fraction digits end afterwards, and
/// `true` where the carry ripples through every digit: then no fraction
/// digit is left and the integer part is to be raised by one.
pub fn round_up_fraction(
    digits: &mut [u8],
    start: usize,
    end: usize,
    radix: u32,
) -> (r: (usize, bool))
    requires
        2 <= radix <= 36,
        start <= end <= old(digits)@.len(),
        all_digits(old(digits)@.subrange(start as int, end as int), radix as nat),
    ensures
        start <= r.0 <= end,
        final(digits)@.len() == old(digits)@.len(),
        final(digits)@.subrange(start as int, r.0 as int) == carried_digits(
            old(digits)@.subrange(start as int, end as int),
            radix as nat,
        ),
        r.1 == carries_out(old(digits)@.subrange(start as int, end as int), radix as nat),
        forall|j: int|
            0 <= j < old(digits)@.len() && j != r.0 - 1 ==> final(digits)@[j] == old(digits)@[j],
        r.1 ==> final(digits)@ == old(digits)@,
{
    let ghost before = digits@;
    let ghost fraction = before.subrange(start as int, end as int);
    let ghost rn = radix as nat;
    let mut cursor: usize = end;
    while cursor > start
        invariant
            2 <= radix <= 36,
            rn == radix,
            start <= cursor <= end <= before.len(),
            before == old(digits)@,
            digits@ == before,
            fraction == before.subrange(start as int, end as int),
            all_digits(fraction, rn),
            carried_digits(fraction, rn) == carried_digits(
                before.subrange(start as int, cursor as int),
                rn,
            ),
            forall|i: int|
                cursor - start <= i < fraction.len() ==> char_digit(#[trigger] fraction[i]) + 1 >= rn,
        decreases cursor,
    {
        let ghost current = before.subrange(start as int, cursor as int);
        cursor = cursor - 1;
        let c: u8 = digits[cursor];
        proof {
            assert(c == fraction[cursor - start]);
            assert(current.last() == c);
            assert(current.drop_last() =~= before.subrange(start as int, cursor as int));
        }
        match char_to_digit(c, radix) {
            Some(digit) => {
                if digit + 1 < radix {
                    digits[cursor] = digit_to_char(digit + 1);
                    proof {
                        assert(digits@.subrange(start as int, cursor + 1) =~= carried_digits(
                            current,
                            rn,
                        ));
                        assert(char_digit(fraction[cursor - start]) + 1 < rn);
                    }
                    return (cursor + 1, false);
                }
            },
            None => {
                assert(false);
            },
        }
    }
    proof {
        assert(before.subrange(start as int, start as int) =~= Seq::<u8>::empty());
        assert(digits@.subrange(start as int, start as int) =~= Seq::<u8>::empty());
    }
    (start, true)
}

/// Copy `src[from..to]` into `dst` from `at` on.
fn copy_to_dst(dst: &mut [u8], at: usize, src: &[u8], from: usize, to: usize) -> (end: usize)
    requires
        from <= to <= src@.len(),
        at + (to - from) <= old(dst)@.len(),
    ensures
        end == at + (to - from),
        final(dst)@ == old(dst)@.subrange(0, at as int) + src@.subrange(from as int, to as int) + old(
            dst,
        )@.subrange(end as int, old(dst)@.len() as int),
{
    let ghost before = dst@;
    let mut i: usize = from;
    let mut j: usize = at;
    while i < to
        invariant
            from <= i <= to <= src@.len(),
            j == at + (i - from),
            at + (to - from) <= dst@.len(),
            dst@.len() == before.len(),
            forall|k: int| 0 <= k < at || j <= k < before.len() ==> dst@[k] == before[k],
            forall|k: int| at <= k < j ==> dst@[k] == src@[from + (k - at)],
        decreases to - i,
    {
        dst[j] = src[i];
        i = i + 1;
        j = j + 1;
    }
    proof {
        assert(dst@ =~= before.subrange(0, at as int) + src@.subrange(from as int, to as int)
            + before.subrange(j as int, before.len() as int));
    }
    j
}

/// Trimming trailing zeros leaves the start of a string, up to its last
/// byte that is no zero digit; a string that starts with another digit keeps
/// its first byte.
pub proof fn lemma_rtrim_zeros(s: Seq<u8>)
    ensures
        rtrim_zeros(s).len() <= s.len(),
        rtrim_zeros(s) == s.subrange(0, rtrim_zeros(s).len() as int),
        rtrim_zeros(s).len() > 0 ==> rtrim_zeros(s).last() != 48u8,
        s.len() > 0 && s[0] != 48u8 ==> rtrim_zeros(s).len() >= 1 && rtrim_zeros(s)[0] == s[0],
    decreases s.len(),
{
    if s.len() > 0 && s.last() == 48u8 {
        lemma_rtrim_zeros(s.drop_last());
        let kept = rtrim_zeros(s.drop_last());
        assert(kept =~= s.subrange(0, kept.len() as int));
    } else {
        assert(s =~= s.subrange(0, s.len() as int));
    }
}

/// A byte that the text of a float may hold: a digit of the radix, the
/// point, the minus sign, or the exponent character.
pub open spec fn is_text_byte(c: u8, radix: nat) -> bool {
    ||| 0 <= char_digit(c) < radix
    ||| c == 46u8
    ||| c == 45u8
    ||| c == spec_exponent_char(radix)
}

/// Where the point stands in the text of a float: behind the integer
/// digits in fixed notation, behind the first digit in scientific notation.
pub open spec fn point_index(bits: u64, point: int) -> int {
    if spec_notation(bits) == Notation::Fixed {
        point
    } else {
        1
    }
}

/// The text holds nothing but what the text of a float may hold, and one
/// point, at `at`, with digits of the radix before it.
pub open spec fn is_float_text(text: Seq<u8>, radix: nat, at: int) -> bool {
    &&& 0 <= at < text.len()
    &&& text[at] == 46u8
    &&& forall|i: int| 0 <= i < text.len() ==> is_text_byte(#[trigger] text[i], radix)
    &&& forall|i: int| 0 <= i < text.len() && #[trigger] text[i] == 46u8 ==> i == at
    &&& forall|i: int| 0 <= i < at ==> 0 <= char_digit(#[trigger] text[i]) < radix
}

/// The exponent character is no digit of the radix, nor the point, nor the
/// minus sign.
pub proof fn lemma_exponent_char(radix: nat)
    requires
        2 <= radix <= 36,
    ensures
        !(0 <= char_digit(spec_exponent_char(radix)) < radix),
        spec_exponent_char(radix) != 46u8,
        spec_exponent_char(radix) != 45u8,
{
}

/// The text of the exponent: digits of the radix, behind a minus sign for a
/// negative exponent.
pub proof fn lemma_exponent_text(exponent: int, radix: nat)
    requires
        2 <= radix <= 36,
    ensures
        exponent_text(exponent, radix).len() >= 1,
        exponent < 0 ==> exponent_text(exponent, radix)[0] == 45u8,
        forall|i: int|
            (if exponent < 0 {
                1int
            } else {
                0int
            }) <= i < exponent_text(exponent, radix).len() ==> 0 <= char_digit(
                #[trigger] exponent_text(exponent, radix)[i],
            ) < radix,
{
    let magnitude: nat = if exponent < 0 {
        (-exponent) as nat
    } else {
        exponent as nat
    };
    let written = digits(magnitude, radix);
    lemma_digits_round_trip(magnitude, radix);
    let text = exponent_text(exponent, radix);
    if exponent < 0 {
        assert forall|i: int| 1 <= i < text.len() implies 0 <= char_digit(#[trigger] text[i])
            < radix by {
            assert(text[i] == written[i - 1]);
        }
    }
}

/// Fixed notation: nothing but digits of the radix around the point at
/// `point`.
pub open spec fn is_fixed_text(text: Seq<u8>, radix: nat, point: int) -> bool {
    &&& 0 <= point < text.len() - 1
    &&& text[point] == 46u8
    &&& forall|i: int|
        0 <= i < text.len() && i != point ==> 0 <= char_digit(#[trigger] text[i]) < radix
}

/// Scientific notation: a first digit that is not zero, the point, more
/// digits, the exponent character, and the exponent as text.
pub open spec fn is_scientific_text(text: Seq<u8>, radix: nat, exponent: int) -> bool {
    let mark = text.len() - exponent_text(exponent, radix).len() - 1;
    &&& 2 <= mark <= MAX_DIGIT_LENGTH + 2
    &&& text[0] != 48u8
    &&& 0 <= char_digit(text[0]) < radix
    &&& text[1] == 46u8
    &&& forall|i: int| 2 <= i < mark ==> 0 <= char_digit(#[trigger] text[i]) < radix
    &&& text[mark] == spec_exponent_char(radix)
    &&& text.subrange(mark + 1, text.len() as int) == exponent_text(exponent, radix)
}

/// The shape of the text of a float whose digits are digits of the radix.
///
/// Every byte of it is a digit of the radix, the point, the minus sign or
/// the exponent character, and there is exactly one point. A value of at
/// most `1e-5` or of at least `1e9` is written in scientific notation: the
/// first byte is a digit that is not zero, the point follows, then the
/// other digits that are shown, then the exponent character and the
/// exponent. Any other value is written in fixed notation, with nothing
/// but digits around the point.
pub proof fn lemma_float_text_shape(bits: u64, all: Seq<u8>, point: int, exponent: int, radix: nat)
    requires
        2 <= radix <= 36,
        all_digits(all, radix),
        digits_fit_notation(bits, all, point, exponent),
    ensures
        is_float_text(
            float_text(bits, all, point, exponent, radix),
            radix,
            point_index(bits, point),
        ),
        bits <= SCIENTIFIC_BELOW || bits >= SCIENTIFIC_ABOVE ==> is_scientific_text(
            float_text(bits, all, point, exponent, radix),
            radix,
            exponent,
        ),
        SCIENTIFIC_BELOW < bits < SCIENTIFIC_ABOVE ==> is_fixed_text(
            float_text(bits, all, point, exponent, radix),
            radix,
            point,
        ),
{
    let text = float_text(bits, all, point, exponent, radix);
    let notation = spec_notation(bits);
    lemma_exponent_char(radix);
    if notation == Notation::Fixed {
        let count = fixed_fraction_len(all, point);
        assert forall|i: int| 0 <= i < text.len() && i != point implies 0 <= char_digit(
            #[trigger] text[i],
        ) < radix by {
            if i < point {
                assert(text[i] == all[i]);
            } else if count > 0 {
                assert(text[i] == all[point + (i - point - 1)]);
            } else {
                assert(text[i] == 48u8);
            }
        }
        assert(text[point] == 46u8);
    } else {
        let start = window_start(notation, point, exponent);
        let window = scientific_window(all, start);
        let shown = rtrim_zeros(window);
        lemma_rtrim_zeros(window);
        lemma_exponent_text(exponent, radix);
        assert(window[0] == all[start]);
        assert forall|i: int| 0 <= i < shown.len() implies 0 <= char_digit(#[trigger] shown[i])
            < radix && shown[i] != 46u8 by {
            assert(shown[i] == window[i]);
            assert(window[i] == all[start + i]);
        }
        let head = seq![shown[0], 46u8];
        let more = shown.skip(1);
        let mark = seq![spec_exponent_char(radix)];
        let tail = exponent_text(exponent, radix);
        assert(text == head + more + mark + tail);
        let sign: int = if exponent < 0 {
            1
        } else {
            0
        };
        assert(text.len() == shown.len() + 2 + tail.len());
        assert forall|i: int| 0 <= i < text.len() implies is_text_byte(#[trigger] text[i], radix)
            && (text[i] == 46u8 ==> i == 1) && (2 <= i <= shown.len() ==> 0 <= char_digit(text[i])
            < radix) && (shown.len() + 2 + sign <= i ==> 0 <= char_digit(text[i]) < radix) by {
            if i == 0 {
                assert(text[i] == shown[0]);
            } else if i == 1 {
                assert(text[i] == 46u8);
            } else if i <= shown.len() {
                assert(text[i] == more[i - 2]);
                assert(more[i - 2] == shown[i - 1]);
            } else if i == shown.len() + 1 {
                assert(text[i] == spec_exponent_char(radix));
            } else {
                assert(text[i] == tail[i - shown.len() - 2]);
            }
        }
        assert(text[0] == shown[0]);
        assert(text[1] == 46u8);
        assert(text[shown.len() as int + 1] == mark[0]);
        assert(text.subrange(shown.len() as int + 2, text.len() as int) =~= tail);
        assert(shown.len() <= window.len() <= MAX_DIGIT_LENGTH + 1);
        assert(text.len() - tail.len() - 1 == shown.len() + 1);
    }
}

/// A buffer of `BUFFER_SIZE` bytes holds the text of any float whose
/// exponent has at most eleven bits, as that of every double has: the
/// digits are cut to `MAX_DIGIT_LENGTH`, and the point, the exponent
/// character, the sign and the exponent's digits stay within
/// `MAX_NONDIGIT_LENGTH`.
pub proof fn lemma_float_text_fits(bits: u64, all: Seq<u8>, point: int, exponent: int, radix: nat)
    requires
        2 <= radix <= 36,
        digits_fit_notation(bits, all, point, exponent),
        -2048 < exponent < 2048,
    ensures
        float_text(bits, all, point, exponent, radix).len() <= BUFFER_SIZE,
{
    let notation = spec_notation(bits);
    if notation == Notation::Fixed {
    } else {
        let window = scientific_window(all, window_start(notation, point, exponent));
        lemma_rtrim_zeros(window);
        vstd::arithmetic::power2::lemma2_to64();
        let magnitude: nat = if exponent < 0 {
            (-exponent) as nat
        } else {
            exponent as nat
        };
        lemma_digits_len_bound(magnitude, radix, 11);
    }
}

/// Adding one at the last place does so in value: what is left of the
/// digits, scaled back to the old number of places, together with the carry
/// out of the string, is the old value plus one. The carry leaves the
/// string exactly where no digit is left.
pub proof fn lemma_carry_adds_one(s: Seq<u8>, radix: nat)
    requires
        2 <= radix <= 36,
        all_digits(s, radix),
    ensures
        carried_digits(s, radix).len() <= s.len(),
        all_digits(carried_digits(s, radix), radix),
        carries_out(s, radix) <==> carried_digits(s, radix).len() == 0,
        digits_value(carried_digits(s, radix), radix) * radix_pow(
            radix,
            (s.len() - carried_digits(s, radix).len()) as nat,
        ) + (if carries_out(s, radix) {
            radix_pow(radix, s.len())
        } else {
            0
        }) == digits_value(s, radix) + 1,
    decreases s.len(),
{
    let t = carried_digits(s, radix);
    lemma_radix_pow_unfold(radix, 0);
    if s.len() == 0 {
        assert(digits_value(s, radix) == 0);
    } else {
        let rest = s.drop_last();
        let d = char_digit(s.last());
        assert(0 <= d < radix);
        assert(digits_value(s, radix) == digits_value(rest, radix) * radix + d);
        if d + 1 < radix {
            let c = digit_char(d + 1);
            assert(t == rest.push(c));
            assert(t.drop_last() =~= rest);
            assert(t.last() == c && char_digit(c) == d + 1);
            assert(digits_value(t, radix) == digits_value(rest, radix) * radix + (d + 1));
            assert(digits_value(t, radix) * 1 == digits_value(t, radix));
            assert(!carries_out(s, radix)) by {
                assert(char_digit(s[s.len() - 1]) + 1 < radix);
            }
            assert forall|i: int| 0 <= i < t.len() implies 0 <= char_digit(#[trigger] t[i]) < radix by {
                if i < rest.len() {
                    assert(t[i] == s[i]);
                }
            }
        } else {
            assert(t == carried_digits(rest, radix));
            assert(all_digits(rest, radix)) by {
                assert forall|i: int| 0 <= i < rest.len() implies 0 <= char_digit(#[trigger] rest[i])
                    < radix by {
                    assert(rest[i] == s[i]);
                }
            }
            lemma_carry_adds_one(rest, radix);
            let k = (rest.len() - t.len()) as nat;
            lemma_radix_pow_unfold(radix, k);
            lemma_radix_pow_unfold(radix, rest.len());
            assert(carries_out(s, radix) == carries_out(rest, radix)) by {
                if carries_out(rest, radix) {
                    assert forall|i: int| 0 <= i < s.len() implies char_digit(#[trigger] s[i]) + 1
                        >= radix by {
                        if i < rest.len() {
                            assert(s[i] == rest[i]);
                        }
                    }
                } else {
                    let i = choose|i: int|
                        0 <= i < rest.len() && !(char_digit(#[trigger] rest[i]) + 1 >= radix);
                    assert(rest[i] == s[i]);
                }
            }
            let vt = digits_value(t, radix) as int;
            let vr = digits_value(rest, radix) as int;
            let pk = radix_pow(radix, k) as int;
            let pn = radix_pow(radix, rest.len()) as int;
            let carry: int = if carries_out(rest, radix) {
                1
            } else {
                0
            };
            assert(vt * pk + carry * pn == vr + 1);
            assert(vt * (radix * pk) + carry * (radix * pn) == vr * radix + d + 1) by (nonlinear_arith)
                requires
                    vt * pk + carry * pn == vr + 1,
                    d + 1 == radix,
            ;
            assert(s.len() - t.len() == k + 1);
        }
    }
}

/// Where the digits that scientific notation shows end: behind the window
/// from `start`, without its trailing zeros.
pub fn shown_end(all: &[u8], start: usize) -> (end: usize)
    requires
        start < all@.len(),
        all@[start as int] != 48u8,
    ensures
        start < end <= all@.len(),
        end - start <= MAX_DIGIT_LENGTH + 1,
        all@.subrange(start as int, end as int) == rtrim_zeros(scientific_window(all@, start as int)),
{
    let ghost window = scientific_window(all@, start as int);
    // Take as many digits as possible: the first, and up to
    // `MAX_DIGIT_LENGTH` behind it.
    let len: usize = all.len();
    let mut end: usize = if len - start > MAX_DIGIT_LENGTH + 1 {
        start + MAX_DIGIT_LENGTH + 1
    } else {
        len
    };
    assert(window == all@.subrange(start as int, end as int));
    // Remove any trailing zeros in the selected range.
    while end > start && all[end - 1] == 48u8
        invariant
            start < end <= len,
            end - start <= MAX_DIGIT_LENGTH + 1,
            len == all@.len(),
            all@[start as int] != 48u8,
            rtrim_zeros(window) == rtrim_zeros(all@.subrange(start as int, end as int)),
        decreases end,
    {
        proof {
            let cut = all@.subrange(start as int, end as int);
            assert(cut.last() == 48u8);
            assert(cut.drop_last() =~= all@.subrange(start as int, end - 1));
        }
        end = end - 1;
    }
    proof {
        let shown = all@.subrange(start as int, end as int);
        assert(shown.last() == all@[end - 1]);
        assert(rtrim_zeros(shown) == shown);
    }
    end
}

/// Write scientific notation of the digits from `start` on.
///
/// Returns the number of bytes written, from the start of `bytes`.
pub fn write_scientific(
    all: &[u8],
    start: usize,
    exponent: i32,
    radix: u32,
    table: &[u8],
    bytes: &mut [u8],
) -> (count: usize)
    requires
        2 <= radix <= 36,
        is_digit_pair_table(table@, radix as nat),
        start < all@.len(),
        all@[start as int] != 48u8,
        scientific_text(scientific_window(all@, start as int), exponent as int, radix as nat).len()
            <= old(bytes)@.len(),
    ensures
        count == scientific_text(
            scientific_window(all@, start as int),
            exponent as int,
            radix as nat,
        ).len(),
        final(bytes)@ == scientific_text(
            scientific_window(all@, start as int),
            exponent as int,
            radix as nat,
        ) + old(bytes)@.subrange(count as int, old(bytes)@.len() as int),
{
    let ghost before = bytes@;
    let ghost rn = radix as nat;
    let ghost window = scientific_window(all@, start as int);
    let ghost text = scientific_text(window, exponent as int, rn);
    let end: usize = shown_end(all, start);
    let ghost shown = all@.subrange(start as int, end as int);
    proof {
        assert(shown[0] == all@[start as int]);
        assert(shown.skip(1) =~= all@.subrange(start + 1, end as int));
    }
    let ghost mantissa = seq![shown[0], 46u8] + shown.skip(1);
    let ghost tail = exponent_text(exponent as int, rn);
    assert(text == mantissa + seq![spec_exponent_char(rn)] + tail);
    proof {
        lemma_digits_nonempty_text(exponent as int, rn);
    }
    // Write the digits.
    bytes[0] = all[start];
    bytes[1] = 46u8;
    let mut pos: usize = copy_to_dst(bytes, 2, all, start + 1, end);
    assert(bytes@ =~= mantissa + before.subrange(pos as int, before.len() as int));
    // Write the exponent.
    bytes[pos] = exponent_notation_char(radix);
    pos = pos + 1;
    let magnitude: u64;
    if exponent < 0 {
        bytes[pos] = 45u8;
        pos = pos + 1;
        magnitude = (-(exponent as i64)) as u64;
    } else {
        magnitude = exponent as u64;
    }
    let ghost sign: Seq<u8> = if exponent < 0 {
        seq![45u8]
    } else {
        Seq::empty()
    };
    assert(tail =~= sign + digits(magnitude as nat, rn));
    assert(bytes@ =~= mantissa + seq![spec_exponent_char(rn)] + sign + before.subrange(
        pos as int,
        before.len() as int,
    ));
    let ghost written = bytes@;
    let end_pos: usize = forward(magnitude, radix, table, bytes, pos);
    proof {
        assert(written.subrange(0, pos as int) =~= mantissa + seq![spec_exponent_char(rn)] + sign);
        assert(written.subrange(end_pos as int, written.len() as int) =~= before.subrange(
            end_pos as int,
            before.len() as int,
        ));
        assert(bytes@ =~= text + before.subrange(end_pos as int, before.len() as int));
    }
    end_pos
}

/// The exponent's text has at least one byte.
proof fn lemma_digits_nonempty_text(exponent: int, radix: nat)
    ensures
        exponent_text(exponent, radix).len() >= 1,
{
}

/// Write fixed notation: `point` integer digits, then the fraction digits.
///
/// Returns the number of bytes written, from the start of `bytes`.
pub fn write_fixed(all: &[u8], point: usize, bytes: &mut [u8]) -> (count: usize)
    requires
        point <= all@.len(),
        point <= MAX_DIGIT_LENGTH,
        fixed_text(all@, point as int).len() <= old(bytes)@.len(),
    ensures
        count == fixed_text(all@, point as int).len(),
        final(bytes)@ == fixed_text(all@, point as int) + old(bytes)@.subrange(
            count as int,
            old(bytes)@.len() as int,
        ),
{
    let ghost before = bytes@;
    let ghost text = fixed_text(all@, point as int);
    // Get the component lengths.
    let remaining: usize = all.len() - point;
    let room: usize = MAX_DIGIT_LENGTH - point;
    let fraction_length: usize = if remaining < room {
        remaining
    } else {
        room
    };
    assert(fraction_length == fixed_fraction_len(all@, point as int));
    // Write the integer component.
    let pos: usize = copy_to_dst(bytes, 0, all, 0, point);
    assert(bytes@ =~= all@.subrange(0, point as int) + before.subrange(pos as int, before.len() as int));
    // Write the fraction component.
    if fraction_length > 0 {
        bytes[pos] = 46u8;
        let ghost written = bytes@;
        let end: usize = copy_to_dst(bytes, pos + 1, all, point, point + fraction_length);
        proof {
            assert(written.subrange(0, pos + 1) =~= all@.subrange(0, point as int) + seq![46u8]);
            assert(written.subrange(end as int, written.len() as int) =~= before.subrange(
                end as int,
                before.len() as int,
            ));
            assert(bytes@ =~= text + before.subrange(end as int, before.len() as int));
        }
        end
    } else {
        // No fraction: write the point and a zero.
        bytes[pos] = 46u8;
        bytes[pos + 1] = 48u8;
        assert(bytes@ =~= text + before.subrange(pos + 2, before.len() as int));
        pos + 2
    }
}

/// Write a float from its digits.
///
/// `bits` is the bit pattern of the positive, finite double that is written;
/// `all` holds its integer digits and then its fraction digits; `point` is
/// the number of integer digits; `exponent` is the exponent of the value in
/// the radix. Values of at most `1e-5` and of at least `1e9` are written in
/// scientific notation, the others in fixed notation.
///
/// Returns the number of bytes written, from the start of `bytes`.
pub fn write_float(
    bits: u64,
    all: &[u8],
    point: usize,
    exponent: i32,
    radix: u32,
    table: &[u8],
    bytes: &mut [u8],
) -> (count: usize)
    requires
        2 <= radix <= 36,
        is_digit_pair_table(table@, radix as nat),
        digits_fit_notation(bits, all@, point as int, exponent as int),
        float_text(bits, all@, point as int, exponent as int, radix as nat).len() <= old(bytes)@.len(),
    ensures
        count == float_text(bits, all@, point as int, exponent as int, radix as nat).len(),
        final(bytes)@ == float_text(bits, all@, point as int, exponent as int, radix as nat) + old(
            bytes,
        )@.subrange(count as int, old(bytes)@.len() as int),
{
    match notation(bits) {
        Notation::Fixed => write_fixed(all, point, bytes),
        Notation::ScientificSmall => {
            // The first digit is the fraction digit at the exponent's place.
            let len: usize = all.len();
            let start: usize = point + ((-(exponent as i64) - 1) as usize);
            write_scientific(all, start, exponent, radix, table, bytes)
        },
        Notation::ScientificLarge => write_scientific(all, 0, exponent, radix, table, bytes),
    }
}

/// Whether the digits fit the notation of the value.
pub fn digits_fit(bits: u64, all: &[u8], point: usize, exponent: i32) -> (ok: bool)
    ensures
        ok == digits_fit_notation(bits, all@, point as int, exponent as int),
{
    let len: usize = all.len();
    if point > len {
        return false;
    }
    match notation(bits) {
        Notation::Fixed => point <= MAX_DIGIT_LENGTH,
        Notation::ScientificSmall => {
            if exponent >= 0 {
                return false;
            }
            let offset: u64 = (-(exponent as i64) - 1) as u64;
            if offset >= (len - point) as u64 {
                return false;
            }
            all[point + offset as usize] != 48u8
        },
        Notation::ScientificLarge => len > 0 && all[0] != 48u8,
    }
}

/// The length of the text of a float.
pub fn float_text_len(bits: u64, all: &[u8], point: usize, exponent: i32, radix: u32) -> (n: usize)
    requires
        2 <= radix <= 36,
        digits_fit_notation(bits, all@, point as int, exponent as int),
    ensures
        n == float_text(bits, all@, point as int, exponent as int, radix as nat).len(),
{
    let kind: Notation = notation(bits);
    match kind {
        Notation::Fixed => {
            let remaining: usize = all.len() - point;
            let room: usize = MAX_DIGIT_LENGTH - point;
            let fraction_length: usize = if remaining < room {
                remaining
            } else {
                room
            };
            if fraction_length > 0 {
                point + 1 + fraction_length
            } else {
                point + 2
            }
        },
        _ => {
            let len: usize = all.len();
            let start: usize = if bits <= SCIENTIFIC_BELOW {
                point + ((-(exponent as i64) - 1) as usize)
            } else {
                0
            };
            let end: usize = shown_end(all, start);
            let ghost shown = all@.subrange(start as int, end as int);
            let magnitude: u64 = if exponent < 0 {
                (-(exponent as i64)) as u64
            } else {
                exponent as u64
            };
            let exponent_digits: usize = digit_count(magnitude as u128, radix);
            proof {
                assert(shown.skip(1).len() == end - start - 1);
            }
            if exponent < 0 {
                (end - start) + 3 + exponent_digits
            } else {
                (end - start) + 2 + exponent_digits
            }
        },
    }
}

/// Why `format_float` fails, if it does: the first of its conditions that
/// is not met.
pub open spec fn float_format_error(
    bits: u64,
    all: Seq<u8>,
    point: int,
    exponent: int,
    radix: u32,
    capacity: nat,
) -> Option<FormatError> {
    if !(2 <= radix <= 36) {
        Some(FormatError::InvalidRadix)
    } else if bits == 0 || bits >= 0x7FF0_0000_0000_0000 {
        Some(FormatError::InvalidValue)
    } else if !digits_fit_notation(bits, all, point, exponent) {
        Some(FormatError::InvalidDigits)
    } else if float_text(bits, all, point, exponent, radix as nat).len() > capacity {
        Some(FormatError::BufferTooSmall)
    } else {
        None
    }
}

/// Format a float from its digits, with every condition checked.
///
/// `bits` is the bit pattern of the double that is written; `all` holds its
/// integer digits and then its fraction digits; `point` is the number of
/// integer digits; `exponent` is the exponent of the value in the radix.
/// The text is written at the start of `bytes`, and its length is returned.
/// Fails, and leaves the buffer as it is, where the radix is not between 2
/// and 36, where the value is zero, negative, infinite or no number, where
/// the digits do not fit the notation of the value, or where the buffer is
/// shorter than the text.
pub fn format_float(
    bits: u64,
    all: &[u8],
    point: usize,
    exponent: i32,
    radix: u32,
    bytes: &mut [u8],
) -> (r: Result<usize, FormatError>)
    ensures
        match r {
            Ok(count) => {
                &&& float_format_error(
                    bits,
                    all@,
                    point as int,
                    exponent as int,
                    radix,
                    old(bytes)@.len(),
                ) is None
                &&& count == float_text(bits, all@, point as int, exponent as int, radix as nat).len()
                &&& final(bytes)@ == float_text(
                    bits,
                    all@,
                    point as int,
                    exponent as int,
                    radix as nat,
                ) + old(bytes)@.subrange(count as int, old(bytes)@.len() as int)
            },
            Err(e) => {
                &&& float_format_error(
                    bits,
                    all@,
                    point as int,
                    exponent as int,
                    radix,
                    old(bytes)@.len(),
                ) == Some(e)
                &&& final(bytes)@ == old(bytes)@
            },
        },
{
    if radix < 2 || radix > 36 {
        return Err(FormatError::InvalidRadix);
    }
    if bits == 0 || bits >= 0x7FF0_0000_0000_0000 {
        return Err(FormatError::InvalidValue);
    }
    if !digits_fit(bits, all, point, exponent) {
        return Err(FormatError::InvalidDigits);
    }
    if float_text_len(bits, all, point, exponent, radix) > bytes.len() {
        return Err(FormatError::BufferTooSmall);
    }
    // The digit pairs of the radix, for the digits of the exponent.
    let mut table: [u8; MAX_TABLE_SIZE] = [0u8; MAX_TABLE_SIZE];
    let len: usize = fill_digit_pair_table(radix, &mut table);
    let whole: &[u8] = &table;
    let pairs: &[u8] = slice_subrange(whole, 0, len);
    Ok(write_float(bits, all, point, exponent, radix, pairs, bytes))
}

} // verus!
