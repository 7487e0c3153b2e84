//! Radix-generic integer-to-string conversion.
//!
//! Digits are written from the right end of a caller's buffer towards the
//! left, four at a time, then two at a time, then the last one or two, each
//! pair of digits found in a table of `2 * radix^2` bytes. A 128-bit value
//! is first cut into chunks that fit in 64 bits.

use vstd::prelude::*;
use vstd::arithmetic::logarithm::{log, lemma_log_s, lemma_log0};
use vstd::arithmetic::power::{pow, lemma_pow_positive};
use vstd::arithmetic::div_mod::lemma_mod_breakdown;
use crate::error::FormatError;
use crate::digits::{
    digit_char,
    digit_to_char,
    digits,
    fixed_digits,
    radix_pow,
    zeros,
    lemma_radix_pow_small,
    lemma_digits_split,
    lemma_digits_len_lower,
    lemma_digits_nonempty,
    lemma_fixed_digits_concat,
    lemma_fixed_digits_mod,
    lemma_fixed_digits_len,
    lemma_fixed_digits_pad,
    lemma_div_radix_decreases,
    lemma_digits_len_bound,
    lemma_digits_round_trip,
    parse_digits,
};

verus! {

/// The byte at position `j` of the digit-pair table of `radix`: the table
/// holds, for each `i` below `radix^2`, the two digits of `i`.
pub open spec fn pair_table_entry(j: int, radix: nat) -> u8 {
    if j % 2 == 0 {
        digit_char((j / 2) / (radix as int))
    } else {
        digit_char((j / 2) % (radix as int))
    }
}

/// `table` is the digit-pair table of `radix`.
pub open spec fn is_digit_pair_table(table: Seq<u8>, radix: nat) -> bool {
    &&& table.len() == 2 * (radix * radix)
    &&& forall|j: int| 0 <= j < table.len() ==> #[trigger] table[j] == pair_table_entry(j, radix)
}

/// The number of digits that always fit in 64 bits: the largest `k` with
/// `radix^k <= 2^64`.
pub open spec fn step_digits(radix: nat) -> nat {
    log(radix as int, 0x1_0000_0000_0000_0000) as nat
}

/// The largest power of `radix` that is at most `2^64`.
pub open spec fn step_divisor(radix: nat) -> nat {
    radix_pow(radix, step_digits(radix))
}

/// The integer logarithm brackets its argument between two powers.
pub proof fn lemma_log_bounds(base: int, x: int)
    requires
        base > 1,
        x >= 1,
    ensures
        log(base, x) >= 0,
        pow(base, log(base, x) as nat) <= x < pow(base, (log(base, x) + 1) as nat),
    decreases x,
{
    reveal(pow);
    if x < base {
        lemma_log0(base, x);
        assert(pow(base, 0) == 1);
        assert(pow(base, 1) == base * pow(base, 0));
        assert(pow(base, 1) == base) by (nonlinear_arith)
            requires
                pow(base, 1) == base * pow(base, 0),
                pow(base, 0) == 1,
        ;
    } else {
        lemma_log_s(base, x);
        let y = x / base;
        assert(1 <= y < x && base * y <= x < base * (y + 1)) by (nonlinear_arith)
            requires
                y == x / base,
                base > 1,
                x >= base,
        ;
        lemma_log_bounds(base, y);
        let l = log(base, y) as nat;
        assert(pow(base, l + 1) == base * pow(base, l));
        assert(pow(base, l + 2) == base * pow(base, l + 1));
        assert(base * pow(base, l) <= base * y && base * (y + 1) <= base * pow(base, l + 1))
            by (nonlinear_arith)
            requires
                pow(base, l) <= y < pow(base, l + 1),
                base > 1,
        ;
    }
}

/// What is known of the step divisor: it brackets `2^64` within one digit,
/// so it lies between `2^58` and `2^64`.
pub proof fn lemma_step_divisor_bounds(radix: nat)
    requires
        2 <= radix <= 36,
    ensures
        step_digits(radix) >= 1,
        0x400_0000_0000_0000 < step_divisor(radix) <= 0x1_0000_0000_0000_0000,
        step_divisor(radix) * radix > 0x1_0000_0000_0000_0000,
{
    let b = radix as int;
    lemma_log_bounds(b, 0x1_0000_0000_0000_0000);
    let s = step_digits(radix);
    let d = pow(b, s);
    lemma_pow_positive(b, s);
    reveal(pow);
    assert(pow(b, s + 1) == b * d);
    assert(d * radix > 0x1_0000_0000_0000_0000) by (nonlinear_arith)
        requires
            b * d > 0x1_0000_0000_0000_0000,
            b == radix,
    ;
    assert(d > 0x400_0000_0000_0000) by (nonlinear_arith)
        requires
            d * radix > 0x1_0000_0000_0000_0000,
            radix <= 36,
            d > 0,
    ;
    if s == 0 {
        assert(pow(b, 0) == 1);
    }
}

/// The two bytes of the table at `2 * i` are the two digits of `i`.
pub proof fn lemma_table_pair(table: Seq<u8>, radix: nat, i: nat)
    requires
        2 <= radix,
        is_digit_pair_table(table, radix),
        i < radix * radix,
    ensures
        2 * i + 1 < table.len(),
        seq![table[2 * i as int], table[2 * i as int + 1]] == fixed_digits(i, radix, 2),
        i >= radix ==> digits(i, radix) == fixed_digits(i, radix, 2),
{
    let a = 2 * i as int;
    assert(table[a] == pair_table_entry(a, radix));
    assert(table[a + 1] == pair_table_entry(a + 1, radix));
    assert(a % 2 == 0 && a / 2 == i && (a + 1) % 2 == 1 && (a + 1) / 2 == i);
    let hi = i / radix;
    assert(hi < radix && hi / radix == 0 && hi % radix == hi) by (nonlinear_arith)
        requires
            hi == i / radix,
            i < radix * radix,
            radix >= 2,
    ;
    reveal_with_fuel(fixed_digits, 3);
    assert(fixed_digits(i, radix, 2) =~= seq![digit_char(hi as int), digit_char((i % radix) as int)]);
    assert(seq![table[a], table[a + 1]] =~= fixed_digits(i, radix, 2));
    if i >= radix {
        lemma_div_radix_decreases(i, radix);
        assert(digits(hi, radix) =~= seq![digit_char(hi as int)]);
        assert(digits(i, radix) =~= fixed_digits(i, radix, 2));
    }
}

/// The last four digits of `v`, as the two pairs that the writer looks up.
pub proof fn lemma_four_digits(v: nat, radix: nat, r2: nat, r4: nat)
    requires
        2 <= radix,
        r2 == radix * radix,
        r4 == r2 * r2,
        v >= r4,
    ensures
        (v % r4) / r2 < r2,
        (v % r4) % r2 < r2,
        digits(v, radix).len() >= 5,
        digits(v, radix) == digits(v / r4, radix) + fixed_digits((v % r4) / r2, radix, 2)
            + fixed_digits((v % r4) % r2, radix, 2),
{
    lemma_radix_pow_small(radix);
    lemma_digits_split(v, radix, 4);
    lemma_digits_len_lower(v, radix, 4);
    lemma_fixed_digits_concat(v, radix, 2, 2);
    lemma_fixed_digits_mod(v / r2, radix, 2);
    lemma_fixed_digits_mod(v, radix, 2);
    assert(r2 >= 4) by (nonlinear_arith)
        requires
            r2 == radix * radix,
            radix >= 2,
    ;
    lemma_mod_breakdown(v as int, r2 as int, r2 as int);
    let q = (v / r2) % r2;
    let w = v % r4;
    assert(w == r2 * q + v % r2);
    assert(w / r2 == q && w % r2 == v % r2) by (nonlinear_arith)
        requires
            w == r2 * q + v % r2,
            0 <= v % r2 < r2,
            r2 > 0,
    ;
    assert(q < r2 && v % r2 < r2) by (nonlinear_arith)
        requires
            q == (v / r2) % r2,
            r2 > 0,
    ;
    assert(digits(v / r4, radix) + (fixed_digits(q, radix, 2) + fixed_digits(v % r2, radix, 2))
        =~= digits(v / r4, radix) + fixed_digits(q, radix, 2) + fixed_digits(v % r2, radix, 2));
}

/// The last two digits of `v`, as the pair that the writer looks up.
pub proof fn lemma_two_digits(v: nat, radix: nat, r2: nat)
    requires
        2 <= radix,
        r2 == radix * radix,
        v >= r2,
    ensures
        v % r2 < r2,
        digits(v, radix).len() >= 3,
        digits(v, radix) == digits(v / r2, radix) + fixed_digits(v % r2, radix, 2),
{
    lemma_radix_pow_small(radix);
    lemma_digits_split(v, radix, 2);
    lemma_digits_len_lower(v, radix, 2);
    lemma_fixed_digits_mod(v, radix, 2);
    assert(v % r2 < r2) by (nonlinear_arith)
        requires
            r2 == radix * radix,
            radix >= 2,
    ;
}

/// A buffer of 64 bytes holds any 64-bit value, and one of 128 bytes any
/// 128-bit value, in every radix.
pub proof fn lemma_digits_fit(value: u128, radix: nat)
    requires
        2 <= radix <= 36,
    ensures
        digits(value as nat, radix).len() <= 128,
        value <= u64::MAX ==> digits(value as nat, radix).len() <= 64,
{
    vstd::arithmetic::power2::lemma2_to64();
    vstd::arithmetic::power2::lemma_pow2_adds(64, 64);
    lemma_digits_len_bound(value as nat, radix, 128);
    if value <= u64::MAX {
        lemma_digits_len_bound(value as nat, radix, 64);
    }
}

/// The size of the largest digit-pair table, that of radix 36.
pub const MAX_TABLE_SIZE: usize = 2592;

/// Write the digit-pair table of `radix` at the start of `table`.
///
/// Returns the length of the table, `2 * radix^2`.
pub fn fill_digit_pair_table(radix: u32, table: &mut [u8; MAX_TABLE_SIZE]) -> (len: usize)
    requires
        2 <= radix <= 36,
    ensures
        len == 2 * (radix * radix),
        len <= MAX_TABLE_SIZE,
        is_digit_pair_table(final(table)@.subrange(0, len as int), radix as nat),
        forall|j: int| len <= j < MAX_TABLE_SIZE ==> final(table)@[j] == old(table)@[j],
{
    assert(radix * radix <= 1296) by (nonlinear_arith)
        requires
            radix <= 36,
    ;
    let count: u32 = radix * radix;
    let mut i: u32 = 0;
    while i < count
        invariant
            2 <= radix <= 36,
            count == radix * radix,
            count <= 1296,
            i <= count,
            forall|j: int| 0 <= j < 2 * i ==> #[trigger] table@[j] == pair_table_entry(j, radix as nat),
            forall|j: int| 2 * i <= j < MAX_TABLE_SIZE ==> table@[j] == old(table)@[j],
        decreases count - i,
    {
        let hi: u32 = i / radix;
        let lo: u32 = i % radix;
        assert(hi < radix) by (nonlinear_arith)
            requires
                hi == i / radix,
                i < radix * radix,
                radix >= 2,
        ;
        let ghost before = table@;
        let at: usize = (2 * i) as usize;
        table[at] = digit_to_char(hi);
        table[at + 1] = digit_to_char(lo);
        proof {
            let a = 2 * i as int;
            assert(a % 2 == 0 && a / 2 == i && (a + 1) % 2 == 1 && (a + 1) / 2 == i);
            assert forall|j: int| 0 <= j < 2 * (i + 1) implies #[trigger] table@[j]
                == pair_table_entry(j, radix as nat) by {
                if j < a {
                    assert(table@[j] == before[j]);
                }
            }
        }
        i = i + 1;
    }
    let len: usize = (2 * count) as usize;
    proof {
        let pairs = table@.subrange(0, len as int);
        assert forall|j: int| 0 <= j < pairs.len() implies #[trigger] pairs[j] == pair_table_entry(
            j,
            radix as nat,
        ) by {
            assert(pairs[j] == table@[j]);
        }
    }
    len
}

/// Build the digit-pair table of `radix`: for each `i` below `radix^2`, the
/// character of `i / radix` and then that of `i % radix`.
pub fn digit_pair_table(radix: u32) -> (table: Vec<u8>)
    requires
        2 <= radix <= 36,
    ensures
        is_digit_pair_table(table@, radix as nat),
{
    let mut table: Vec<u8> = Vec::new();
    assert(radix * radix <= 1296) by (nonlinear_arith)
        requires
            radix <= 36,
    ;
    let count: u32 = radix * radix;
    let mut i: u32 = 0;
    while i < count
        invariant
            2 <= radix <= 36,
            count == radix * radix,
            i <= count,
            table@.len() == 2 * i,
            forall|j: int|
                0 <= j < table@.len() ==> #[trigger] table@[j] == pair_table_entry(j, radix as nat),
        decreases count - i,
    {
        let hi: u32 = i / radix;
        let lo: u32 = i % radix;
        assert(hi < radix) by (nonlinear_arith)
            requires
                hi == i / radix,
                i < radix * radix,
                radix >= 2,
        ;
        let ghost before = table@;
        table.push(digit_to_char(hi));
        table.push(digit_to_char(lo));
        proof {
            let a = 2 * i as int;
            assert(a % 2 == 0 && a / 2 == i && (a + 1) % 2 == 1 && (a + 1) / 2 == i);
            assert forall|j: int| 0 <= j < table@.len() implies #[trigger] table@[j]
                == pair_table_entry(j, radix as nat) by {
                if j < a {
                    assert(table@[j] == before[j]);
                }
            }
        }
        i = i + 1;
    }
    table
}

/// Write the digits of `value` so that they end just before `index`.
///
/// Returns where the digits start. Nothing else in the buffer changes.
pub fn write_digits(
    value: u64,
    radix: u32,
    table: &[u8],
    buffer: &mut [u8],
    index: usize,
) -> (start: usize)
    requires
        2 <= radix <= 36,
        is_digit_pair_table(table@, radix as nat),
        index <= old(buffer)@.len(),
        digits(value as nat, radix as nat).len() <= index,
    ensures
        start == index - digits(value as nat, radix as nat).len(),
        final(buffer)@ == old(buffer)@.subrange(0, start as int) + digits(value as nat, radix as nat)
            + old(buffer)@.subrange(index as int, old(buffer)@.len() as int),
{
    let ghost rn = radix as nat;
    let ghost all = digits(value as nat, rn);
    let ghost before = buffer@;
    let radix1: u64 = radix as u64;
    assert(4 <= radix1 * radix1 <= 1296 && 16 <= (radix1 * radix1) * (radix1 * radix1) <= 1679616)
        by (nonlinear_arith)
        requires
            2 <= radix1 <= 36,
    ;
    let radix2: u64 = radix1 * radix1;
    let radix4: u64 = radix2 * radix2;
    let mut value: u64 = value;
    let mut index: usize = index;
    let ghost end = index;

    assert(buffer@.subrange(index as int, end as int) =~= Seq::<u8>::empty());
    assert(all =~= digits(value as nat, rn) + buffer@.subrange(index as int, end as int));

    // Decode 4 digits at a time.
    while value >= radix4
        invariant
            2 <= radix <= 36,
            rn == radix,
            radix1 == radix,
            radix2 == radix1 * radix1,
            radix4 == radix2 * radix2,
            4 <= radix2 <= 1296,
            16 <= radix4,
            is_digit_pair_table(table@, rn),
            index <= end <= buffer@.len(),
            buffer@.len() == before.len(),
            all.len() <= end,
            all == digits(value as nat, rn) + buffer@.subrange(index as int, end as int),
            forall|j: int| 0 <= j < index || end <= j < before.len() ==> buffer@[j] == before[j],
        decreases value,
    {
        let r: u64 = value % radix4;
        let ghost v0 = value as nat;
        let ghost tail = buffer@.subrange(index as int, end as int);
        value = value / radix4;
        let q1: u64 = r / radix2;
        let q2: u64 = r % radix2;
        proof {
            lemma_four_digits(v0, rn, radix2 as nat, radix4 as nat);
            lemma_table_pair(table@, rn, q1 as nat);
            lemma_table_pair(table@, rn, q2 as nat);
        }
        let r1: usize = (2 * q1) as usize;
        let r2: usize = (2 * q2) as usize;
        index = index - 1;
        buffer[index] = table[r2 + 1];
        index = index - 1;
        buffer[index] = table[r2];
        index = index - 1;
        buffer[index] = table[r1 + 1];
        index = index - 1;
        buffer[index] = table[r1];
        proof {
            let pair1 = seq![table@[r1 as int], table@[r1 + 1]];
            let pair2 = seq![table@[r2 as int], table@[r2 + 1]];
            assert(buffer@.subrange(index as int, end as int) =~= pair1 + pair2 + tail);
            assert(digits(value as nat, rn) + pair1 + pair2 + tail =~= digits(value as nat, rn) + (pair1
                + pair2 + tail));
        }
    }

    // Decode 2 digits at a time.
    while value >= radix2
        invariant
            2 <= radix <= 36,
            rn == radix,
            radix1 == radix,
            radix2 == radix1 * radix1,
            4 <= radix2 <= 1296,
            is_digit_pair_table(table@, rn),
            index <= end <= buffer@.len(),
            buffer@.len() == before.len(),
            all.len() <= end,
            all == digits(value as nat, rn) + buffer@.subrange(index as int, end as int),
            forall|j: int| 0 <= j < index || end <= j < before.len() ==> buffer@[j] == before[j],
        decreases value,
    {
        let q: u64 = value % radix2;
        let ghost v0 = value as nat;
        let ghost tail = buffer@.subrange(index as int, end as int);
        value = value / radix2;
        proof {
            lemma_two_digits(v0, rn, radix2 as nat);
            lemma_table_pair(table@, rn, q as nat);
        }
        let r: usize = (2 * q) as usize;
        index = index - 1;
        buffer[index] = table[r + 1];
        index = index - 1;
        buffer[index] = table[r];
        proof {
            let pair = seq![table@[r as int], table@[r + 1]];
            assert(buffer@.subrange(index as int, end as int) =~= pair + tail);
            assert(digits(value as nat, rn) + pair + tail =~= digits(value as nat, rn) + (pair + tail));
        }
    }

    // Decode last 2 digits.
    let ghost tail = buffer@.subrange(index as int, end as int);
    if value < radix1 {
        proof {
            lemma_digits_nonempty(value as nat, rn);
        }
        index = index - 1;
        buffer[index] = digit_to_char(value as u32);
        proof {
            let one = seq![digit_char(value as int)];
            assert(buffer@.subrange(index as int, end as int) =~= one + tail);
        }
    } else {
        proof {
            lemma_table_pair(table@, rn, value as nat);
            lemma_fixed_digits_len(value as nat, rn, 2);
        }
        let r: usize = (2 * value) as usize;
        index = index - 1;
        buffer[index] = table[r + 1];
        index = index - 1;
        buffer[index] = table[r];
        proof {
            let pair = seq![table@[r as int], table@[r + 1]];
            assert(buffer@.subrange(index as int, end as int) =~= pair + tail);
        }
    }
    proof {
        assert(buffer@.subrange(index as int, end as int) =~= all);
        assert(buffer@ =~= before.subrange(0, index as int) + all + before.subrange(
            end as int,
            before.len() as int,
        ));
    }
    index
}

/// Write exactly `step` digits of `value`, zero-padded on the left, so that
/// they end just before `index`.
///
/// Returns where the digits start. Nothing else in the buffer changes.
pub fn write_step_digits(
    value: u64,
    radix: u32,
    table: &[u8],
    buffer: &mut [u8],
    index: usize,
    step: usize,
) -> (end: usize)
    requires
        2 <= radix <= 36,
        is_digit_pair_table(table@, radix as nat),
        1 <= step <= index <= old(buffer)@.len(),
        value < radix_pow(radix as nat, step as nat),
    ensures
        end == index - step,
        final(buffer)@ == old(buffer)@.subrange(0, end as int) + fixed_digits(
            value as nat,
            radix as nat,
            step as nat,
        ) + old(buffer)@.subrange(index as int, old(buffer)@.len() as int),
{
    let ghost before = buffer@;
    let ghost all = digits(value as nat, radix as nat);
    proof {
        lemma_fixed_digits_pad(value as nat, radix as nat, step as nat);
    }
    let start: usize = index;
    let index: usize = write_digits(value, radix, table, buffer, index);
    // Write the remaining 0 bytes.
    let end: usize = start - step;
    let ghost written = buffer@;
    let mut i: usize = end;
    while i < index
        invariant
            end <= i <= index <= start <= buffer@.len(),
            buffer@.len() == written.len(),
            forall|j: int| end <= j < i ==> buffer@[j] == 48u8,
            forall|j: int| 0 <= j < end || index <= j < written.len() ==> buffer@[j] == written[j],
        decreases index - i,
    {
        buffer[i] = 48u8;
        i = i + 1;
    }
    proof {
        // Piece by piece: the bytes before, the zeros, the digits, the bytes
        // behind.
        let pad = zeros((step - all.len()) as nat);
        let head = before.subrange(0, end as int);
        let body = pad + all;
        let rest = before.subrange(start as int, before.len() as int);
        let composed = head + body + rest;
        assert(written.len() == before.len());
        assert(forall|j: int| 0 <= j < index ==> written[j] == before[j]);
        assert(forall|j: int| start <= j < before.len() ==> written[j] == before[j]);
        assert(forall|j: int| index <= j < start ==> written[j] == all[j - index]);
        assert forall|j: int| 0 <= j < before.len() implies buffer@[j] == composed[j] by {
            if j < end {
                assert(composed[j] == head[j]);
                assert(buffer@[j] == written[j]);
            } else if j < index {
                assert(composed[j] == body[j - end]);
                assert(body[j - end] == pad[j - end]);
                assert(buffer@[j] == 48u8);
            } else if j < start {
                assert(composed[j] == body[j - end]);
                assert(body[j - end] == all[j - index]);
                assert(buffer@[j] == written[j]);
            } else {
                assert(composed[j] == rest[j - start]);
                assert(buffer@[j] == written[j]);
            }
        }
        assert(buffer@ =~= composed);
    }
    end
}

/// Write the digits of `value` in `radix` at the end of `buffer`.
///
/// Returns the index where the digits start: the formatted number is the
/// buffer from there to its end. The bytes before it are left as they were.
/// The buffer must hold at least as many bytes as `value` has digits.
pub fn algorithm(value: u64, radix: u32, table: &[u8], buffer: &mut [u8]) -> (start: usize)
    requires
        2 <= radix <= 36,
        is_digit_pair_table(table@, radix as nat),
        digits(value as nat, radix as nat).len() <= old(buffer)@.len(),
    ensures
        start == old(buffer)@.len() - digits(value as nat, radix as nat).len(),
        final(buffer)@ == old(buffer)@.subrange(0, start as int) + digits(value as nat, radix as nat),
        parse_digits(
            final(buffer)@.subrange(start as int, final(buffer)@.len() as int),
            radix as nat,
        ) == Some(value as nat),
{
    let len: usize = buffer.len();
    let ghost before = buffer@;
    let start: usize = write_digits(value, radix, table, buffer, len);
    proof {
        assert(before.subrange(len as int, len as int) =~= Seq::<u8>::empty());
        assert(buffer@ =~= before.subrange(0, start as int) + digits(value as nat, radix as nat));
        assert(buffer@.subrange(start as int, len as int) =~= digits(value as nat, radix as nat));
        lemma_digits_round_trip(value as nat, radix as nat);
    }
    start
}

/// The number of digits of `value` in `radix`.
pub fn digit_count(value: u128, radix: u32) -> (count: usize)
    requires
        2 <= radix <= 36,
    ensures
        count == digits(value as nat, radix as nat).len(),
        1 <= count <= 128,
{
    let ghost rn = radix as nat;
    let radix1: u128 = radix as u128;
    let mut rest: u128 = value;
    let mut count: usize = 1;
    proof {
        lemma_digits_nonempty(value as nat, rn);
        lemma_digits_fit(value, rn);
    }
    while rest >= radix1
        invariant
            2 <= radix <= 36,
            rn == radix,
            radix1 == radix,
            count >= 1,
            digits(rest as nat, rn).len() >= 1,
            digits(value as nat, rn).len() == digits(rest as nat, rn).len() + count - 1,
            digits(value as nat, rn).len() <= 128,
        decreases rest,
    {
        proof {
            lemma_div_radix_decreases(rest as nat, rn);
            lemma_digits_nonempty((rest / radix1) as nat, rn);
            assert(digits(rest as nat, rn) == digits((rest / radix1) as nat, rn).push(
                digit_char((rest % radix1) as int),
            ));
        }
        rest = rest / radix1;
        count = count + 1;
    }
    assert(digits(rest as nat, rn).len() == 1);
    count
}

/// Whether `table` is the digit-pair table of `radix`.
pub fn is_valid_table(table: &[u8], radix: u32) -> (ok: bool)
    requires
        2 <= radix <= 36,
    ensures
        ok == is_digit_pair_table(table@, radix as nat),
{
    assert(radix * radix <= 1296) by (nonlinear_arith)
        requires
            radix <= 36,
    ;
    let count: usize = (radix * radix) as usize;
    if table.len() != 2 * count {
        return false;
    }
    let mut i: usize = 0;
    while i < count
        invariant
            2 <= radix <= 36,
            count == radix * radix,
            count <= 1296,
            i <= count,
            table@.len() == 2 * count,
            forall|j: int| 0 <= j < 2 * i ==> #[trigger] table@[j] == pair_table_entry(j, radix as nat),
        decreases count - i,
    {
        let hi: u32 = (i as u32) / radix;
        let lo: u32 = (i as u32) % radix;
        assert(hi < radix) by (nonlinear_arith)
            requires
                hi == (i as u32) / radix,
                (i as u32) < radix * radix,
                radix >= 2,
        ;
        proof {
            let a = 2 * i as int;
            assert(a % 2 == 0 && a / 2 == i && (a + 1) % 2 == 1 && (a + 1) / 2 == i);
        }
        if table[2 * i] != digit_to_char(hi) || table[2 * i + 1] != digit_to_char(lo) {
            proof {
                if table@[2 * i as int] != pair_table_entry(2 * i as int, radix as nat) {
                } else {
                    assert(table@[2 * i as int + 1] != pair_table_entry(2 * i as int + 1, radix as nat));
                }
            }
            return false;
        }
        proof {
            assert forall|j: int| 0 <= j < 2 * (i + 1) implies #[trigger] table@[j]
                == pair_table_entry(j, radix as nat) by {
            }
        }
        i = i + 1;
    }
    true
}

/// Why `format_integer` fails, if it does: the first of its conditions
/// that is not met.
pub open spec fn integer_format_error(
    value: u128,
    radix: u32,
    table: Seq<u8>,
    capacity: nat,
) -> Option<FormatError> {
    if !(2 <= radix <= 36) {
        Some(FormatError::InvalidRadix)
    } else if !is_digit_pair_table(table, radix as nat) {
        Some(FormatError::InvalidTable)
    } else if digits(value as nat, radix as nat).len() > capacity {
        Some(FormatError::BufferTooSmall)
    } else {
        None
    }
}

/// Format an unsigned integer of up to 128 bits in `radix`, with every
/// condition checked.
///
/// The digits are written at the end of `buffer`; the index where they
/// start is returned. Fails, and leaves the buffer as it is, where the radix
/// is not between 2 and 36, where `table` is not the digit-pair table of the
/// radix, or where the buffer is shorter than the digits.
pub fn format_integer(
    value: u128,
    radix: u32,
    table: &[u8],
    buffer: &mut [u8],
) -> (r: Result<usize, FormatError>)
    ensures
        match r {
            Ok(start) => {
                &&& integer_format_error(value, radix, table@, old(buffer)@.len()) is None
                &&& start == old(buffer)@.len() - digits(value as nat, radix as nat).len()
                &&& final(buffer)@ == old(buffer)@.subrange(0, start as int) + digits(
                    value as nat,
                    radix as nat,
                )
            },
            Err(e) => {
                &&& integer_format_error(value, radix, table@, old(buffer)@.len()) == Some(e)
                &&& final(buffer)@ == old(buffer)@
            },
        },
{
    if radix < 2 || radix > 36 {
        return Err(FormatError::InvalidRadix);
    }
    if !is_valid_table(table, radix) {
        return Err(FormatError::InvalidTable);
    }
    if digit_count(value, radix) > buffer.len() {
        return Err(FormatError::BufferTooSmall);
    }
    Ok(algorithm_u128(value, radix, table, buffer))
}

/// Write the digits of `value` in `radix` from `index` on, left to right.
///
/// Returns the index just behind the last digit. Nothing else in the buffer
/// changes.
pub fn forward(value: u64, radix: u32, table: &[u8], buffer: &mut [u8], index: usize) -> (end: usize)
    requires
        2 <= radix <= 36,
        is_digit_pair_table(table@, radix as nat),
        index + digits(value as nat, radix as nat).len() <= old(buffer)@.len(),
    ensures
        end == index + digits(value as nat, radix as nat).len(),
        final(buffer)@ == old(buffer)@.subrange(0, index as int) + digits(value as nat, radix as nat)
            + old(buffer)@.subrange(end as int, old(buffer)@.len() as int),
{
    // Count the digits, then write them from the right.
    let len: usize = buffer.len();
    let count: usize = digit_count(value as u128, radix);
    let end: usize = index + count;
    let start: usize = write_digits(value, radix, table, buffer, end);
    end
}

/// The number of digits by which a 128-bit value is cut into chunks.
///
/// Calls `lexical_util::step::u64_step`, which looks the radix up in a table
/// of digit counts. Trusted, not proved: for each radix from 2 to 36 the
/// table holds the largest count whose power of the radix does not exceed
/// `2^64`, which is the integer logarithm of `2^64` in that radix.
#[verifier::external_body]
fn u64_step(radix: u32) -> (step: usize)
    requires
        2 <= radix <= 36,
    ensures
        step == step_digits(radix as nat),
{
    lexical_util::step::u64_step(radix)
}

/// Quotient and remainder of `n` by the step divisor of `radix`.
///
/// Calls `lexical_util::div128::u128_divrem`, which divides by a constant
/// that it holds for each radix. Trusted, not proved: that constant is the
/// radix to the power of its step, the largest power that is at most
/// `2^64`, and what is returned is the quotient and the remainder of `n` by
/// it.
#[verifier::external_body]
fn u128_divrem(n: u128, radix: u32) -> (r: (u128, u64))
    requires
        2 <= radix <= 36,
    ensures
        r.0 == n as nat / step_divisor(radix as nat),
        r.1 == n as nat % step_divisor(radix as nat),
{
    lexical_util::div128::u128_divrem(n, radix)
}

/// One chunk of a 128-bit value: the digits of `n` are the digits of the
/// quotient by the step divisor, then the step digits of the remainder.
pub proof fn lemma_chunk(n: nat, radix: nat)
    requires
        2 <= radix <= 36,
        n >= 0x1_0000_0000_0000_0000,
    ensures
        n % step_divisor(radix) < step_divisor(radix),
        n / step_divisor(radix) >= 1,
        n / step_divisor(radix) * 0x400_0000_0000_0000 <= n,
        digits(n, radix) == digits(n / step_divisor(radix), radix) + fixed_digits(
            n % step_divisor(radix),
            radix,
            step_digits(radix),
        ),
        digits(n, radix).len() == digits(n / step_divisor(radix), radix).len() + step_digits(radix),
{
    let d = step_divisor(radix);
    let s = step_digits(radix);
    lemma_step_divisor_bounds(radix);
    lemma_digits_split(n, radix, s);
    lemma_fixed_digits_mod(n, radix, s);
    lemma_fixed_digits_len(n % d, radix, s);
    assert(n % d < d && n / d >= 1 && n / d * 0x400_0000_0000_0000 <= n) by (nonlinear_arith)
        requires
            0x400_0000_0000_0000 < d <= 0x1_0000_0000_0000_0000,
            n >= 0x1_0000_0000_0000_0000,
    ;
}

/// Write the digits of a 128-bit `value` in `radix` at the end of `buffer`.
///
/// Returns the index where the digits start: the formatted number is the
/// buffer from there to its end. The bytes before it are left as they were.
/// The buffer must hold at least as many bytes as `value` has digits.
pub fn algorithm_u128(value: u128, radix: u32, table: &[u8], buffer: &mut [u8]) -> (start: usize)
    requires
        2 <= radix <= 36,
        is_digit_pair_table(table@, radix as nat),
        digits(value as nat, radix as nat).len() <= old(buffer)@.len(),
    ensures
        start == old(buffer)@.len() - digits(value as nat, radix as nat).len(),
        final(buffer)@ == old(buffer)@.subrange(0, start as int) + digits(value as nat, radix as nat),
        parse_digits(
            final(buffer)@.subrange(start as int, final(buffer)@.len() as int),
            radix as nat,
        ) == Some(value as nat),
{
    // If the value fits in 64 bits, write it as a native integer.
    if value <= u64::MAX as u128 {
        return algorithm(value as u64, radix, table, buffer);
    }
    let ghost rn = radix as nat;
    let ghost before = buffer@;
    let ghost len = before.len() as int;
    let ghost v0 = value as nat;

    // Cut the value into chunks of `step` digits, least significant first.
    // Each chunk is zero-padded to its width, so that zeros inside the
    // number are kept.
    let step: usize = u64_step(radix);
    let (value, low): (u128, u64) = u128_divrem(value, radix);
    proof {
        lemma_chunk(v0, rn);
        lemma_step_divisor_bounds(rn);
    }
    let mut index: usize = buffer.len();
    index = write_step_digits(low, radix, table, buffer, index, step);
    let ghost chunk0 = fixed_digits(low as nat, rn, step as nat);
    assert(buffer@ =~= before.subrange(0, index as int) + chunk0);
    if value <= u64::MAX as u128 {
        let start: usize = write_digits(value as u64, radix, table, buffer, index);
        proof {
            assert(buffer@ =~= before.subrange(0, start as int) + (digits(value as nat, rn) + chunk0));
            assert(buffer@.subrange(start as int, len) =~= digits(v0, rn));
            lemma_digits_round_trip(v0, rn);
        }
        return start;
    }
    // The value is greater than 1.8e38 here.

    let ghost v1 = value as nat;
    let ghost mid_buffer = buffer@;
    let (value, mid): (u128, u64) = u128_divrem(value, radix);
    proof {
        lemma_chunk(v1, rn);
        assert(value < 0x1_0000_0000_0000_0000) by (nonlinear_arith)
            requires
                value * 0x400_0000_0000_0000 <= v1,
                v1 * 0x400_0000_0000_0000 <= v0,
                v0 < 0x1_0000_0000_0000_0000_0000_0000_0000_0000,
        ;
    }
    index = write_step_digits(mid, radix, table, buffer, index, step);
    let ghost chunk1 = fixed_digits(mid as nat, rn, step as nat);
    let start: usize = write_digits(value as u64, radix, table, buffer, index);
    proof {
        assert(buffer@ =~= before.subrange(0, start as int) + ((digits(value as nat, rn) + chunk1)
            + chunk0));
        assert(buffer@.subrange(start as int, len) =~= digits(v0, rn));
        lemma_digits_round_trip(v0, rn);
    }
    start
}

} // verus!
