//! Digit characters and digit strings in a radix from 2 to 36.
//!
//! Digits 0 to 9 are written `'0'` to `'9'`, digits 10 to 35 `'A'` to `'Z'`.
//! A digit string is a sequence of such bytes, most significant digit first.

use vstd::prelude::*;
use vstd::arithmetic::power::{pow, lemma_pow0, lemma_pow_positive};
use vstd::arithmetic::power2::{pow2, lemma_pow2_unfold, lemma2_to64};
use vstd::arithmetic::div_mod::{lemma_div_denominator, lemma_mod_breakdown};

verus! {

/// The byte that stands for the digit `d`.
pub open spec fn digit_char(d: int) -> u8 {
    if d < 10 {
        (d + 48) as u8
    } else {
        (d + 55) as u8
    }
}

/// The digit that the byte `c` stands for, in either case of the letters;
/// 255 for a byte that is no digit in any radix.
pub open spec fn char_digit(c: u8) -> int {
    if 48 <= c <= 57 {
        c - 48
    } else if 65 <= c <= 90 {
        c - 55
    } else if 97 <= c <= 122 {
        c - 87
    } else {
        255
    }
}

/// Dividing by a radix makes a number of at least that radix smaller.
pub proof fn lemma_div_radix_decreases(v: nat, radix: nat)
    by (nonlinear_arith)
    requires
        radix >= 2,
        v >= radix,
    ensures
        0 < v / radix < v,
{
}

/// `radix^n` as a natural number.
pub open spec fn radix_pow(radix: nat, n: nat) -> nat {
    pow(radix as int, n) as nat
}

/// The digits of `v` in `radix`, most significant first, without leading
/// zeros; the single digit `0` for zero.
pub open spec fn digits(v: nat, radix: nat) -> Seq<u8>
    decreases v,
{
    if radix < 2 || v < radix {
        seq![digit_char(v as int)]
    } else {
        proof {
            lemma_div_radix_decreases(v, radix);
        }
        digits(v / radix, radix).push(digit_char((v % radix) as int))
    }
}

/// The last `n` digits of `v` in `radix`, padded with zeros on the left.
pub open spec fn fixed_digits(v: nat, radix: nat, n: nat) -> Seq<u8>
    decreases n,
{
    if n == 0 {
        Seq::empty()
    } else {
        fixed_digits(v / radix, radix, (n - 1) as nat).push(digit_char((v % radix) as int))
    }
}

/// `n` zero digits.
pub open spec fn zeros(n: nat) -> Seq<u8> {
    Seq::new(n, |i: int| 48u8)
}

/// Every byte of `s` is a digit below `radix`, and there is at least one.
pub open spec fn is_digit_string(s: Seq<u8>, radix: nat) -> bool {
    s.len() > 0 && forall|i: int| 0 <= i < s.len() ==> 0 <= char_digit(#[trigger] s[i]) < radix
}

/// The number that a digit string denotes in `radix`.
pub open spec fn digits_value(s: Seq<u8>, radix: nat) -> nat
    decreases s.len(),
{
    if s.len() == 0 {
        0
    } else {
        (digits_value(s.drop_last(), radix) * radix + char_digit(s.last())) as nat
    }
}

/// Reading a digit string: its value, or `None` where a byte is no digit of
/// the radix or the string is empty.
pub open spec fn parse_digits(s: Seq<u8>, radix: nat) -> Option<nat> {
    if is_digit_string(s, radix) {
        Some(digits_value(s, radix))
    } else {
        None
    }
}

/// Convert a digit to its character.
pub fn digit_to_char(digit: u32) -> (c: u8)
    requires
        digit < 36,
    ensures
        c == digit_char(digit as int),
        char_digit(c) == digit,
{
    if digit < 10 {
        digit as u8 + 48
    } else {
        digit as u8 + 55
    }
}

/// Convert a character to the digit it stands for in `radix`, if it is one.
pub fn char_to_digit(c: u8, radix: u32) -> (r: Option<u32>)
    ensures
        r == (if char_digit(c) < radix {
            Some(char_digit(c) as u32)
        } else {
            None
        }),
{
    let digit: u32 = if 48 <= c && c <= 57 {
        (c - 48) as u32
    } else if 65 <= c && c <= 90 {
        (c - 55) as u32
    } else if 97 <= c && c <= 122 {
        (c - 87) as u32
    } else {
        255
    };
    if digit < radix {
        Some(digit)
    } else {
        None
    }
}

/// `radix^(n+1) == radix * radix^n`, and powers of a radix are positive.
pub proof fn lemma_radix_pow_unfold(radix: nat, n: nat)
    requires
        radix >= 1,
    ensures
        radix_pow(radix, 0) == 1,
        radix_pow(radix, n) > 0,
        radix_pow(radix, n + 1) == radix * radix_pow(radix, n),
{
    lemma_pow0(radix as int);
    lemma_pow_positive(radix as int, n);
    lemma_pow_positive(radix as int, n + 1);
    reveal(pow);
}

/// The first few powers, written out.
pub proof fn lemma_radix_pow_small(radix: nat)
    requires
        radix >= 1,
    ensures
        radix_pow(radix, 1) == radix,
        radix_pow(radix, 2) == radix * radix,
        radix_pow(radix, 4) == (radix * radix) * (radix * radix),
{
    lemma_radix_pow_unfold(radix, 0);
    lemma_radix_pow_unfold(radix, 1);
    lemma_radix_pow_unfold(radix, 2);
    lemma_radix_pow_unfold(radix, 3);
    let r = radix as int;
    assert(r * (r * (r * r)) == (r * r) * (r * r)) by (nonlinear_arith);
}

/// A digit string of a number has at least one digit.
pub proof fn lemma_digits_nonempty(v: nat, radix: nat)
    ensures
        digits(v, radix).len() >= 1,
    decreases v,
{
    if radix < 2 || v < radix {
    } else {
        lemma_div_radix_decreases(v, radix);
        lemma_digits_nonempty(v / radix, radix);
    }
}

/// `fixed_digits` has the length asked for.
pub proof fn lemma_fixed_digits_len(v: nat, radix: nat, n: nat)
    requires
        radix >= 2,
    ensures
        fixed_digits(v, radix, n).len() == n,
    decreases n,
{
    if n > 0 {
        let rest = fixed_digits(v / radix, radix, (n - 1) as nat);
        lemma_fixed_digits_len(v / radix, radix, (n - 1) as nat);
        assert(rest.len() == n - 1);
        assert(fixed_digits(v, radix, n) == rest.push(digit_char((v % radix) as int)));
    }
}

/// The last `a + b` digits are the last `a` digits of `v / radix^b`, then the
/// last `b` digits of `v`.
pub proof fn lemma_fixed_digits_concat(v: nat, radix: nat, a: nat, b: nat)
    requires
        radix >= 2,
    ensures
        fixed_digits(v, radix, a + b) == fixed_digits(v / radix_pow(radix, b), radix, a)
            + fixed_digits(v, radix, b),
    decreases b,
{
    lemma_radix_pow_unfold(radix, b);
    if b == 0 {
        assert(fixed_digits(v, radix, 0) == Seq::<u8>::empty());
        assert(v / 1 == v);
        assert(fixed_digits(v, radix, a) + Seq::<u8>::empty() =~= fixed_digits(v, radix, a));
    } else {
        let b1 = (b - 1) as nat;
        lemma_radix_pow_unfold(radix, b1);
        lemma_fixed_digits_concat(v / radix, radix, a, b1);
        lemma_div_denominator(v as int, radix as int, radix_pow(radix, b1) as int);
        assert((v / radix) / radix_pow(radix, b1) == v / radix_pow(radix, b));
        let c = digit_char((v % radix) as int);
        let hi = fixed_digits(v / radix_pow(radix, b), radix, a);
        let lo = fixed_digits(v / radix, radix, b1);
        assert(fixed_digits(v, radix, a + b) == fixed_digits(v / radix, radix, (a + b1) as nat).push(c));
        assert((hi + lo).push(c) =~= hi + lo.push(c));
    }
}

/// The last `n` digits depend only on `v mod radix^n`.
pub proof fn lemma_fixed_digits_mod(v: nat, radix: nat, n: nat)
    requires
        radix >= 2,
    ensures
        fixed_digits(v, radix, n) == fixed_digits(v % radix_pow(radix, n), radix, n),
    decreases n,
{
    lemma_radix_pow_unfold(radix, n);
    if n > 0 {
        let n1 = (n - 1) as nat;
        lemma_radix_pow_unfold(radix, n1);
        let p = radix_pow(radix, n1);
        let w = v % radix_pow(radix, n);
        lemma_mod_breakdown(v as int, radix as int, p as int);
        assert(w == radix * ((v / radix) % p) + v % radix);
        let q = (v / radix) % p;
        assert(w / radix == q && w % radix == v % radix) by (nonlinear_arith)
            requires
                w == radix * q + v % radix,
                radix >= 2,
                0 <= v % radix < radix,
        ;
        lemma_fixed_digits_mod(v / radix, radix, n1);
        lemma_fixed_digits_mod(q, radix, n1);
        assert(q % p == q) by (nonlinear_arith)
            requires
                q == (v / radix) % p,
                p > 0,
        ;
    }
}

/// The last `n` digits of zero are `n` zeros.
pub proof fn lemma_fixed_digits_zero(radix: nat, n: nat)
    requires
        radix >= 2,
    ensures
        fixed_digits(0, radix, n) == zeros(n),
    decreases n,
{
    if n == 0 {
        assert(fixed_digits(0, radix, 0) =~= zeros(0));
    } else {
        lemma_fixed_digits_zero(radix, (n - 1) as nat);
        assert(0nat / radix == 0 && 0nat % radix == 0) by (nonlinear_arith)
            requires
                radix >= 2,
        ;
        assert(zeros((n - 1) as nat).push(48u8) =~= zeros(n));
    }
}

/// A number of at least `radix^k` has the digits of `v / radix^k`, then the
/// last `k` digits of `v`.
pub proof fn lemma_digits_split(v: nat, radix: nat, k: nat)
    requires
        radix >= 2,
        v >= radix_pow(radix, k),
    ensures
        digits(v, radix) == digits(v / radix_pow(radix, k), radix) + fixed_digits(v, radix, k),
    decreases k,
{
    lemma_radix_pow_unfold(radix, k);
    if k == 0 {
        assert(v / 1 == v);
        assert(digits(v, radix) + Seq::<u8>::empty() =~= digits(v, radix));
    } else {
        let k1 = (k - 1) as nat;
        lemma_radix_pow_unfold(radix, k1);
        let p = radix_pow(radix, k1);
        assert(v >= radix && v / radix >= p) by (nonlinear_arith)
            requires
                v >= radix * p,
                p >= 1,
                radix >= 2,
        ;
        lemma_digits_split(v / radix, radix, k1);
        lemma_div_denominator(v as int, radix as int, p as int);
        assert((v / radix) / p == v / radix_pow(radix, k));
        let c = digit_char((v % radix) as int);
        let hi = digits(v / radix_pow(radix, k), radix);
        let lo = fixed_digits(v / radix, radix, k1);
        assert((hi + lo).push(c) =~= hi + lo.push(c));
    }
}

/// A number below `radix^k` has at most `k` digits, and its last `k` digits
/// are its digits behind a run of zeros.
pub proof fn lemma_fixed_digits_pad(v: nat, radix: nat, k: nat)
    requires
        radix >= 2,
        k >= 1,
        v < radix_pow(radix, k),
    ensures
        digits(v, radix).len() <= k,
        fixed_digits(v, radix, k) == zeros((k - digits(v, radix).len()) as nat) + digits(v, radix),
    decreases k,
{
    let k1 = (k - 1) as nat;
    lemma_radix_pow_unfold(radix, k1);
    if v < radix {
        assert(v / radix == 0 && v % radix == v) by (nonlinear_arith)
            requires
                v < radix,
        ;
        lemma_fixed_digits_zero(radix, k1);
        assert(zeros(k1).push(digit_char(v as int)) =~= zeros(k1) + seq![digit_char(v as int)]);
    } else {
        let p = radix_pow(radix, k1);
        assert(v / radix < p) by (nonlinear_arith)
            requires
                v < radix * p,
                radix >= 2,
        ;
        assert(k1 >= 1) by {
            lemma_radix_pow_small(radix);
        }
        lemma_fixed_digits_pad(v / radix, radix, k1);
        let c = digit_char((v % radix) as int);
        let d = digits(v / radix, radix);
        let z = zeros((k1 - d.len()) as nat);
        assert((z + d).push(c) =~= z + d.push(c));
    }
}

/// A number of at least `radix^k` has more than `k` digits.
pub proof fn lemma_digits_len_lower(v: nat, radix: nat, k: nat)
    requires
        radix >= 2,
        v >= radix_pow(radix, k),
    ensures
        digits(v, radix).len() >= k + 1,
{
    lemma_digits_split(v, radix, k);
    lemma_fixed_digits_len(v, radix, k);
    lemma_digits_nonempty(v / radix_pow(radix, k), radix);
}

/// A power of a radix is at least the same power of two.
pub proof fn lemma_radix_pow_lower(radix: nat, k: nat)
    requires
        radix >= 2,
    ensures
        radix_pow(radix, k) >= pow2(k),
    decreases k,
{
    lemma_radix_pow_unfold(radix, k);
    if k == 0 {
        lemma2_to64();
    } else {
        let k1 = (k - 1) as nat;
        lemma_radix_pow_lower(radix, k1);
        lemma_radix_pow_unfold(radix, k1);
        lemma_pow2_unfold(k);
        assert(radix * radix_pow(radix, k1) >= 2 * pow2(k1)) by (nonlinear_arith)
            requires
                radix >= 2,
                radix_pow(radix, k1) >= pow2(k1),
        ;
    }
}

/// A number of at most `k` bits has at most `k` digits in any radix.
pub proof fn lemma_digits_len_bound(v: nat, radix: nat, k: nat)
    requires
        radix >= 2,
        k >= 1,
        v < pow2(k),
    ensures
        1 <= digits(v, radix).len() <= k,
{
    lemma_radix_pow_lower(radix, k);
    lemma_fixed_digits_pad(v, radix, k);
    lemma_digits_nonempty(v, radix);
}

/// Reading back what was written gives the number again: the digits of `v`
/// are a digit string of the radix, and their value is `v`.
pub proof fn lemma_digits_round_trip(v: nat, radix: nat)
    requires
        2 <= radix <= 36,
    ensures
        is_digit_string(digits(v, radix), radix),
        digits_value(digits(v, radix), radix) == v,
        parse_digits(digits(v, radix), radix) == Some(v),
    decreases v,
{
    if v < radix {
        let s = digits(v, radix);
        assert(s.drop_last() =~= Seq::<u8>::empty());
        assert(digits_value(s.drop_last(), radix) == 0);
        assert(digits_value(s, radix) == 0 * radix + char_digit(s.last()));
    } else {
        lemma_div_radix_decreases(v, radix);
        lemma_digits_round_trip(v / radix, radix);
        let d = digits(v / radix, radix);
        let c = digit_char((v % radix) as int);
        let s = d.push(c);
        assert(s.drop_last() =~= d);
        assert(0 <= v % radix < radix) by (nonlinear_arith)
            requires
                radix >= 2,
        ;
        assert(char_digit(c) == v % radix);
        assert((v / radix) * radix + v % radix == v) by (nonlinear_arith)
            requires
                radix >= 2,
        ;
        assert forall|i: int| 0 <= i < s.len() implies 0 <= char_digit(#[trigger] s[i]) < radix by {
            if i < d.len() {
                assert(s[i] == d[i]);
            }
        }
    }
}

/// The first digit of a positive number is not zero.
pub proof fn lemma_digits_no_leading_zero(v: nat, radix: nat)
    requires
        2 <= radix <= 36,
        v > 0,
    ensures
        digits(v, radix)[0] != 48u8,
    decreases v,
{
    if v >= radix {
        lemma_div_radix_decreases(v, radix);
        lemma_digits_no_leading_zero(v / radix, radix);
        lemma_digits_nonempty(v / radix, radix);
    }
}

} // verus!
