//! Conversions between extended-precision floats and the bit patterns of
//! native 32-bit and 64-bit floats.
//!
//! A native float is handled as the unsigned integer that holds its bits:
//! the fraction in the low bits, the biased exponent above it, the sign on
//! top. Only non-negative floats are meant; the sign bit is ignored on the
//! way in and never set on the way out.
//!
//! On the way out the fraction is rounded once, to the nearest float, a tie
//! to the even one: to the bits of a normal float, or, below the normal
//! range, to the last bit of the denormals.

use vstd::prelude::*;
use vstd::arithmetic::div_mod::{lemma_fundamental_div_mod, lemma_mod_bound};
use vstd::arithmetic::mul::lemma_mul_is_commutative;
use vstd::arithmetic::power2::{
    pow2,
    lemma_pow2_adds,
    lemma_pow2_pos,
    lemma_pow2_strictly_increases,
    lemma_pow2_unfold,
    lemma2_to64,
    lemma2_to64_rest,
};
use vstd::bits::{lemma_u64_shl_is_mul, lemma_u64_shr_is_div};
use crate::float::{FloatType, lemma_normalize_fits};

verus! {

/// `n / 2^k`, rounded to the nearest integer, a tie to the even one.
pub open spec fn round_half_even(n: int, k: nat) -> int {
    let unit = pow2(k) as int;
    let q = n / unit;
    let r = n % unit;
    if 2 * r > unit || (2 * r == unit && q % 2 == 1) {
        q + 1
    } else {
        q
    }
}

/// The bits of the native float with the fraction `q` and the exponent `e`,
/// in a format with `sig` explicit fraction bits, the exponent `denormal`
/// for its denormals and the exponent `max` for infinity: zero below the
/// denormals, infinity from `max` on, and otherwise the fraction without
/// its hidden bit under the biased exponent, which is zero for a denormal.
pub open spec fn float_bits(q: int, e: int, sig: nat, denormal: int, max: int) -> int {
    if q == 0 || e < denormal {
        0
    } else if e >= max {
        (max - denormal + 1) * pow2(sig)
    } else {
        let biased = if e == denormal && (q / (pow2(sig) as int)) % 2 == 0 {
            0
        } else {
            e - denormal + 1
        };
        q % (pow2(sig) as int) + biased * pow2(sig)
    }
}

/// Rounding half to even gives the nearest integer: the result is within
/// half a unit of `n / 2^k`, and even where it is exactly half a unit off.
pub proof fn lemma_round_half_even_nearest(n: int, k: nat)
    requires
        0 <= n,
    ensures
        n / (pow2(k) as int) <= round_half_even(n, k) <= n / (pow2(k) as int) + 1,
        -pow2(k) <= 2 * (round_half_even(n, k) * pow2(k) - n) <= pow2(k),
        2 * (round_half_even(n, k) * pow2(k) - n) == pow2(k) || 2 * (round_half_even(n, k) * pow2(k)
            - n) == -pow2(k) ==> round_half_even(n, k) % 2 == 0,
{
    lemma_pow2_pos(k);
    let unit = pow2(k) as int;
    let q = n / unit;
    let r = n % unit;
    assert(n == q * unit + r && 0 <= r < unit) by (nonlinear_arith)
        requires
            q == n / unit,
            r == n % unit,
            unit > 0,
    ;
    assert((q + 1) * unit == q * unit + unit) by (nonlinear_arith);
}

/// Rounding away 64 bits or more of a 64-bit number leaves one, where 64
/// bits go and the number is above `2^63`, and else nothing.
proof fn lemma_round_far(n: int, k: nat)
    requires
        0 <= n < 0x1_0000_0000_0000_0000,
        k >= 64,
    ensures
        round_half_even(n, k) == if k == 64 && n > 0x8000_0000_0000_0000 {
            1int
        } else {
            0int
        },
{
    lemma2_to64();
    lemma_pow2_unfold(65);
    if k > 65 {
        lemma_pow2_strictly_increases(65, k);
    }
    let unit = pow2(k) as int;
    assert(n / unit == 0 && n % unit == n) by (nonlinear_arith)
        requires
            0 <= n < unit,
    ;
}

/// A multiple of `2^k` is rounded to its quotient.
proof fn lemma_round_exact(q: int, k: nat)
    requires
        0 <= q,
    ensures
        round_half_even(q * pow2(k), k) == q,
{
    lemma_pow2_pos(k);
    let unit = pow2(k) as int;
    let n = q * unit;
    assert(n / unit == q && n % unit == 0) by (nonlinear_arith)
        requires
            n == q * unit,
            unit > 0,
    ;
}

/// Splitting the bits of a 64-bit float, and putting them together.
proof fn lemma_f64_fields(x: u64, e: u64)
    by (bit_vector)
    ensures
        x & 0x000F_FFFF_FFFF_FFFF == x % 0x0010_0000_0000_0000,
        (x & 0x7FF0_0000_0000_0000) >> 52 == (x / 0x0010_0000_0000_0000) % 2048,
        (x & 0x0010_0000_0000_0000 == 0) == ((x / 0x0010_0000_0000_0000) % 2 == 0),
        e < 2048 ==> (x & 0x000F_FFFF_FFFF_FFFF) | (e << 52) == x % 0x0010_0000_0000_0000 + e
            * 0x0010_0000_0000_0000,
{
}

/// Splitting the bits of a 32-bit float, and putting them together.
proof fn lemma_f32_fields(x: u64, e: u64)
    by (bit_vector)
    ensures
        x & 0x007F_FFFF == x % 0x0080_0000,
        (x & 0x7F80_0000) >> 23 == (x / 0x0080_0000) % 256,
        (x & 0x0080_0000 == 0) == ((x / 0x0080_0000) % 2 == 0),
        e < 256 ==> (x & 0x007F_FFFF) | (e << 23) == x % 0x0080_0000 + e * 0x0080_0000,
{
}

/// The bit operations that round a fraction to the 53 bits of a 64-bit float.
proof fn lemma_f64_rounding(x: u64)
    by (bit_vector)
    ensures
        x & 0x7FF == x % 2048,
        x >> 11 == x / 2048,
        (x & 0x800 == 0x800) == ((x / 2048) % 2 == 1),
        x >> 1 == x / 2,
        (x & 0x0020_0000_0000_0000 == 0x0020_0000_0000_0000) == ((x / 0x0020_0000_0000_0000) % 2
            == 1),
{
}

/// The bit operations that round a fraction to the 24 bits of a 32-bit float.
proof fn lemma_f32_rounding(x: u64)
    by (bit_vector)
    ensures
        x & 0xFF_FFFF_FFFF == x % 0x100_0000_0000,
        x >> 40 == x / 0x100_0000_0000,
        (x & 0x100_0000_0000 == 0x100_0000_0000) == ((x / 0x100_0000_0000) % 2 == 1),
        x >> 1 == x / 2,
        (x & 0x0100_0000 == 0x0100_0000) == ((x / 0x0100_0000) % 2 == 1),
{
}

/// `n` without its lowest `k` bits, rounded to the nearest, a tie to even.
fn round_right(n: u64, k: u32) -> (q: u64)
    requires
        k >= 1,
    ensures
        q == round_half_even(n as int, k as nat),
{
    proof {
        lemma2_to64();
        lemma2_to64_rest();
    }
    if k > 64 {
        proof {
            lemma_round_far(n as int, k as nat);
        }
        0
    } else if k == 64 {
        proof {
            lemma_round_far(n as int, 64);
        }
        if n > 0x8000_0000_0000_0000 {
            1
        } else {
            0
        }
    } else {
        let ghost unit = pow2(k as nat) as int;
        proof {
            lemma_pow2_pos(k as nat);
            lemma_pow2_unfold(k as nat);
            lemma_pow2_strictly_increases(k as nat, 64);
            lemma_pow2_strictly_increases((k - 1) as nat, 64);
            lemma_u64_shr_is_div(n, k as u64);
            lemma_fundamental_div_mod(n as int, unit);
            lemma_mod_bound(n as int, unit);
            lemma_mul_is_commutative(unit, n as int / unit);
            lemma_u64_shl_is_mul(1, (k - 1) as u64);
        }
        let q: u64 = n >> (k as u64);
        proof {
            lemma_u64_shl_is_mul(q, k as u64);
        }
        let rest: u64 = n - (q << (k as u64));
        let half: u64 = 1u64 << ((k - 1) as u64);
        assert(rest == n as int % unit);
        assert(2 * half == unit);
        assert(q <= n);
        if rest > half || (rest == half && q % 2 == 1) {
            assert(q < 0x8000_0000_0000_0000) by (nonlinear_arith)
                requires
                    q * unit <= n,
                    unit >= 2,
                    n < 0x1_0000_0000_0000_0000,
            ;
            q + 1
        } else {
            q
        }
    }
}

impl FloatType {
    /// Fraction and exponent after normalizing and rounding the fraction to
    /// `sig + 1` bits, to the nearest, a tie to even; where rounding carries
    /// into one bit more, the fraction is halved and the exponent raised.
    pub open spec fn spec_rounded(self, sig: nat) -> (int, int) {
        let lz = self.normalize_shift();
        let shift = (63 - sig) as nat;
        let q = round_half_even(self.frac * pow2(lz), shift);
        let e = self.exp - lz + shift;
        if q == pow2(sig + 1) {
            (q / 2, e + 1)
        } else {
            (q, e)
        }
    }

    /// How many low bits of the normalized fraction a float does not keep:
    /// all but `sig + 1` for a normal float; below the normal range, where
    /// such a fraction would lie under the exponent `denormal`, all that lie
    /// under that exponent.
    pub open spec fn spec_dropped_bits(self, sig: nat, denormal: int) -> nat {
        let low = self.exp - self.normalize_shift();
        if low + (63 - sig) >= denormal {
            (63 - sig) as nat
        } else {
            (denormal - low) as nat
        }
    }

    /// Fraction and exponent of the nearest float: the normalized fraction,
    /// rounded once at the last bit that the float keeps, to the nearest, a
    /// tie to even. Where rounding carries into one bit more than a float
    /// has, the fraction is halved and the exponent raised. Below the normal
    /// range the exponent is `denormal`, and a fraction that is rounded up to
    /// the hidden bit is the smallest normal float.
    pub open spec fn spec_nearest(self, sig: nat, denormal: int) -> (int, int) {
        let lz = self.normalize_shift();
        let drop = self.spec_dropped_bits(sig, denormal);
        let q = round_half_even(self.frac * pow2(lz), drop);
        let e = self.exp - lz + drop;
        if q == pow2(sig + 1) {
            (q / 2, e + 1)
        } else {
            (q, e)
        }
    }

    /// Fraction and exponent as `normalize_to_f32` and `normalize_to_f64`
    /// leave them: those of the nearest float; where nothing is left of the
    /// fraction at the denormal exponent, the fraction as rounded to
    /// `sig + 1` bits, at its exponent below the denormals; and a zero
    /// fraction at an exponent from `max` on, up to `sig` above it, is brought
    /// just under `max`.
    pub open spec fn spec_exported(self, sig: nat, denormal: int, max: int) -> (int, int) {
        let (q1, e1) = self.spec_nearest(sig, denormal);
        let (q2, e2) = if q1 == 0 {
            self.spec_rounded(sig)
        } else {
            (q1, e1)
        };
        if 0 <= e2 - max <= sig && q2 < pow2((sig - (e2 - max)) as nat) {
            (q2 * pow2((e2 - max + 1) as nat), max - 1)
        } else {
            (q2, e2)
        }
    }

    /// The rounded fraction has at most `sig + 1` bits, and exactly as many
    /// unless the fraction is zero.
    pub proof fn lemma_rounded_bounds(self, sig: nat)
        requires
            1 <= sig <= 62,
        ensures
            0 <= self.spec_rounded(sig).0 < pow2(sig + 1),
            self.frac != 0 ==> self.spec_rounded(sig).0 >= pow2(sig),
            self.frac == 0 ==> self.spec_rounded(sig).0 == 0,
            self.spec_rounded(sig).1 >= self.exp - 63 + (63 - sig),
            self.spec_rounded(sig).1 >= self.exp - self.normalize_shift() + (63 - sig),
            self.spec_rounded(sig).1 <= self.exp - self.normalize_shift() + (63 - sig) + 1,
    {
        lemma_normalize_fits(self);
        lemma2_to64();
        lemma2_to64_rest();
        let lz = self.normalize_shift();
        let shift = (63 - sig) as nat;
        let n = self.frac * pow2(lz);
        let unit = pow2(shift) as int;
        lemma_pow2_pos(shift);
        lemma_pow2_adds(shift, sig + 1);
        lemma_pow2_adds(shift, sig);
        lemma_pow2_adds(sig, 1);
        let top = pow2(sig + 1) as int;
        let bottom = pow2(sig) as int;
        assert(n / unit < top && n / unit >= 0) by (nonlinear_arith)
            requires
                0 <= n < unit * top,
                unit > 0,
        ;
        if self.frac != 0 {
            assert(n / unit >= bottom) by (nonlinear_arith)
                requires
                    n >= unit * bottom,
                    unit > 0,
            ;
        } else {
            assert(n == 0);
            assert(0int / unit == 0 && 0int % unit == 0) by (nonlinear_arith)
                requires
                    unit > 0,
            ;
        }
    }

    /// What is known of the nearest float. Its fraction has at most
    /// `sig + 1` bits. In the normal range it is the fraction rounded to
    /// `sig + 1` bits. Below, its exponent is `denormal` and its fraction is at
    /// most the hidden bit; and where nothing is left of it, the fraction
    /// rounded to `sig + 1` bits lies below the denormals.
    pub proof fn lemma_nearest_bounds(self, sig: nat, denormal: int)
        requires
            1 <= sig <= 62,
        ensures
            0 <= self.spec_nearest(sig, denormal).0 < pow2(sig + 1),
            self.frac == 0 ==> self.spec_nearest(sig, denormal).0 == 0,
            self.exp - self.normalize_shift() + (63 - sig) >= denormal ==> self.spec_nearest(
                sig,
                denormal,
            ) == self.spec_rounded(sig),
            self.exp - self.normalize_shift() + (63 - sig) < denormal ==> {
                &&& self.spec_nearest(sig, denormal).1 == denormal
                &&& self.spec_nearest(sig, denormal).0 <= pow2(sig)
                &&& self.spec_nearest(sig, denormal).0 == 0 ==> self.spec_rounded(sig).1
                    < denormal
            },
    {
        lemma_normalize_fits(self);
        self.lemma_rounded_bounds(sig);
        lemma2_to64();
        lemma2_to64_rest();
        let lz = self.normalize_shift();
        let shift = (63 - sig) as nat;
        let n = self.frac * pow2(lz);
        lemma_pow2_strictly_increases(sig, sig + 1);
        lemma_pow2_pos(sig);
        if self.exp - lz + shift < denormal {
            let drop = self.spec_dropped_bits(sig, denormal);
            assert(drop > shift);
            let q = round_half_even(n as int, drop);
            if drop >= 64 {
                lemma_round_far(n as int, drop);
            } else {
                let unit = pow2(drop) as int;
                let room = (64 - drop) as nat;
                lemma_pow2_pos(drop);
                lemma_pow2_adds(drop, room);
                lemma_round_half_even_nearest(n as int, drop);
                assert(n / unit < pow2(room)) by (nonlinear_arith)
                    requires
                        0 <= n < unit * pow2(room),
                        unit > 0,
                ;
                if room < sig {
                    lemma_pow2_strictly_increases(room, sig);
                }
                if self.frac != 0 {
                    lemma_pow2_strictly_increases(drop, 64);
                    if drop < 63 {
                        lemma_pow2_strictly_increases(drop, 63);
                    }
                    assert(n / unit >= 1) by (nonlinear_arith)
                        requires
                            n >= unit,
                            unit > 0,
                    ;
                } else {
                    assert(0int / unit == 0 && 0int % unit == 0) by (nonlinear_arith)
                        requires
                            unit > 0,
                    ;
                }
            }
            assert(q <= pow2(sig));
            assert(q != pow2(sig + 1));
        }
    }

    /// Fraction and exponent ready for export to a 32-bit float, as a value
    /// of this type.
    pub open spec fn spec_normalize_to_f32(self) -> FloatType {
        let (q, e) = self.spec_exported(23, -149, 105);
        FloatType { frac: q as u64, exp: e as i32 }
    }

    /// The bits of the nearest 32-bit float: zero where the value is
    /// rounded to nothing, infinity where it is rounded past the largest
    /// float.
    pub open spec fn spec_as_f32(self) -> u32 {
        let (q, e) = self.spec_nearest(23, -149);
        float_bits(q, e, 23, -149, 105) as u32
    }

    /// What a 32-bit float with the bits `bits` is as an extended float:
    /// the fraction with its hidden bit at the unbiased exponent, or, for a
    /// denormal, the fraction alone at the denormal exponent.
    pub open spec fn spec_from_f32(bits: u32) -> FloatType {
        let biased = (bits as int / 0x800000) % 256;
        let fraction = bits as int % 0x800000;
        if biased != 0 {
            FloatType { frac: (fraction + 0x800000) as u64, exp: (biased - 150) as i32 }
        } else {
            FloatType { frac: fraction as u64, exp: (-149) as i32 }
        }
    }

    /// Lossy normalize float-point number to f32 fraction boundaries.
    ///
    /// Afterwards fraction and exponent are those of the nearest 32-bit
    /// float: the fraction has its 24 bits, or, below the normal range,
    /// fewer at the denormal exponent, rounded once to the nearest, ties to
    /// even. A value that is rounded to nothing keeps its fraction of 24
    /// bits, at an exponent below the denormals.
    pub fn normalize_to_f32(&mut self)
        requires
            old(self).exp - old(self).normalize_shift() >= i32::MIN,
            old(self).spec_rounded(23).1 <= i32::MAX,
        ensures
            *final(self) == old(self).spec_normalize_to_f32(),
    {
        let ghost orig = *self;
        proof {
            lemma_normalize_fits(orig);
            orig.lemma_rounded_bounds(23);
            orig.lemma_nearest_bounds(23, -149);
            lemma2_to64();
            lemma2_to64_rest();
        }
        // Shift all the way left, to ensure a consistent representation.
        self.normalize();

        // Round the bits beyond the fraction of the float to the nearest,
        // ties to even.
        let whole: u64 = self.frac;
        let low: i32 = self.exp;
        proof {
            lemma_f32_rounding(whole);
        }
        let truncated_bits: u64 = whole & 0xFF_FFFF_FFFF;
        let is_above: bool = truncated_bits > 0x80_0000_0000;
        let is_halfway: bool = truncated_bits == 0x80_0000_0000;
        let is_odd: bool = whole & 0x100_0000_0000 == 0x100_0000_0000;
        let is_roundup: bool = is_above || (is_odd && is_halfway);
        let mut frac: u64 = whole >> 40;
        let mut exp: i32 = low + 40;
        if is_roundup {
            frac = frac + 1;
        }
        assert(frac == round_half_even(whole as int, 40));
        proof {
            lemma_f32_rounding(frac);
        }
        if frac & 0x0100_0000 == 0x0100_0000 {
            // The roundup carried over to one past the hidden bit.
            frac = frac >> 1;
            exp = exp + 1;
        }
        assert((frac as int, exp as int) == orig.spec_rounded(23));

        // Below the normal range the fraction is rounded anew, once, at the
        // last bit of the denormals. Where that leaves nothing, it stays.
        if low + 40 < Self::F32_DENORMAL_EXPONENT {
            let drop: u32 = (Self::F32_DENORMAL_EXPONENT as i64 - low as i64) as u32;
            let nearest: u64 = round_right(whole, drop);
            if nearest != 0 {
                frac = nearest;
                exp = Self::F32_DENORMAL_EXPONENT;
            }
        }
        assert(frac < pow2(24));

        // Avoid overflow for large values: shift left where the bits from
        // the hidden bit down are free.
        if exp >= Self::F32_MAX_EXPONENT {
            let diff: i32 = exp - Self::F32_MAX_EXPONENT;
            if diff <= Self::F32_SIGNIFICAND_SIZE {
                let free: u64 = (Self::F32_SIGNIFICAND_SIZE - diff) as u64;
                proof {
                    lemma_u64_shr_is_div(frac, free);
                    lemma_pow2_pos(free as nat);
                    let p = pow2(free as nat) as int;
                    assert((frac as int / p == 0) == (frac < p)) by (nonlinear_arith)
                        requires
                            0 <= frac,
                            0 < p,
                    ;
                }
                if frac >> free == 0 {
                    let shift: i32 = diff + 1;
                    proof {
                        lemma_pow2_adds(free as nat, shift as nat);
                        let a = pow2(free as nat) as int;
                        let b = pow2(shift as nat) as int;
                        lemma_pow2_pos(shift as nat);
                        assert(frac * b < a * b) by (nonlinear_arith)
                            requires
                                0 <= frac < a,
                                b > 0,
                        ;
                        lemma_u64_shl_is_mul(frac, shift as u64);
                    }
                    frac = frac << (shift as u64);
                    exp = exp - shift;
                }
            }
        }
        self.frac = frac;
        self.exp = exp;
    }

    /// Create extended float from the bits of a 32-bit float.
    ///
    /// The float must not be negative, infinite or NaN: its sign bit is
    /// ignored, and the exponent field of the specials is taken as any other.
    pub fn from_f32(bits: u32) -> (r: FloatType)
        ensures
            r == Self::spec_from_f32(bits),
    {
        let bits: u64 = bits as u64;
        proof {
            lemma_f32_fields(bits, 0);
        }
        let frac: u64 = bits & Self::F32_FRACTION_MASK;
        let biased: i32 = ((bits & Self::F32_EXPONENT_MASK) >> 23) as i32;
        if biased != 0 {
            FloatType {
                frac: frac + Self::F32_HIDDEN_BIT_MASK,
                exp: biased - Self::F32_EXPONENT_BIAS,
            }
        } else {
            FloatType { frac, exp: -Self::F32_EXPONENT_BIAS + 1 }
        }
    }

    /// Convert to the bits of the nearest 32-bit float.
    ///
    /// The fraction is normalized and rounded once to the nearest, ties to
    /// even, for normal floats and for denormals alike; a value that is
    /// rounded to nothing gives zero, a value that is rounded past the
    /// largest float gives infinity.
    pub fn as_f32(&self) -> (bits: u32)
        ensures
            bits == self.spec_as_f32(),
    {
        proof {
            self.lemma_rounded_bounds(23);
            self.lemma_nearest_bounds(23, -149);
            lemma_normalize_fits(*self);
            lemma2_to64();
            lemma2_to64_rest();
        }
        if self.frac == 0 {
            return 0;
        }
        if self.exp < -400 {
            // Far below the denormals, whatever the fraction.
            proof {
                let n = self.frac * pow2(self.normalize_shift());
                lemma_round_far(n as int, self.spec_dropped_bits(23, -149));
            }
            return 0;
        }
        if self.exp > 400 {
            // Far above the largest float, whatever the fraction.
            return Self::U32_INFINITY;
        }
        // Create a normalized fraction for export.
        let mut x: FloatType = *self;
        x.normalize_to_f32();
        proof {
            self.lemma_exported_bits(23, -149, 105);
        }
        if x.frac == 0 || x.exp < Self::F32_DENORMAL_EXPONENT {
            // sub-denormal, underflow
            0
        } else if x.exp >= Self::F32_MAX_EXPONENT {
            // overflow
            Self::U32_INFINITY
        } else {
            // Calculate the exponent and fraction bits.
            proof {
                lemma_f32_fields(x.frac, (x.exp + 150) as u64);
                lemma_f32_fields(x.frac, 0);
            }
            let denormal: bool = x.exp == Self::F32_DENORMAL_EXPONENT && (x.frac
                & Self::F32_HIDDEN_BIT_MASK) == 0;
            let exp: u64 = if denormal {
                0
            } else {
                (x.exp + Self::F32_EXPONENT_BIAS) as u64
            };
            let exp: u64 = exp << 23;
            let frac: u64 = x.frac & Self::F32_FRACTION_MASK;
            (frac | exp) as u32
        }
    }

    /// Converting the bits of a 32-bit float to an extended float and back
    /// gives the same bits, for every float that is zero or positive and
    /// finite.
    pub proof fn lemma_f32_round_trip(bits: u32)
        requires
            bits < 0x7F80_0000,
        ensures
            Self::spec_from_f32(bits).spec_as_f32() == bits,
    {
        lemma2_to64();
        lemma2_to64_rest();
        let x = Self::spec_from_f32(bits);
        let biased = (bits as int / 0x800000) % 256;
        let fraction = bits as int % 0x800000;
        assert(bits as int / 0x800000 < 256 - 1);
        assert(biased == bits as int / 0x800000);
        if biased != 0 {
            crate::float::lemma_bit_length_range(x.frac as nat, 24);
            assert(x.normalize_shift() == 40);
            x.lemma_nearest_exact(23, -149);
            assert(x.frac * pow2(0) == x.frac);
            assert(x.spec_nearest(23, -149) == (x.frac as int, x.exp as int));
        } else if fraction == 0 {
            x.lemma_nearest_bounds(23, -149);
        } else {
            x.lemma_nearest_denormal(23, -149);
        }
    }

    /// Fraction and exponent ready for export to a 64-bit float, as a value
    /// of this type.
    pub open spec fn spec_normalize_to_f64(self) -> FloatType {
        let (q, e) = self.spec_exported(52, -1074, 972);
        FloatType { frac: q as u64, exp: e as i32 }
    }

    /// The bits of the nearest 64-bit float: zero where the value is
    /// rounded to nothing, infinity where it is rounded past the largest
    /// float.
    pub open spec fn spec_as_f64(self) -> u64 {
        let (q, e) = self.spec_nearest(52, -1074);
        float_bits(q, e, 52, -1074, 972) as u64
    }

    /// What a 64-bit float with the bits `bits` is as an extended float:
    /// the fraction with its hidden bit at the unbiased exponent, or, for a
    /// denormal, the fraction alone at the denormal exponent.
    pub open spec fn spec_from_f64(bits: u64) -> FloatType {
        let biased = (bits as int / 0x10000000000000) % 2048;
        let fraction = bits as int % 0x10000000000000;
        if biased != 0 {
            FloatType { frac: (fraction + 0x10000000000000) as u64, exp: (biased - 1075) as i32 }
        } else {
            FloatType { frac: fraction as u64, exp: (-1074) as i32 }
        }
    }

    /// Lossy normalize float-point number to f64 fraction boundaries.
    ///
    /// Afterwards fraction and exponent are those of the nearest 64-bit
    /// float: the fraction has its 53 bits, or, below the normal range,
    /// fewer at the denormal exponent, rounded once to the nearest, ties to
    /// even. A value that is rounded to nothing keeps its fraction of 53
    /// bits, at an exponent below the denormals.
    pub fn normalize_to_f64(&mut self)
        requires
            old(self).exp - old(self).normalize_shift() >= i32::MIN,
            old(self).spec_rounded(52).1 <= i32::MAX,
        ensures
            *final(self) == old(self).spec_normalize_to_f64(),
    {
        let ghost orig = *self;
        proof {
            lemma_normalize_fits(orig);
            orig.lemma_rounded_bounds(52);
            orig.lemma_nearest_bounds(52, -1074);
            lemma2_to64();
            lemma2_to64_rest();
        }
        // Shift all the way left, to ensure a consistent representation.
        self.normalize();

        // Round the bits beyond the fraction of the float to the nearest,
        // ties to even.
        let whole: u64 = self.frac;
        let low: i32 = self.exp;
        proof {
            lemma_f64_rounding(whole);
        }
        let truncated_bits: u64 = whole & 0x7FF;
        let is_above: bool = truncated_bits > 0x400;
        let is_halfway: bool = truncated_bits == 0x400;
        let is_odd: bool = whole & 0x800 == 0x800;
        let is_roundup: bool = is_above || (is_odd && is_halfway);
        let mut frac: u64 = whole >> 11;
        let mut exp: i32 = low + 11;
        if is_roundup {
            frac = frac + 1;
        }
        assert(frac == round_half_even(whole as int, 11));
        proof {
            lemma_f64_rounding(frac);
        }
        if frac & 0x0020_0000_0000_0000 == 0x0020_0000_0000_0000 {
            // The roundup carried over to one past the hidden bit.
            frac = frac >> 1;
            exp = exp + 1;
        }
        assert((frac as int, exp as int) == orig.spec_rounded(52));

        // Below the normal range the fraction is rounded anew, once, at the
        // last bit of the denormals. Where that leaves nothing, it stays.
        if low + 11 < Self::F64_DENORMAL_EXPONENT {
            let drop: u32 = (Self::F64_DENORMAL_EXPONENT as i64 - low as i64) as u32;
            let nearest: u64 = round_right(whole, drop);
            if nearest != 0 {
                frac = nearest;
                exp = Self::F64_DENORMAL_EXPONENT;
            }
        }
        assert(frac < pow2(53));

        // Avoid overflow for large values: shift left where the bits from
        // the hidden bit down are free.
        if exp >= Self::F64_MAX_EXPONENT {
            let diff: i32 = exp - Self::F64_MAX_EXPONENT;
            if diff <= Self::F64_SIGNIFICAND_SIZE {
                let free: u64 = (Self::F64_SIGNIFICAND_SIZE - diff) as u64;
                proof {
                    lemma_u64_shr_is_div(frac, free);
                    lemma_pow2_pos(free as nat);
                    let p = pow2(free as nat) as int;
                    assert((frac as int / p == 0) == (frac < p)) by (nonlinear_arith)
                        requires
                            0 <= frac,
                            0 < p,
                    ;
                }
                if frac >> free == 0 {
                    let shift: i32 = diff + 1;
                    proof {
                        lemma_pow2_adds(free as nat, shift as nat);
                        let a = pow2(free as nat) as int;
                        let b = pow2(shift as nat) as int;
                        lemma_pow2_pos(shift as nat);
                        assert(frac * b < a * b) by (nonlinear_arith)
                            requires
                                0 <= frac < a,
                                b > 0,
                        ;
                        lemma_u64_shl_is_mul(frac, shift as u64);
                    }
                    frac = frac << (shift as u64);
                    exp = exp - shift;
                }
            }
        }
        self.frac = frac;
        self.exp = exp;
    }

    /// Create extended float from the bits of a 64-bit float.
    ///
    /// The float must not be negative, infinite or NaN: its sign bit is
    /// ignored, and the exponent field of the specials is taken as any other.
    pub fn from_f64(bits: u64) -> (r: FloatType)
        ensures
            r == Self::spec_from_f64(bits),
    {
        let bits: u64 = bits as u64;
        proof {
            lemma_f64_fields(bits, 0);
        }
        let frac: u64 = bits & Self::F64_FRACTION_MASK;
        let biased: i32 = ((bits & Self::F64_EXPONENT_MASK) >> 52) as i32;
        if biased != 0 {
            FloatType {
                frac: frac + Self::F64_HIDDEN_BIT_MASK,
                exp: biased - Self::F64_EXPONENT_BIAS,
            }
        } else {
            FloatType { frac, exp: -Self::F64_EXPONENT_BIAS + 1 }
        }
    }

    /// Convert to the bits of the nearest 64-bit float.
    ///
    /// The fraction is normalized and rounded once to the nearest, ties to
    /// even, for normal floats and for denormals alike; a value that is
    /// rounded to nothing gives zero, a value that is rounded past the
    /// largest float gives infinity.
    pub fn as_f64(&self) -> (bits: u64)
        ensures
            bits == self.spec_as_f64(),
    {
        proof {
            self.lemma_rounded_bounds(52);
            self.lemma_nearest_bounds(52, -1074);
            lemma_normalize_fits(*self);
            lemma2_to64();
            lemma2_to64_rest();
        }
        if self.frac == 0 {
            return 0;
        }
        if self.exp < -1400 {
            // Far below the denormals, whatever the fraction.
            proof {
                let n = self.frac * pow2(self.normalize_shift());
                lemma_round_far(n as int, self.spec_dropped_bits(52, -1074));
            }
            return 0;
        }
        if self.exp > 1400 {
            // Far above the largest float, whatever the fraction.
            return Self::U64_INFINITY;
        }
        // Create a normalized fraction for export.
        let mut x: FloatType = *self;
        x.normalize_to_f64();
        proof {
            self.lemma_exported_bits(52, -1074, 972);
        }
        if x.frac == 0 || x.exp < Self::F64_DENORMAL_EXPONENT {
            // sub-denormal, underflow
            0
        } else if x.exp >= Self::F64_MAX_EXPONENT {
            // overflow
            Self::U64_INFINITY
        } else {
            // Calculate the exponent and fraction bits.
            proof {
                lemma_f64_fields(x.frac, (x.exp + 1075) as u64);
                lemma_f64_fields(x.frac, 0);
            }
            let denormal: bool = x.exp == Self::F64_DENORMAL_EXPONENT && (x.frac
                & Self::F64_HIDDEN_BIT_MASK) == 0;
            let exp: u64 = if denormal {
                0
            } else {
                (x.exp + Self::F64_EXPONENT_BIAS) as u64
            };
            let exp: u64 = exp << 52;
            let frac: u64 = x.frac & Self::F64_FRACTION_MASK;
            (frac | exp) as u64
        }
    }

    /// Converting the bits of a 64-bit float to an extended float and back
    /// gives the same bits, for every float that is zero or positive and
    /// finite.
    pub proof fn lemma_f64_round_trip(bits: u64)
        requires
            bits < 0x7FF0_0000_0000_0000,
        ensures
            Self::spec_from_f64(bits).spec_as_f64() == bits,
    {
        lemma2_to64();
        lemma2_to64_rest();
        let x = Self::spec_from_f64(bits);
        let biased = (bits as int / 0x10000000000000) % 2048;
        let fraction = bits as int % 0x10000000000000;
        assert(bits as int / 0x10000000000000 < 2048 - 1);
        assert(biased == bits as int / 0x10000000000000);
        if biased != 0 {
            crate::float::lemma_bit_length_range(x.frac as nat, 53);
            assert(x.normalize_shift() == 11);
            x.lemma_nearest_exact(52, -1074);
            assert(x.frac * pow2(0) == x.frac);
            assert(x.spec_nearest(52, -1074) == (x.frac as int, x.exp as int));
        } else if fraction == 0 {
            x.lemma_nearest_bounds(52, -1074);
        } else {
            x.lemma_nearest_denormal(52, -1074);
        }
    }

    /// Where nothing is rounded off, the conversion is exact: a fraction of
    /// at most `sig + 1` bits whose top bit comes to lie at an exponent of the
    /// normal range is only shifted up to the hidden bit.
    pub proof fn lemma_nearest_exact(self, sig: nat, denormal: int)
        requires
            1 <= sig <= 62,
            0 < self.frac < pow2(sig + 1),
            denormal <= self.exp - self.normalize_shift() + (63 - sig),
        ensures
            self.normalize_shift() >= 63 - sig,
            self.spec_nearest(sig, denormal) == (
                self.frac * pow2((self.normalize_shift() - (63 - sig)) as nat),
                self.exp - self.normalize_shift() + (63 - sig),
            ),
            pow2(sig) <= self.frac * pow2((self.normalize_shift() - (63 - sig)) as nat) < pow2(sig + 1),
    {
        lemma_normalize_fits(self);
        self.lemma_rounded_bounds(sig);
        lemma2_to64();
        lemma2_to64_rest();
        let lz = self.normalize_shift();
        let shift = (63 - sig) as nat;
        lemma_pow2_adds(sig + 1, shift);
        lemma_pow2_pos(lz);
        if lz < shift {
            let below = (shift - 1) as nat;
            if lz < below {
                lemma_pow2_strictly_increases(lz, below);
            }
            lemma_pow2_adds(sig + 1, below);
            assert(self.frac * pow2(lz) < pow2(sig + 1) * pow2(below)) by (nonlinear_arith)
                requires
                    0 < self.frac < pow2(sig + 1),
                    0 < pow2(lz) <= pow2(below),
            ;
        }
        assert(lz >= shift);
        let up = (lz - shift) as nat;
        lemma_pow2_adds(up, shift);
        lemma_pow2_pos(shift);
        let unit = pow2(shift) as int;
        let q = self.frac * pow2(up);
        let n = self.frac * pow2(lz);
        assert(n == q * unit) by (nonlinear_arith)
            requires
                n == self.frac * pow2(lz),
                q == self.frac * pow2(up),
                pow2(lz) == pow2(up) * unit,
        ;
        lemma_round_exact(q as int, shift);
        lemma_pow2_adds(sig, shift);
        assert(q >= pow2(sig)) by (nonlinear_arith)
            requires
                q * unit >= pow2(sig) * unit,
                unit > 0,
        ;
        assert(q < pow2(sig + 1)) by (nonlinear_arith)
            requires
                q * unit < pow2(sig + 1) * unit,
                unit > 0,
        ;
        assert(self.spec_dropped_bits(sig, denormal) == shift);
    }

    /// A denormal is converted as it is: a fraction below the hidden bit at
    /// the denormal exponent.
    pub proof fn lemma_nearest_denormal(self, sig: nat, denormal: int)
        requires
            1 <= sig <= 62,
            0 < self.frac < pow2(sig),
            self.exp == denormal,
        ensures
            self.spec_nearest(sig, denormal) == (self.frac as int, denormal),
    {
        lemma_normalize_fits(self);
        lemma2_to64();
        lemma2_to64_rest();
        let lz = self.normalize_shift();
        let shift = (63 - sig) as nat;
        lemma_pow2_adds(sig, shift);
        lemma_pow2_pos(lz);
        if lz <= shift {
            if lz < shift {
                lemma_pow2_strictly_increases(lz, shift);
            }
            assert(self.frac * pow2(lz) < pow2(sig) * pow2(shift)) by (nonlinear_arith)
                requires
                    0 < self.frac < pow2(sig),
                    0 < pow2(lz) <= pow2(shift),
            ;
        }
        assert(lz > shift);
        assert(self.spec_dropped_bits(sig, denormal) == lz);
        lemma_round_exact(self.frac as int, lz);
        lemma_pow2_strictly_increases(sig, sig + 1);
    }

    /// The conversion is to the nearest float: the fraction of the nearest
    /// float, at its exponent, differs from the value by at most half a
    /// unit of the last bit that the floats of its range keep, and is even
    /// where it differs by exactly half a unit and rounding did not carry.
    /// The two are compared in units of the exponent of the normalized
    /// fraction.
    pub proof fn lemma_nearest_is_nearest(self, sig: nat, denormal: int)
        requires
            1 <= sig <= 62,
        ensures
            ({
                let lz = self.normalize_shift();
                let drop = self.spec_dropped_bits(sig, denormal);
                let (q, e) = self.spec_nearest(sig, denormal);
                let up = (e - (self.exp - lz)) as nat;
                let off = 2 * (q * pow2(up) - self.frac * pow2(lz));
                &&& drop >= 63 - sig
                &&& drop <= e - (self.exp - lz) <= drop + 1
                &&& e >= denormal || self.frac == 0
                &&& -pow2(drop) <= off <= pow2(drop)
                &&& up == drop && (off == pow2(drop) || off == -pow2(drop)) ==> q % 2 == 0
            }),
    {
        lemma_normalize_fits(self);
        self.lemma_rounded_bounds(sig);
        self.lemma_nearest_bounds(sig, denormal);
        let lz = self.normalize_shift();
        let drop = self.spec_dropped_bits(sig, denormal);
        let n = self.frac * pow2(lz);
        let q0 = round_half_even(n as int, drop);
        lemma_round_half_even_nearest(n as int, drop);
        if q0 == pow2(sig + 1) {
            lemma_pow2_adds(sig, 1);
            lemma_pow2_adds(drop, 1);
            lemma2_to64();
            let half = q0 / 2;
            let unit = pow2(drop) as int;
            assert(half * pow2(drop + 1) == q0 * unit) by (nonlinear_arith)
                requires
                    q0 == 2 * half,
                    pow2(drop + 1) == unit * 2,
            ;
        }
    }

    /// What `normalize_to_f32` and `normalize_to_f64` leave stands for the
    /// nearest float: it has the same bits, and a fraction of at most
    /// `sig + 1` bits.
    pub proof fn lemma_exported_bits(self, sig: nat, denormal: int, max: int)
        requires
            1 <= sig <= 62,
            denormal < max,
        ensures
            0 <= self.spec_exported(sig, denormal, max).0 < pow2(sig + 1),
            float_bits(
                self.spec_exported(sig, denormal, max).0,
                self.spec_exported(sig, denormal, max).1,
                sig,
                denormal,
                max,
            ) == float_bits(
                self.spec_nearest(sig, denormal).0,
                self.spec_nearest(sig, denormal).1,
                sig,
                denormal,
                max,
            ),
    {
        self.lemma_rounded_bounds(sig);
        self.lemma_nearest_bounds(sig, denormal);
        let (q1, e1) = self.spec_nearest(sig, denormal);
        let (q2, e2) = if q1 == 0 {
            self.spec_rounded(sig)
        } else {
            (q1, e1)
        };
        if 0 <= e2 - max <= sig && q2 < pow2((sig - (e2 - max)) as nat) {
            let free = (sig - (e2 - max)) as nat;
            let a = pow2(free) as int;
            let b = pow2((e2 - max + 1) as nat) as int;
            lemma_pow2_adds(free, (e2 - max + 1) as nat);
            lemma_pow2_pos((e2 - max + 1) as nat);
            if free < sig {
                lemma_pow2_strictly_increases(free, sig);
            }
            assert(0 <= q2 * b < a * b) by (nonlinear_arith)
                requires
                    0 <= q2 < a,
                    b > 0,
            ;
            assert(q2 == 0);
            assert(q2 * b == 0) by (nonlinear_arith)
                requires
                    q2 == 0,
            ;
        }
    }
}

} // verus!
