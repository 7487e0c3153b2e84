//! Extended-precision floating-point type.
//!
//! A value is `frac * 2^exp` with a 64-bit fraction and a 32-bit exponent.
//! There is no sign: only non-negative magnitudes are represented.

use vstd::prelude::*;
use vstd::arithmetic::power2::{
    pow2,
    lemma_pow2_adds,
    lemma_pow2_pos,
    lemma_pow2_strictly_increases,
    lemma_pow2_unfold,
    lemma2_to64,
    lemma2_to64_rest,
};

verus! {

/// Number of binary digits of `n`: 0 for 0, and `floor(log2(n)) + 1` otherwise.
pub open spec fn bit_length(n: nat) -> nat
    decreases n,
{
    if n == 0 {
        0
    } else {
        1 + bit_length(n / 2)
    }
}

/// A positive `n` with `2^(k-1) <= n < 2^k` has exactly `k` binary digits.
pub proof fn lemma_bit_length_range(n: nat, k: nat)
    requires
        k >= 1,
        pow2((k - 1) as nat) <= n < pow2(k),
    ensures
        bit_length(n) == k,
    decreases k,
{
    lemma_pow2_pos((k - 1) as nat);
    lemma_pow2_unfold(k);
    if k == 1 {
        lemma2_to64();
        assert(n == 1);
        assert(bit_length(1) == 1 + bit_length(0));
    } else {
        lemma_pow2_unfold((k - 1) as nat);
        lemma_bit_length_range(n / 2, (k - 1) as nat);
    }
}

/// Doubling a positive number adds one binary digit.
pub proof fn lemma_bit_length_shift(n: nat, s: nat)
    requires
        n > 0,
    ensures
        bit_length(n * pow2(s)) == bit_length(n) + s,
    decreases s,
{
    if s == 0 {
        lemma2_to64();
    } else {
        lemma_pow2_unfold(s);
        lemma_pow2_pos((s - 1) as nat);
        let m = n * pow2((s - 1) as nat);
        assert(n * pow2(s) == 2 * m) by (nonlinear_arith)
            requires
                pow2(s) == 2 * pow2((s - 1) as nat),
                m == n * pow2((s - 1) as nat),
        ;
        assert(m > 0) by (nonlinear_arith)
            requires
                n > 0,
                pow2((s - 1) as nat) > 0,
                m == n * pow2((s - 1) as nat),
        ;
        lemma_bit_length_shift(n, (s - 1) as nat);
        assert((2 * m) / 2 == m);
    }
}

/// The normalized fraction fits in 64 bits, and its top bit is set unless
/// the fraction is zero.
pub proof fn lemma_normalize_fits(x: FloatType)
    ensures
        x.normalize_shift() <= 63,
        x.frac * pow2(x.normalize_shift()) <= u64::MAX,
        x.frac != 0 ==> x.frac * pow2(x.normalize_shift()) >= 0x8000_0000_0000_0000,
        x.spec_normalize().frac == x.frac * pow2(x.normalize_shift()),
{
    lemma2_to64();
    lemma2_to64_rest();
    if x.frac != 0 {
        let n = x.frac as nat;
        lemma_bit_length_bounds(n);
        let k = bit_length(n);
        if k > 64 {
            lemma_pow2_strictly_increases(64, (k - 1) as nat);
        }
        if k == 65 {
            assert(pow2(64) <= n);
        }
        let s = (64 - k) as nat;
        lemma_pow2_adds((k - 1) as nat, s);
        lemma_pow2_adds(k, s);
        lemma_pow2_pos(s);
        assert(n * pow2(s) >= pow2((k - 1) as nat) * pow2(s) && n * pow2(s) < pow2(k) * pow2(s))
            by (nonlinear_arith)
            requires
                pow2((k - 1) as nat) <= n < pow2(k),
                pow2(s) > 0,
        ;
    } else {
        assert(x.frac * pow2(63) == 0);
    }
}

/// A positive number lies between the two powers of two that its bit
/// length names.
pub proof fn lemma_bit_length_bounds(n: nat)
    requires
        n > 0,
    ensures
        bit_length(n) >= 1,
        pow2((bit_length(n) - 1) as nat) <= n < pow2(bit_length(n)),
    decreases n,
{
    lemma2_to64();
    if n == 1 {
        assert(bit_length(1) == 1 + bit_length(0));
    } else {
        lemma_bit_length_bounds(n / 2);
        let k = bit_length(n / 2);
        lemma_pow2_unfold(k);
        lemma_pow2_unfold(k + 1);
    }
}

/// Scaling by `2^s` and then by `2^k` scales by `2^(s + k)`.
proof fn lemma_pow2_scale(x: int, s: nat, k: nat)
    ensures
        x * pow2(s) * pow2(k) == x * pow2(s + k),
        x * pow2(0) == x,
{
    lemma_pow2_adds(s, k);
    lemma2_to64();
    assert(x * pow2(s) * pow2(k) == x * (pow2(s) * pow2(k))) by (nonlinear_arith);
}

/// One lossless left shift of `k` bits, for each `k` that normalization tries.
proof fn lemma_shift_steps(x: u64)
    by (bit_vector)
    ensures
        x >> 32 == 0 ==> (x << 32) == x * 0x1_0000_0000 && x < 0x1_0000_0000,
        x >> 32 != 0 ==> x >= 0x1_0000_0000,
        x >> 48 == 0 ==> (x << 16) == x * 0x1_0000 && x < 0x1_0000_0000_0000,
        x >> 48 != 0 ==> x >= 0x1_0000_0000_0000,
        x >> 56 == 0 ==> (x << 8) == x * 0x100 && x < 0x100_0000_0000_0000,
        x >> 56 != 0 ==> x >= 0x100_0000_0000_0000,
        x >> 60 == 0 ==> (x << 4) == x * 0x10 && x < 0x1000_0000_0000_0000,
        x >> 60 != 0 ==> x >= 0x1000_0000_0000_0000,
        x >> 62 == 0 ==> (x << 2) == x * 4 && x < 0x4000_0000_0000_0000,
        x >> 62 != 0 ==> x >= 0x4000_0000_0000_0000,
        x >> 63 == 0 ==> (x << 1) == x * 2 && x < 0x8000_0000_0000_0000,
        x >> 63 != 0 ==> x >= 0x8000_0000_0000_0000,
{
}

/// Extended-precision float: the non-negative number `frac * 2^exp`.
#[derive(Clone, Copy, Debug, PartialEq, Eq, Structural)]
pub struct FloatType {
    pub exp: i32,
    pub frac: u64,
}

impl FloatType {
    // MASKS
    /// Bit-mask for the sign of a 32-bit float.
    pub const F32_SIGN_MASK: u64 = 0x0000000080000000;

    /// Bit-mask for the exponent of a 32-bit float, including the hidden bit.
    pub const F32_EXPONENT_MASK: u64 = 0x000000007F800000;

    /// Bit-mask for the hidden bit of a 32-bit float.
    pub const F32_HIDDEN_BIT_MASK: u64 = 0x0000000000800000;

    /// Bit-mask for the fraction of a 32-bit float, excluding the hidden bit.
    pub const F32_FRACTION_MASK: u64 = 0x00000000007FFFFF;

    /// Bit-mask for the sign of a 64-bit float.
    pub const F64_SIGN_MASK: u64 = 0x8000000000000000;

    /// Bit-mask for the exponent of a 64-bit float, including the hidden bit.
    pub const F64_EXPONENT_MASK: u64 = 0x7FF0000000000000;

    /// Bit-mask for the hidden bit of a 64-bit float.
    pub const F64_HIDDEN_BIT_MASK: u64 = 0x0010000000000000;

    /// Bit-mask for the fraction of a 64-bit float, excluding the hidden bit.
    pub const F64_FRACTION_MASK: u64 = 0x000FFFFFFFFFFFFF;

    // PROPERTIES
    /// Positive infinity of a 32-bit float, as bits.
    pub const U32_INFINITY: u32 = 0x7F800000;

    /// Size of a 32-bit float.
    pub const F32_FLOAT_SIZE: i32 = 32;

    /// Size of the significand of a 32-bit float, without the hidden bit.
    pub const F32_SIGNIFICAND_SIZE: i32 = 23;

    /// Size of the exponent of a 32-bit float.
    pub const F32_EXPONENT_SIZE: i32 = 8;

    /// Bias of the exponent of a 32-bit float, for an integral fraction.
    pub const F32_EXPONENT_BIAS: i32 = 150;

    /// Exponent of a denormal 32-bit float.
    pub const F32_DENORMAL_EXPONENT: i32 = -149;

    /// The exponent at which a 32-bit float is infinite.
    pub const F32_MAX_EXPONENT: i32 = 105;

    /// Minimum exponent of a 32-bit float.
    pub const F32_MIN_EXPONENT: i32 = -150;

    /// Positive infinity of a 64-bit float, as bits.
    pub const U64_INFINITY: u64 = 0x7FF0000000000000;

    /// Size of a 64-bit float.
    pub const F64_FLOAT_SIZE: i32 = 64;

    /// Size of the significand of a 64-bit float, without the hidden bit.
    pub const F64_SIGNIFICAND_SIZE: i32 = 52;

    /// Size of the exponent of a 64-bit float.
    pub const F64_EXPONENT_SIZE: i32 = 11;

    /// Bias of the exponent of a 64-bit float, for an integral fraction.
    pub const F64_EXPONENT_BIAS: i32 = 1075;

    /// Exponent of a denormal 64-bit float.
    pub const F64_DENORMAL_EXPONENT: i32 = -1074;

    /// The exponent at which a 64-bit float is infinite.
    pub const F64_MAX_EXPONENT: i32 = 972;

    /// Minimum exponent of a 64-bit float.
    pub const F64_MIN_EXPONENT: i32 = -1075;

    /// How far `normalize` shifts the fraction to the left: the number of
    /// leading zero bits, and 63 for a zero fraction.
    pub open spec fn normalize_shift(self) -> nat {
        if self.frac == 0 {
            63
        } else {
            (64 - bit_length(self.frac as nat)) as nat
        }
    }

    /// The normalized form: fraction shifted left by `normalize_shift`, exponent
    /// lowered by as much.
    pub open spec fn spec_normalize(self) -> FloatType {
        FloatType {
            frac: (self.frac * pow2(self.normalize_shift())) as u64,
            exp: (self.exp - self.normalize_shift()) as i32,
        }
    }

    /// The most-significant bit of the fraction is set.
    pub open spec fn is_normalized(self) -> bool {
        self.frac >= 0x8000_0000_0000_0000
    }

    /// Both stand for the same number `frac * 2^exp`: the fractions agree
    /// once both are scaled to the smaller of the two exponents.
    pub open spec fn same_value(self, other: FloatType) -> bool {
        let low = if self.exp <= other.exp {
            self.exp
        } else {
            other.exp
        };
        self.frac * pow2((self.exp - low) as nat) == other.frac * pow2((other.exp - low) as nat)
    }

    /// Normalizing never changes the number that a value stands for.
    pub proof fn lemma_normalize_preserves_value(self)
        requires
            self.exp - self.normalize_shift() >= i32::MIN,
        ensures
            self.same_value(self.spec_normalize()),
            self.frac != 0 ==> self.spec_normalize().is_normalized(),
    {
        lemma_normalize_fits(self);
        lemma2_to64();
        let n = self.spec_normalize();
        assert(n.exp == self.exp - self.normalize_shift());
        assert(n.frac * pow2(0) == n.frac) by (nonlinear_arith)
            requires
                pow2(0) == 1,
        ;
    }

    /// Normalizing a normalized value leaves it unchanged.
    pub proof fn lemma_normalize_idempotent(self)
        requires
            self.is_normalized(),
        ensures
            self.spec_normalize() == self,
    {
        lemma2_to64();
        lemma2_to64_rest();
        lemma_bit_length_range(self.frac as nat, 64);
        assert(self.frac * pow2(0) == self.frac) by (nonlinear_arith)
            requires
                pow2(0) == 1,
        ;
    }

    /// Normalizing twice is normalizing once, for a value that is not zero.
    pub proof fn lemma_normalize_twice(self)
        requires
            self.frac != 0,
            self.exp - self.normalize_shift() >= i32::MIN,
        ensures
            self.spec_normalize().spec_normalize() == self.spec_normalize(),
    {
        self.lemma_normalize_preserves_value();
        self.spec_normalize().lemma_normalize_idempotent();
    }

    /// Create extended float from 8-bit unsigned integer.
    pub fn from_u8(i: u8) -> (r: FloatType)
        ensures
            r.frac == i,
            r.exp == 0,
    {
        FloatType { frac: i as u64, exp: 0 }
    }

    /// Create extended float from 16-bit unsigned integer.
    pub fn from_u16(i: u16) -> (r: FloatType)
        ensures
            r.frac == i,
            r.exp == 0,
    {
        FloatType { frac: i as u64, exp: 0 }
    }

    /// Create extended float from 32-bit unsigned integer.
    pub fn from_u32(i: u32) -> (r: FloatType)
        ensures
            r.frac == i,
            r.exp == 0,
    {
        FloatType { frac: i as u64, exp: 0 }
    }

    /// Create extended float from 64-bit unsigned integer.
    pub fn from_u64(i: u64) -> (r: FloatType)
        ensures
            r.frac == i,
            r.exp == 0,
    {
        FloatType { frac: i, exp: 0 }
    }

    /// The fraction shifted left until its top bit is set, and the shift.
    pub(crate) fn shift_to_top(frac: u64) -> (r: (u64, i32))
        ensures
            r.1 == (FloatType { frac, exp: 0 }).normalize_shift(),
            0 <= r.1 <= 63,
            r.0 == frac * pow2(r.1 as nat),
            frac != 0 ==> r.0 >= 0x8000_0000_0000_0000,
    {
        let mut f: u64 = frac;
        let mut shift: i32 = 0;
        proof {
            lemma2_to64();
            lemma2_to64_rest();
            lemma_pow2_scale(frac as int, 0, 0);
        }
        proof {
            lemma_shift_steps(f);
        }
        if f >> 32 == 0 {
            proof {
                lemma_pow2_scale(frac as int, shift as nat, 32);
            }
            f = f << 32;
            shift = shift + 32;
        }
        assert(f == frac * pow2(shift as nat) && (frac != 0 ==> f >= 0x1_0000_0000));
        proof {
            lemma_shift_steps(f);
        }
        if f >> 48 == 0 {
            proof {
                lemma_pow2_scale(frac as int, shift as nat, 16);
            }
            f = f << 16;
            shift = shift + 16;
        }
        assert(f == frac * pow2(shift as nat) && (frac != 0 ==> f >= 0x1_0000_0000_0000));
        proof {
            lemma_shift_steps(f);
        }
        if f >> 56 == 0 {
            proof {
                lemma_pow2_scale(frac as int, shift as nat, 8);
            }
            f = f << 8;
            shift = shift + 8;
        }
        assert(f == frac * pow2(shift as nat) && (frac != 0 ==> f >= 0x100_0000_0000_0000));
        proof {
            lemma_shift_steps(f);
        }
        if f >> 60 == 0 {
            proof {
                lemma_pow2_scale(frac as int, shift as nat, 4);
            }
            f = f << 4;
            shift = shift + 4;
        }
        assert(f == frac * pow2(shift as nat) && (frac != 0 ==> f >= 0x1000_0000_0000_0000));
        proof {
            lemma_shift_steps(f);
        }
        if f >> 62 == 0 {
            proof {
                lemma_pow2_scale(frac as int, shift as nat, 2);
            }
            f = f << 2;
            shift = shift + 2;
        }
        assert(f == frac * pow2(shift as nat) && (frac != 0 ==> f >= 0x4000_0000_0000_0000));
        proof {
            lemma_shift_steps(f);
        }
        if f >> 63 == 0 {
            proof {
                lemma_pow2_scale(frac as int, shift as nat, 1);
            }
            f = f << 1;
            shift = shift + 1;
        }
        assert(f == frac * pow2(shift as nat) && (frac != 0 ==> f >= 0x8000_0000_0000_0000));
        proof {
            if frac != 0 {
                lemma_bit_length_range(f as nat, 64);
                lemma_bit_length_shift(frac as nat, shift as nat);
            } else {
                assert(shift == 63);
            }
        }
        (f, shift)
    }

    /// Normalize float-point number.
    ///
    /// Shifts the fraction left until its most-significant bit is set, and
    /// lowers the exponent by the same amount, so that the value is unchanged.
    /// A zero fraction stays zero and the exponent drops by 63.
    pub fn normalize(&mut self)
        requires
            old(self).exp - old(self).normalize_shift() >= i32::MIN,
        ensures
            *final(self) == old(self).spec_normalize(),
            old(self).same_value(*final(self)),
            old(self).frac != 0 ==> final(self).is_normalized(),
    {
        proof {
            self.lemma_normalize_preserves_value();
        }
        let (f, shift) = Self::shift_to_top(self.frac);
        self.frac = f;
        self.exp = self.exp - shift;
    }
}

} // verus!
