//! Arithmetic on extended-precision floats: addition, subtraction and
//! multiplication, each without rounding beyond the bits that fall off.

use vstd::prelude::*;
use vstd::arithmetic::power2::{
    pow2,
    lemma_pow2_adds,
    lemma_pow2_pos,
    lemma2_to64,
    lemma2_to64_rest,
};
use vstd::bits::lemma_u64_shr_is_div;
use crate::float::{FloatType, bit_length};

verus! {

/// By how much the exponent grows when multiplying by `n`, for `n` up to 36:
/// the binary logarithm of a power of two, and for any other `n` the shift
/// that makes room for the product where it would not fit.
pub const MUL_SHIFT: [i32; 37] = [
    0, 0, 1, 2, 2, 3, 3, 3, 3, 4, 4, 4, 4, 4, 4, 4, 4, 5, 5, 5, 5, 5, 5, 5, 5, 5, 5, 5, 5, 5, 5, 5,
    5, 6, 6, 6, 6,
];

/// The least fraction whose product with `n` does not fit in 64 bits, for
/// each `n` up to 36 that is no power of two: `u64::MAX / n + 1`.
pub const MUL_LIMIT: [u64; 37] = [
    0, 0, 0, 6148914691236517206, 0, 3689348814741910324, 3074457345618258603,
    2635249153387078803, 0, 2049638230412172402, 1844674407370955162, 1676976733973595602,
    1537228672809129302, 1418980313362273202, 1317624576693539402, 1229782938247303442, 0,
    1085102592571150096, 1024819115206086201, 970881267037344822, 922337203685477581,
    878416384462359601, 838488366986797801, 802032351030850071, 768614336404564651,
    737869762948382065, 709490156681136601, 683212743470724134, 658812288346769701,
    636094623231363849, 614891469123651721, 595056260442243601, 0, 558992244657865201,
    542551296285575048, 527049830677415761, 512409557603043101,
];

/// Splitting a 64-bit word into its halves.
proof fn lemma_halves(x: u64)
    by (bit_vector)
    ensures
        x >> 32 == x / 0x1_0000_0000,
        x & 0xFFFF_FFFF == x % 0x1_0000_0000,
        x >> 1 == x / 2,
{
}

/// The product of two numbers, each written in two parts.
proof fn lemma_expand_product(ah: int, al: int, bh: int, bl: int, w: int)
    ensures
        (ah * w + al) * (bh * w + bl) == (ah * bh) * (w * w) + (ah * bl + al * bh) * w + al * bl,
{
    let a1 = ah * w;
    let b1 = bh * w;
    assert((a1 + al) * (b1 + bl) == a1 * b1 + a1 * bl + al * b1 + al * bl) by (nonlinear_arith);
    assert(a1 * b1 == (ah * bh) * (w * w)) by (nonlinear_arith)
        requires
            a1 == ah * w,
            b1 == bh * w,
    ;
    assert(a1 * bl == (ah * bl) * w) by (nonlinear_arith)
        requires
            a1 == ah * w,
    ;
    assert(al * b1 == (al * bh) * w) by (nonlinear_arith)
        requires
            b1 == bh * w,
    ;
    let p = ah * bl;
    let q = al * bh;
    assert(p * w + q * w == (p + q) * w) by (nonlinear_arith);
}

/// The product of two 64-bit words, rounded to its upper 64 bits, from the
/// four products of their halves.
proof fn lemma_rounded_product(a: int, b: int) -> (r: int)
    requires
        0 <= a < 0x1_0000_0000_0000_0000,
        0 <= b < 0x1_0000_0000_0000_0000,
    ensures
        r == (a * b + 0x8000_0000_0000_0000) / 0x1_0000_0000_0000_0000,
        0 <= r < 0x1_0000_0000_0000_0000,
        ({
            let w = 0x1_0000_0000int;
            let ah_bl = (a / w) * (b % w);
            let al_bh = (a % w) * (b / w);
            let al_bl = (a % w) * (b % w);
            let ah_bh = (a / w) * (b / w);
            let tmp = (ah_bl % w) + (al_bh % w) + (al_bl / w) + 0x8000_0000;
            &&& 0 <= ah_bl < w * w
            &&& 0 <= al_bh < w * w
            &&& 0 <= al_bl < w * w
            &&& 0 <= ah_bh < w * w
            &&& 0 <= tmp < w * w
            &&& r == ah_bh + (ah_bl / w) + (al_bh / w) + (tmp / w)
        }),
{
    let w = 0x1_0000_0000int;
    let ah = a / w;
    let al = a % w;
    let bh = b / w;
    let bl = b % w;
    let x = ah * bl;
    let y = al * bh;
    let z = al * bl;
    let t = ah * bh;
    let top = (w - 1) * (w - 1);
    assert(0 <= x <= top && 0 <= y <= top && 0 <= z <= top && 0 <= t <= top) by (nonlinear_arith)
        requires
            0 <= ah < w,
            0 <= al < w,
            0 <= bh < w,
            0 <= bl < w,
            x == ah * bl,
            y == al * bh,
            z == al * bl,
            t == ah * bh,
            top == (w - 1) * (w - 1),
    ;
    let tmp = (x % w) + (y % w) + (z / w) + 0x8000_0000;
    let r = t + (x / w) + (y / w) + (tmp / w);
    let low = (tmp % w) * w + z % w;
    lemma_expand_product(ah, al, bh, bl, w);
    assert(a * b == t * 0x1_0000_0000_0000_0000 + (x + y) * 0x1_0000_0000 + z);
    assert(a * b + 0x8000_0000_0000_0000 == r * 0x1_0000_0000_0000_0000 + low);
    assert(0 <= low < w * w);
    vstd::arithmetic::div_mod::lemma_fundamental_div_mod_converse(
        a * b + 0x8000_0000_0000_0000,
        w * w,
        r,
        low,
    );
    assert(a * b <= 0xFFFF_FFFF_FFFF_FFFF * 0xFFFF_FFFF_FFFF_FFFF) by (nonlinear_arith)
        requires
            0 <= a <= 0xFFFF_FFFF_FFFF_FFFF,
            0 <= b <= 0xFFFF_FFFF_FFFF_FFFF,
    ;
    r
}

/// `n` is a power of two.
pub open spec fn is_power_of_two(n: nat) -> bool {
    n > 0 && n == pow2((bit_length(n) - 1) as nat)
}

/// The bits of the 64-bit float that is the integer `n`, for a positive `n`
/// of at most 53 bits: the exponent of its top bit, biased, above `n`
/// shifted up to the hidden bit and without it.
pub open spec fn f64_bits_of_integer(n: nat) -> u64 {
    ((1022 + bit_length(n)) * pow2(52) + (n * pow2((53 - bit_length(n)) as nat) - pow2(52))) as u64
}

/// What the two tables hold for each `n` from 2 to 36.
proof fn lemma_mul_tables(n: u64)
    requires
        2 <= n <= 36,
    ensures
        1 <= MUL_SHIFT[n as int] <= 6,
        (MUL_LIMIT[n as int] == 0) == is_power_of_two(n as nat),
        is_power_of_two(n as nat) ==> MUL_SHIFT[n as int] == bit_length(n as nat) - 1,
        !is_power_of_two(n as nat) ==> MUL_SHIFT[n as int] == bit_length(n as nat) && MUL_LIMIT[n as int]
            == u64::MAX / n + 1 && n < pow2(bit_length(n as nat)),
{
    reveal_with_fuel(bit_length, 8);
    lemma2_to64();
    if n == 2 {
        assert(u64::MAX / 2u64 + 1 == 9223372036854775808);
    } else if n == 3 {
        assert(u64::MAX / 3u64 + 1 == 6148914691236517206);
    } else if n == 4 {
        assert(u64::MAX / 4u64 + 1 == 4611686018427387904);
    } else if n == 5 {
        assert(u64::MAX / 5u64 + 1 == 3689348814741910324);
    } else if n == 6 {
        assert(u64::MAX / 6u64 + 1 == 3074457345618258603);
    } else if n == 7 {
        assert(u64::MAX / 7u64 + 1 == 2635249153387078803);
    } else if n == 8 {
        assert(u64::MAX / 8u64 + 1 == 2305843009213693952);
    } else if n == 9 {
        assert(u64::MAX / 9u64 + 1 == 2049638230412172402);
    } else if n == 10 {
        assert(u64::MAX / 10u64 + 1 == 1844674407370955162);
    } else if n == 11 {
        assert(u64::MAX / 11u64 + 1 == 1676976733973595602);
    } else if n == 12 {
        assert(u64::MAX / 12u64 + 1 == 1537228672809129302);
    } else if n == 13 {
        assert(u64::MAX / 13u64 + 1 == 1418980313362273202);
    } else if n == 14 {
        assert(u64::MAX / 14u64 + 1 == 1317624576693539402);
    } else if n == 15 {
        assert(u64::MAX / 15u64 + 1 == 1229782938247303442);
    } else if n == 16 {
        assert(u64::MAX / 16u64 + 1 == 1152921504606846976);
    } else if n == 17 {
        assert(u64::MAX / 17u64 + 1 == 1085102592571150096);
    } else if n == 18 {
        assert(u64::MAX / 18u64 + 1 == 1024819115206086201);
    } else if n == 19 {
        assert(u64::MAX / 19u64 + 1 == 970881267037344822);
    } else if n == 20 {
        assert(u64::MAX / 20u64 + 1 == 922337203685477581);
    } else if n == 21 {
        assert(u64::MAX / 21u64 + 1 == 878416384462359601);
    } else if n == 22 {
        assert(u64::MAX / 22u64 + 1 == 838488366986797801);
    } else if n == 23 {
        assert(u64::MAX / 23u64 + 1 == 802032351030850071);
    } else if n == 24 {
        assert(u64::MAX / 24u64 + 1 == 768614336404564651);
    } else if n == 25 {
        assert(u64::MAX / 25u64 + 1 == 737869762948382065);
    } else if n == 26 {
        assert(u64::MAX / 26u64 + 1 == 709490156681136601);
    } else if n == 27 {
        assert(u64::MAX / 27u64 + 1 == 683212743470724134);
    } else if n == 28 {
        assert(u64::MAX / 28u64 + 1 == 658812288346769701);
    } else if n == 29 {
        assert(u64::MAX / 29u64 + 1 == 636094623231363849);
    } else if n == 30 {
        assert(u64::MAX / 30u64 + 1 == 614891469123651721);
    } else if n == 31 {
        assert(u64::MAX / 31u64 + 1 == 595056260442243601);
    } else if n == 32 {
        assert(u64::MAX / 32u64 + 1 == 576460752303423488);
    } else if n == 33 {
        assert(u64::MAX / 33u64 + 1 == 558992244657865201);
    } else if n == 34 {
        assert(u64::MAX / 34u64 + 1 == 542551296285575048);
    } else if n == 35 {
        assert(u64::MAX / 35u64 + 1 == 527049830677415761);
    } else if n == 36 {
        assert(u64::MAX / 36u64 + 1 == 512409557603043101);
    }
}

/// The shifts that the boundaries take, where nothing is shifted out.
proof fn lemma_boundary_shifts(x: u64)
    by (bit_vector)
    requires
        x < 0x8000_0000_0000_0000,
    ensures
        x << 1 == 2 * x,
        x << 1u64 == 2 * x,
        x == 0x0010_0000_0000_0000 ==> x << 2u64 == 4 * x,
{
}

impl FloatType {
    /// The sum of two values of one exponent: the sum of the fractions, or,
    /// where that takes 65 bits, the sum of their halves at the next exponent.
    pub open spec fn spec_add_unchecked(self, b: FloatType) -> FloatType {
        if self.frac + b.frac <= u64::MAX {
            FloatType { frac: (self.frac + b.frac) as u64, exp: self.exp }
        } else {
            FloatType { frac: (self.frac / 2 + b.frac / 2) as u64, exp: (self.exp + 1) as i32 }
        }
    }

    /// `b` brought to the exponent of `self`, which is not below its own:
    /// the bits of its fraction below that exponent are dropped.
    pub open spec fn spec_aligned(self, b: FloatType) -> FloatType {
        if self.exp - b.exp < 64 {
            FloatType { frac: (b.frac / (pow2((self.exp - b.exp) as nat) as u64)) as u64, exp: self.exp }
        } else {
            FloatType { frac: 0, exp: self.exp }
        }
    }

    /// The sum where `b.exp <= self.exp`: `b` is aligned to `self` and added;
    /// where the exponents are 64 or more apart, `b` is insignificant.
    pub open spec fn spec_add_less_equal(self, b: FloatType) -> FloatType {
        if self.exp - b.exp < 64 {
            self.spec_aligned(b).spec_add_unchecked(self)
        } else {
            self
        }
    }

    /// The sum of two values.
    pub open spec fn spec_add(self, b: FloatType) -> FloatType {
        if self.exp > b.exp {
            self.spec_add_less_equal(b)
        } else {
            b.spec_add_less_equal(self)
        }
    }

    /// The exponent of the sum fits in 32 bits: where the fractions, once
    /// aligned, add up to 65 bits, the larger exponent is not the largest.
    pub open spec fn add_fits(self, b: FloatType) -> bool {
        let hi = if self.exp > b.exp {
            self
        } else {
            b
        };
        let lo = if self.exp > b.exp {
            b
        } else {
            self
        };
        hi.frac + hi.spec_aligned(lo).frac > u64::MAX ==> hi.exp < i32::MAX
    }

    /// The product of two values, the fraction rounded to 64 bits.
    pub open spec fn spec_fast_multiply(self, b: FloatType) -> FloatType {
        FloatType {
            frac: ((self.frac * b.frac + 0x8000_0000_0000_0000) / 0x1_0000_0000_0000_0000) as u64,
            exp: (self.exp + b.exp + 64) as i32,
        }
    }

    /// Add two extended-precision floating point numbers, as if by `a+b`.
    ///
    /// The operand of the smaller exponent is shifted right to the larger
    /// exponent, and the bits that fall off are dropped.
    pub fn add(&self, b: &FloatType) -> (r: FloatType)
        requires
            self.add_fits(*b),
        ensures
            r == self.spec_add(*b),
    {
        if self.exp > b.exp {
            self.add_less_equal(b)
        } else {
            b.add_less_equal(self)
        }
    }

    /// Fast add, where `b.exp <= self.exp`.
    pub fn add_less_equal(&self, b: &FloatType) -> (r: FloatType)
        requires
            b.exp <= self.exp,
            self.frac + self.spec_aligned(*b).frac > u64::MAX ==> self.exp < i32::MAX,
        ensures
            r == self.spec_add_less_equal(*b),
    {
        // Calculate the difference for the shift-right.
        let diff: i64 = self.exp as i64 - b.exp as i64;
        if diff < 64 {
            // Less than 64 bits apart, the shift is safe.
            proof {
                lemma_u64_shr_is_div(b.frac, diff as u64);
                lemma_pow2_pos(diff as nat);
                lemma2_to64();
                lemma2_to64_rest();
                vstd::arithmetic::power2::lemma_pow2_strictly_increases(diff as nat, 64);
            }
            let y: FloatType = FloatType { frac: b.frac >> (diff as u64), exp: self.exp };
            y.add_unchecked(self)
        } else {
            // More than 64 bits apart, `b` is insignificant.
            *self
        }
    }

    /// Fast add from u64.
    pub fn add_u64(&self, b: u64) -> (r: FloatType)
        requires
            self.add_fits(FloatType { frac: b, exp: 0 }),
        ensures
            r == self.spec_add(FloatType { frac: b, exp: 0 }),
    {
        self.add(&FloatType::from_u64(b))
    }

    /// Fast add from u64, where the exponent of `self` is not negative.
    pub fn add_less_equal_u64(&self, b: u64) -> (r: FloatType)
        requires
            0 <= self.exp,
            self.frac + self.spec_aligned(FloatType { frac: b, exp: 0 }).frac > u64::MAX ==> self.exp
                < i32::MAX,
        ensures
            r == self.spec_add_less_equal(FloatType { frac: b, exp: 0 }),
    {
        self.add_less_equal(&FloatType::from_u64(b))
    }

    /// Add two extended-precision floats with the same exponent.
    pub fn add_unchecked(&self, b: &FloatType) -> (r: FloatType)
        requires
            self.exp == b.exp,
            self.frac + b.frac > u64::MAX ==> self.exp < i32::MAX,
        ensures
            r == self.spec_add_unchecked(*b),
    {
        if self.frac > u64::MAX - b.frac {
            // Overflow: halve both values, then add.
            proof {
                lemma_halves(self.frac);
                lemma_halves(b.frac);
            }
            let x: u64 = self.frac >> 1;
            let y: u64 = b.frac >> 1;
            FloatType { frac: x + y, exp: self.exp + 1 }
        } else {
            // No overflow.
            FloatType { frac: self.frac + b.frac, exp: self.exp }
        }
    }

    /// Subtract two extended-precision floats with the same exponent.
    ///
    /// There are no negative values: `b` must not exceed `self`.
    pub fn sub_unchecked(&self, b: &FloatType) -> (r: FloatType)
        requires
            self.exp == b.exp,
            self.frac >= b.frac,
        ensures
            r.frac == self.frac - b.frac,
            r.exp == self.exp,
    {
        FloatType { frac: self.frac - b.frac, exp: self.exp }
    }

    /// Multiply two normalized extended-precision floats, as if by `a*b`.
    ///
    /// The 128-bit product of the fractions is rounded to its upper 64 bits,
    /// a half rounding up.
    pub fn fast_multiply(&self, b: &FloatType) -> (r: FloatType)
        requires
            i32::MIN <= self.exp + b.exp + 64 <= i32::MAX,
        ensures
            r == self.spec_fast_multiply(*b),
    {
        let lomask: u64 = 0x0000_0000_FFFF_FFFF;
        proof {
            lemma_halves(self.frac);
            lemma_halves(b.frac);
            let p = lemma_rounded_product(self.frac as int, b.frac as int);
        }
        let ah_bl: u64 = (self.frac >> 32) * (b.frac & lomask);
        let al_bh: u64 = (self.frac & lomask) * (b.frac >> 32);
        let al_bl: u64 = (self.frac & lomask) * (b.frac & lomask);
        let ah_bh: u64 = (self.frac >> 32) * (b.frac >> 32);
        proof {
            lemma_halves(ah_bl);
            lemma_halves(al_bh);
            lemma_halves(al_bl);
        }
        let mut tmp: u64 = (ah_bl & lomask) + (al_bh & lomask) + (al_bl >> 32);
        // round up
        tmp = tmp + 0x8000_0000;
        proof {
            lemma_halves(tmp);
        }
        FloatType {
            frac: ah_bh + (ah_bl >> 32) + (al_bh >> 32) + (tmp >> 32),
            exp: (self.exp as i64 + b.exp as i64 + 64) as i32,
        }
    }
    /// The product with a small integer `n`, unchecked: for a power of two
    /// the exponent grows by its logarithm; otherwise the fraction is
    /// multiplied by `n`, after a right shift by the bit length of `n`
    /// where the product would not fit in 64 bits.
    pub open spec fn spec_mul_n_unchecked(self, n: u64) -> FloatType {
        let bits = bit_length(n as nat);
        if is_power_of_two(n as nat) {
            FloatType { frac: self.frac, exp: (self.exp + bits - 1) as i32 }
        } else if self.frac * n <= u64::MAX {
            FloatType { frac: (self.frac * n) as u64, exp: self.exp }
        } else {
            FloatType {
                frac: ((self.frac / (pow2(bits) as u64)) * n) as u64,
                exp: (self.exp + bits) as i32,
            }
        }
    }

    /// The product with a small integer `n`, checked: a value whose exponent
    /// exceeds `F64_MAX_EXPONENT` is left as it is.
    pub open spec fn spec_mul_n(self, n: u64) -> FloatType {
        if self.exp <= Self::F64_MAX_EXPONENT {
            self.spec_mul_n_unchecked(n)
        } else {
            self
        }
    }

    /// The exponent of the unchecked product with `n` fits in 32 bits.
    pub open spec fn mul_n_fits(self, n: u64) -> bool {
        let bits = bit_length(n as nat);
        if is_power_of_two(n as nat) {
            self.exp + bits - 1 <= i32::MAX
        } else {
            self.frac * n > u64::MAX ==> self.exp + bits <= i32::MAX
        }
    }

    /// The lower boundary is a quarter of a unit below a fraction that is the
    /// hidden bit alone, since the floats below it lie twice as close, and
    /// half a unit below any other fraction: the shift that expresses it.
    pub open spec fn lower_shift(self) -> nat {
        if self.frac == Self::F64_HIDDEN_BIT_MASK {
            2
        } else {
            1
        }
    }

    /// Half a unit above the value: the midpoint to the next float.
    pub open spec fn spec_upper_midpoint(self) -> FloatType {
        FloatType { frac: (2 * self.frac + 1) as u64, exp: (self.exp - 1) as i32 }
    }

    /// Half a unit below the value, or a quarter where the floats below lie
    /// twice as close: the midpoint to the float before.
    pub open spec fn spec_lower_midpoint(self) -> FloatType {
        FloatType {
            frac: (self.frac * pow2(self.lower_shift()) - 1) as u64,
            exp: (self.exp - self.lower_shift()) as i32,
        }
    }

    /// The upper boundary: the upper midpoint, normalized.
    pub open spec fn spec_upper_boundary(self) -> FloatType {
        self.spec_upper_midpoint().spec_normalize()
    }

    /// The lower boundary, at the exponent of the upper boundary.
    pub open spec fn spec_lower_boundary(self) -> FloatType {
        let upper = self.spec_upper_boundary();
        let l = self.lower_shift();
        FloatType {
            frac: ((self.frac * pow2(l) - 1) * pow2((self.exp - l - upper.exp) as nat)) as u64,
            exp: upper.exp,
        }
    }

    /// One times `n`, from 2 to 36, converts to the 64-bit float `n`.
    pub proof fn lemma_mul_n_of_one(n: u64)
        requires
            2 <= n <= 36,
        ensures
            (FloatType { frac: 1, exp: 0 }).spec_mul_n(n).spec_as_f64() == f64_bits_of_integer(
                n as nat,
            ),
    {
        let one = FloatType { frac: 1, exp: 0 };
        let p = one.spec_mul_n(n);
        let bits = bit_length(n as nat);
        lemma_mul_tables(n);
        lemma2_to64();
        lemma2_to64_rest();
        crate::float::lemma_bit_length_bounds(n as nat);
        assert(p == one.spec_mul_n_unchecked(n));
        if is_power_of_two(n as nat) {
            assert(p == FloatType { frac: 1, exp: (bits - 1) as i32 });
            assert(bit_length(1) == 1) by {
                reveal_with_fuel(bit_length, 2);
            }
            assert(p.normalize_shift() == 63);
            p.lemma_nearest_exact(52, -1074);
            lemma_pow2_adds((bits - 1) as nat, (53 - bits) as nat);
            assert(1 * pow2(52) == pow2(52));
        } else {
            assert(one.frac * n == n) by (nonlinear_arith)
                requires
                    one.frac == 1,
            ;
            assert(p == FloatType { frac: n, exp: 0 });
            assert(p.normalize_shift() == 64 - bits);
            p.lemma_nearest_exact(52, -1074);
        }
    }

    /// What multiplying by `n` keeps of the value: the product is exact for
    /// a power of two and where it fits in 64 bits; otherwise the bits that
    /// are shifted out are lost, less than `n` units of the new exponent.
    pub proof fn lemma_mul_n_value(self, n: u64)
        requires
            2 <= n <= 36,
            self.mul_n_fits(n),
        ensures
            ({
                let r = self.spec_mul_n_unchecked(n);
                let up = pow2((r.exp - self.exp) as nat);
                &&& 0 <= r.exp - self.exp <= 6
                &&& r.frac * up <= n * self.frac < r.frac * up + n * up
                &&& is_power_of_two(n as nat) || self.frac * n <= u64::MAX ==> r.frac * up == n
                    * self.frac
            }),
    {
        let r = self.spec_mul_n_unchecked(n);
        let bits = bit_length(n as nat);
        lemma_mul_tables(n);
        lemma2_to64();
        crate::float::lemma_bit_length_bounds(n as nat);
        let f = self.frac as int;
        let m = n as int;
        if is_power_of_two(n as nat) {
            let up = pow2((bits - 1) as nat) as int;
            assert(f * up == m * f && m * up > 0) by (nonlinear_arith)
                requires
                    up == m,
                    m >= 2,
            ;
        } else if self.frac * n <= u64::MAX {
            assert(f * m * 1 == m * f && m * 1 > 0) by (nonlinear_arith)
                requires
                    m >= 2,
            ;
        } else {
            let p = pow2(bits) as int;
            let q = f / p;
            let rest = f % p;
            vstd::arithmetic::div_mod::lemma_fundamental_div_mod(f, p);
            vstd::arithmetic::div_mod::lemma_mod_bound(f, p);
            vstd::arithmetic::div_mod::lemma_div_pos_is_pos(f, p);
            vstd::arithmetic::mul::lemma_mul_is_commutative(p, q);
            assert(q * m * p <= m * f < q * m * p + m * p && 0 <= q * m <= f) by (nonlinear_arith)
                requires
                    f == q * p + rest,
                    0 <= rest < p,
                    0 <= q,
                    2 <= m < p,
            ;
        }
    }

    /// What adding keeps of the value: the sum is the exact sum without
    /// the bits that fall off, less than three units of the larger exponent.
    /// The exact sum and the result are compared in units of the smaller
    /// exponent.
    pub proof fn lemma_add_value(self, b: FloatType)
        requires
            self.add_fits(b),
        ensures
            ({
                let hi = if self.exp > b.exp {
                    self
                } else {
                    b
                };
                let lo = if self.exp > b.exp {
                    b
                } else {
                    self
                };
                let r = self.spec_add(b);
                let apart = (hi.exp - lo.exp) as nat;
                let exact = hi.frac * pow2(apart) + lo.frac;
                let kept = r.frac * pow2((r.exp - lo.exp) as nat);
                &&& hi.exp <= r.exp <= hi.exp + 1
                &&& apart >= 64 ==> r == hi
                &&& apart < 64 ==> kept <= exact < kept + 3 * pow2(apart)
            }),
    {
        let hi = if self.exp > b.exp {
            self
        } else {
            b
        };
        let lo = if self.exp > b.exp {
            b
        } else {
            self
        };
        let r = self.spec_add(b);
        assert(r == hi.spec_add_less_equal(lo));
        let apart = (hi.exp - lo.exp) as nat;
        if apart < 64 {
            lemma2_to64();
            lemma2_to64_rest();
            lemma_pow2_pos(apart);
            if apart < 63 {
                vstd::arithmetic::power2::lemma_pow2_strictly_increases(apart, 63);
            }
            let unit = pow2(apart) as int;
            assert(unit as u64 == unit);
            let aligned = lo.frac as int / unit;
            let rest = lo.frac as int % unit;
            vstd::arithmetic::div_mod::lemma_fundamental_div_mod(lo.frac as int, unit);
            vstd::arithmetic::div_mod::lemma_mod_bound(lo.frac as int, unit);
            vstd::arithmetic::mul::lemma_mul_is_commutative(unit, aligned);
            assert(0 <= aligned <= lo.frac) by (nonlinear_arith)
                requires
                    aligned == lo.frac as int / unit,
                    unit >= 1,
                    lo.frac >= 0,
            ;
            assert(hi.spec_aligned(lo).frac == aligned);
            let h = hi.frac as int;
            if aligned + h <= u64::MAX {
                assert((aligned + h) * unit == h * unit + lo.frac - rest) by (nonlinear_arith)
                    requires
                        lo.frac == aligned * unit + rest,
                ;
            } else {
                lemma_pow2_adds(apart, 1);
                let half = aligned / 2 + h / 2;
                let lost = aligned % 2 + h % 2;
                assert(half * (unit * 2) == h * unit + lo.frac - rest - lost * unit)
                    by (nonlinear_arith)
                    requires
                        lo.frac == aligned * unit + rest,
                        half == aligned / 2 + h / 2,
                        lost == aligned % 2 + h % 2,
                ;
                assert(0 <= rest + lost * unit < 3 * unit) by (nonlinear_arith)
                    requires
                        0 <= rest < unit,
                        0 <= lost <= 2,
                ;
                assert(half <= u64::MAX);
            }
        }
    }

    /// Multiply by `n`, from 2 to 36, with a check for infinity: a value
    /// whose exponent exceeds `F64_MAX_EXPONENT` is returned unchanged.
    pub fn mul_n(&self, n: u64) -> (r: FloatType)
        requires
            2 <= n <= 36,
        ensures
            r == self.spec_mul_n(n),
            self.exp <= Self::F64_MAX_EXPONENT ==> r == self.spec_mul_n_unchecked(n),
            self.exp > Self::F64_MAX_EXPONENT ==> r == *self,
    {
        if self.exp <= Self::F64_MAX_EXPONENT {
            proof {
                lemma_mul_tables(n);
            }
            self.mul_n_unchecked(n)
        } else {
            *self
        }
    }

    /// Multiply by `n`, from 2 to 36, without a check for infinity.
    pub fn mul_n_unchecked(&self, n: u64) -> (r: FloatType)
        requires
            2 <= n <= 36,
            self.mul_n_fits(n),
        ensures
            r == self.spec_mul_n_unchecked(n),
    {
        proof {
            lemma_mul_tables(n);
        }
        let shift: i32 = MUL_SHIFT[n as usize];
        let limit: u64 = MUL_LIMIT[n as usize];
        if limit == 0 {
            // A power of two: only the exponent changes.
            FloatType { frac: self.frac, exp: self.exp + shift }
        } else if self.frac < limit {
            assert(self.frac * n <= u64::MAX) by (nonlinear_arith)
                requires
                    self.frac < limit,
                    limit == u64::MAX / n + 1,
                    n >= 2,
            ;
            FloatType { frac: self.frac * n, exp: self.exp }
        } else {
            // The product would overflow: shift right first, which loses
            // the lowest bits.
            assert(self.frac * n > u64::MAX) by (nonlinear_arith)
                requires
                    self.frac >= limit,
                    limit == u64::MAX / n + 1,
                    n >= 2,
            ;
            let x: u64 = self.frac >> (shift as u64);
            proof {
                lemma2_to64();
                lemma_u64_shr_is_div(self.frac, shift as u64);
                let p = pow2(shift as nat);
                assert(p as u64 == p);
                assert(x * n <= u64::MAX) by (nonlinear_arith)
                    requires
                        x == self.frac as nat / p,
                        n < p,
                        self.frac <= u64::MAX,
                ;
            }
            FloatType { frac: x * n, exp: self.exp + shift }
        }
    }

    /// Get normalized boundaries for float.
    ///
    /// Returns the lower and the upper boundary: the midpoints between the
    /// value and its two neighbours among the 64-bit floats, both at one
    /// exponent, the upper one normalized. The fraction must be that of a
    /// float: not zero, and with room for one more bit.
    pub fn normalized_boundaries(&self) -> (r: (FloatType, FloatType))
        requires
            0 < self.frac < 0x8000_0000_0000_0000,
            self.exp - 1 - self.spec_upper_midpoint().normalize_shift() >= i32::MIN,
        ensures
            r.0 == self.spec_lower_boundary(),
            r.1 == self.spec_upper_boundary(),
            r.0.exp == r.1.exp,
            r.1.is_normalized(),
            self.spec_upper_midpoint().same_value(r.1),
            self.spec_lower_midpoint().same_value(r.0),
    {
        proof {
            lemma_boundary_shifts(self.frac);
        }
        let mut upper: FloatType = FloatType { frac: (self.frac << 1) + 1, exp: self.exp - 1 };
        let ghost before = upper;
        proof {
            crate::float::lemma_normalize_fits(before);
        }
        upper.normalize();
        let l_shift: i32 = if self.frac == Self::F64_HIDDEN_BIT_MASK {
            2
        } else {
            1
        };
        let frac: u64 = (self.frac << (l_shift as u64)) - 1;
        proof {
            lemma2_to64();
            lemma2_to64_rest();
            if self.frac == Self::F64_HIDDEN_BIT_MASK {
                crate::float::lemma_bit_length_range(before.frac as nat, 54);
                assert(before.normalize_shift() == 10);
            }
        }
        let exp: i32 = self.exp - l_shift;
        proof {
            let lz = before.normalize_shift();
            if self.frac == Self::F64_HIDDEN_BIT_MASK {
                assert(frac * pow2(9) <= u64::MAX);
            } else {
                crate::float::lemma_normalize_fits(before);
                let p = pow2(lz);
                assert(frac * p <= u64::MAX) by (nonlinear_arith)
                    requires
                        frac <= before.frac,
                        before.frac * p <= u64::MAX,
                        p >= 0,
                ;
            }
            vstd::bits::lemma_u64_shl_is_mul(frac, (exp - upper.exp) as u64);
            before.lemma_normalize_preserves_value();
        }
        let lower: FloatType = FloatType { frac: frac << ((exp - upper.exp) as u64), exp: upper.exp };
        proof {
            // The lower boundary is the lower midpoint, moved to the exponent
            // of the upper boundary.
            let midpoint = self.spec_lower_midpoint();
            let scale = pow2(self.lower_shift());
            assert(self.frac * scale == if l_shift == 2 {
                4 * self.frac
            } else {
                2 * self.frac
            }) by (nonlinear_arith)
                requires
                    scale == if l_shift == 2 {
                        4int
                    } else {
                        2int
                    },
            ;
            assert(before == self.spec_upper_midpoint());
            assert(midpoint == FloatType { frac, exp });
            assert(upper.exp <= exp);
            assert(lower.frac == frac * pow2((exp - upper.exp) as nat));
            assert(lower.frac * pow2(0) == lower.frac) by (nonlinear_arith)
                requires
                    pow2(0) == 1,
            ;
            assert(midpoint.same_value(lower));
        }
        (lower, upper)
    }
}

} // verus!
