//! Fixed-point decimal arithmetic with wide (256-bit) intermediates.
//!
//! A `Decimal` stores an unsigned 128-bit count of atomic units, where one
//! whole unit is `DECIMAL_FRACTIONAL` (10^18) atomics. Products of two
//! 128-bit quantities are computed in 256 bits and narrowed back with exact
//! truncation, so no intermediate ever overflows silently.

use vstd::arithmetic::div_mod::{
    lemma_basic_div, lemma_div_basics, lemma_fundamental_div_mod,
    lemma_fundamental_div_mod_converse, lemma_mod_bound, lemma_small_mod,
};
use vstd::arithmetic::mul::{
    lemma_mul_is_associative, lemma_mul_is_distributive_add, lemma_mul_nonnegative,
    lemma_mul_strict_inequality, lemma_mul_upper_bound,
};
use vstd::arithmetic::power2::{
    lemma2_to64, lemma2_to64_rest, lemma_pow2_adds, lemma_pow2_pos, lemma_pow2_strictly_increases,
    pow2,
};
use vstd::prelude::*;

verus! {

/// Number of atomic units in one whole unit: a decimal has 18 fractional digits.
pub const DECIMAL_FRACTIONAL: u128 = 1_000_000_000_000_000_000;

/// 2^64, the base used to split a 128-bit factor into two limbs.
const BASE64: u128 = 0x1_0000_0000_0000_0000;

/// 2^127, used to take the top bit of a 128-bit half.
const TOPBIT: u128 = 0x8000_0000_0000_0000_0000_0000_0000_0000;

/// An unsigned 256-bit intermediate: the value is `hi * 2^128 + lo`.
pub(crate) struct Wide {
    pub(crate) hi: u128,
    pub(crate) lo: u128,
}

pub open spec fn wide_val_of(hi: u128, lo: u128) -> int {
    hi * 0x1_0000_0000_0000_0000_0000_0000_0000_0000 + lo
}

pub(crate) open spec fn wide_val(x: Wide) -> int {
    wide_val_of(x.hi, x.lo)
}

/// Concrete values of the powers of two that the wide arithmetic splits on.
proof fn lemma_pow2_facts()
    ensures
        pow2(0) == 1,
        pow2(1) == 2,
        pow2(64) == 0x1_0000_0000_0000_0000,
        pow2(127) == 0x8000_0000_0000_0000_0000_0000_0000_0000,
        pow2(128) == 0x1_0000_0000_0000_0000_0000_0000_0000_0000,
        pow2(255) == 0x8000_0000_0000_0000_0000_0000_0000_0000_0000_0000_0000_0000_0000_0000_0000_0000,
        pow2(256) == 0x1_0000_0000_0000_0000_0000_0000_0000_0000_0000_0000_0000_0000_0000_0000_0000_0000,
{
    lemma2_to64();
    lemma2_to64_rest();
    lemma_pow2_adds(64, 63);
    lemma_pow2_adds(64, 64);
    lemma_pow2_adds(128, 127);
    lemma_pow2_adds(128, 128);
    assert(pow2(255)
        == 0x8000_0000_0000_0000_0000_0000_0000_0000_0000_0000_0000_0000_0000_0000_0000_0000)
        by (nonlinear_arith)
        requires
            pow2(255) == pow2(128) * pow2(127),
            pow2(128) == 0x1_0000_0000_0000_0000_0000_0000_0000_0000,
            pow2(127) == 0x8000_0000_0000_0000_0000_0000_0000_0000,
    ;
    assert(pow2(256)
        == 0x1_0000_0000_0000_0000_0000_0000_0000_0000_0000_0000_0000_0000_0000_0000_0000_0000)
        by (nonlinear_arith)
        requires
            pow2(256) == pow2(128) * pow2(128),
            pow2(128) == 0x1_0000_0000_0000_0000_0000_0000_0000_0000,
    ;
}

/// Full 128x128 -> 256 bit multiplication by 64-bit limbs.
pub(crate) fn mul_wide(a: u128, b: u128) -> (r: Wide)
    ensures
        wide_val(r) == a * b,
{
    let a_hi = a / BASE64;
    let a_lo = a % BASE64;
    let b_hi = b / BASE64;
    let b_lo = b % BASE64;
    proof {
        lemma_fundamental_div_mod(a as int, BASE64 as int);
        lemma_fundamental_div_mod(b as int, BASE64 as int);
    }
    assert(a_hi < BASE64 && b_hi < BASE64);
    assert(a_lo * b_lo < 0x1_0000_0000_0000_0000_0000_0000_0000_0000
        && a_lo * b_hi < 0x1_0000_0000_0000_0000_0000_0000_0000_0000
        && a_hi * b_lo < 0x1_0000_0000_0000_0000_0000_0000_0000_0000
        && a_hi * b_hi < 0x1_0000_0000_0000_0000_0000_0000_0000_0000) by (nonlinear_arith)
        requires
            a_lo < 0x1_0000_0000_0000_0000,
            a_hi < 0x1_0000_0000_0000_0000,
            b_lo < 0x1_0000_0000_0000_0000,
            b_hi < 0x1_0000_0000_0000_0000;
    let p_ll = a_lo * b_lo;
    let p_lh = a_lo * b_hi;
    let p_hl = a_hi * b_lo;
    let p_hh = a_hi * b_hi;
    // a * b laid out on the three 64-bit columns
    assert(a * b == p_hh * (0x1_0000_0000_0000_0000_0000_0000_0000_0000 as int) + (p_lh + p_hl)
        * (0x1_0000_0000_0000_0000 as int) + p_ll) by (nonlinear_arith)
        requires
            a == a_hi * 0x1_0000_0000_0000_0000 + a_lo,
            b == b_hi * 0x1_0000_0000_0000_0000 + b_lo,
            p_ll == a_lo * b_lo,
            p_lh == a_lo * b_hi,
            p_hl == a_hi * b_lo,
            p_hh == a_hi * b_hi;
    // carry-propagating column sums
    let t1 = p_ll / BASE64 + p_lh % BASE64 + p_hl % BASE64;
    let t2 = t1 / BASE64 + p_lh / BASE64 + p_hl / BASE64 + p_hh % BASE64;
    let t3 = t2 / BASE64 + p_hh / BASE64;
    let r0 = p_ll % BASE64;
    let r1 = t1 % BASE64;
    let r2 = t2 % BASE64;
    proof {
        lemma_fundamental_div_mod(p_ll as int, BASE64 as int);
        lemma_fundamental_div_mod(p_lh as int, BASE64 as int);
        lemma_fundamental_div_mod(p_hl as int, BASE64 as int);
        lemma_fundamental_div_mod(p_hh as int, BASE64 as int);
        lemma_fundamental_div_mod(t1 as int, BASE64 as int);
        lemma_fundamental_div_mod(t2 as int, BASE64 as int);
        assert(a * b == t3 * 0x1_0000_0000_0000_0000_0000_0000_0000_0000_0000_0000_0000_0000
            + r2 * 0x1_0000_0000_0000_0000_0000_0000_0000_0000 + r1 * 0x1_0000_0000_0000_0000
            + r0);
        lemma_mul_upper_bound(
            a as int,
            0xffff_ffff_ffff_ffff_ffff_ffff_ffff_ffff as int,
            b as int,
            0xffff_ffff_ffff_ffff_ffff_ffff_ffff_ffff as int,
        );
        assert(t3 < BASE64);
    }
    let lo = r1 * BASE64 + r0;
    let hi = t3 * BASE64 + r2;
    Wide { hi, lo }
}

/// Restoring binary long division of a 256-bit dividend by a 128-bit divisor.
fn div_wide(n: Wide, d: u128) -> (r: (Wide, u128))
    requires
        d >= 1,
    ensures
        wide_val(r.0) == wide_val(n) / d as int,
        r.1 == wide_val(n) % d as int,
{
    let ghost nv = wide_val(n);
    let mut dd = Wide { hi: n.hi, lo: n.lo };
    let mut quot = Wide { hi: 0, lo: 0 };
    let mut rem: u128 = 0;
    let ghost mut p: int = 0;
    let mut i: usize = 0;
    proof {
        lemma_pow2_facts();
        assert(nv < pow2(256));
        lemma_basic_div(nv, pow2(256) as int);
        lemma_small_mod(nv as nat, pow2(256));
        assert(wide_val(quot) == 0);
        assert(wide_val(quot) * d == 0) by (nonlinear_arith)
            requires
                wide_val(quot) == 0,
        ;
    }
    while i < 256
        invariant
            i <= 256,
            d >= 1,
            nv == wide_val(n),
            p == nv / pow2((256 - i) as nat) as int,
            wide_val(dd) == (nv % pow2((256 - i) as nat) as int) * pow2(i as nat),
            p == wide_val(quot) * d + rem,
            rem < d,
            p < pow2(i as nat),
            wide_val(quot) <= p,
        decreases 256 - i,
    {
        let ghost j = i as nat;
        let ghost k = (256 - i) as nat;
        proof {
            lemma_pow2_facts();
            lemma_pow2_pos(j);
            lemma_pow2_pos(k);
            lemma_pow2_pos((k - 1) as nat);
        }
        // take the top bit of the shifted dividend
        let b: u128 = if dd.hi >= TOPBIT {
            1
        } else {
            0
        };
        let ghost c = b as int;
        let ghost u = nv % pow2(k) as int;
        let ghost u2 = u % pow2((k - 1) as nat) as int;
        proof {
            // split off the top bit of dd: wide_val(dd) == c * 2^255 + rest
            lemma_mod_bound(dd.hi as int, TOPBIT as int);
            lemma_fundamental_div_mod(dd.hi as int, TOPBIT as int);
            assert(dd.hi / TOPBIT == c);
            let rest = (dd.hi % TOPBIT) * 0x1_0000_0000_0000_0000_0000_0000_0000_0000 + dd.lo;
            assert(wide_val(dd) == c * pow2(255) + rest);
            assert(0 <= rest < pow2(255));
            lemma_fundamental_div_mod_converse(wide_val(dd), pow2(255) as int, c, rest);
            // split u into its top bit c2 and remainder u2
            lemma_mod_bound(u, pow2((k - 1) as nat) as int);
            lemma_fundamental_div_mod(u, pow2((k - 1) as nat) as int);
            let c2 = u / pow2((k - 1) as nat) as int;
            lemma_pow2_adds(j, (k - 1) as nat);
            assert(wide_val(dd) == c2 * pow2(255) + u2 * pow2(j)) by (nonlinear_arith)
                requires
                    wide_val(dd) == u * pow2(j),
                    u == pow2((k - 1) as nat) * c2 + u2,
                    pow2(255) == pow2(j) * pow2((k - 1) as nat),
            ;
            lemma_mul_strict_inequality(u2, pow2((k - 1) as nat) as int, pow2(j) as int);
            lemma_mul_nonnegative(u2, pow2(j) as int);
            assert(pow2((k - 1) as nat) * pow2(j) == pow2(255));
            lemma_fundamental_div_mod_converse(wide_val(dd), pow2(255) as int, c2, u2 * pow2(j));
            assert(c == c2);
            assert(u == c * pow2((k - 1) as nat) + u2);
            assert(wide_val(dd) == c * pow2(255) + u2 * pow2(j));
        }
        // shift the dividend left by one bit
        let sh_hi = (dd.hi % TOPBIT) * 2 + dd.lo / TOPBIT;
        let sh_lo = (dd.lo % TOPBIT) * 2;
        proof {
            lemma_mod_bound(dd.lo as int, TOPBIT as int);
            lemma_fundamental_div_mod(dd.lo as int, TOPBIT as int);
            assert(wide_val_of(sh_hi, sh_lo) == (wide_val(dd) - c * pow2(255)) * 2);
            assert(wide_val_of(sh_hi, sh_lo) == (u2 * pow2(j)) * 2);
            lemma_mul_is_associative(u2 as int, pow2(j) as int, 2);
            lemma_pow2_adds(j, 1);
            assert(wide_val_of(sh_hi, sh_lo) == u2 * pow2((j + 1) as nat));
        }
        dd = Wide { hi: sh_hi, lo: sh_lo };
        // fold the bit into the remainder, subtracting the divisor when it fits
        let ghost rem_old = rem as int;
        let qbit: u128;
        if rem >= TOPBIT {
            // 2*rem + b >= 2^128 > d, so the divisor is always subtracted
            let x = d - rem;
            rem = rem - x + b;
            qbit = 1;
        } else {
            let t = 2 * rem + b;
            if t >= d {
                rem = t - d;
                qbit = 1;
            } else {
                rem = t;
                qbit = 0;
            }
        }
        assert(2 * rem_old + c == qbit * d + rem && rem < d);
        // shift the quotient left by one bit, bringing qbit in
        let ghost qv_old = wide_val(quot);
        proof {
            if j < 255 {
                lemma_pow2_strictly_increases(j, 255);
            }
            assert(qv_old < pow2(255));
            assert(quot.hi < TOPBIT);
            lemma_small_mod(quot.hi as nat, TOPBIT as nat);
        }
        let q_hi = (quot.hi % TOPBIT) * 2 + quot.lo / TOPBIT;
        let q_lo = (quot.lo % TOPBIT) * 2 + qbit;
        proof {
            lemma_mod_bound(quot.lo as int, TOPBIT as int);
            lemma_fundamental_div_mod(quot.lo as int, TOPBIT as int);
            assert(wide_val_of(q_hi, q_lo) == 2 * qv_old + qbit);
        }
        quot = Wide { hi: q_hi, lo: q_lo };
        proof {
            // the processed prefix gains the bit c
            let p_old = p;
            let p2 = 2 * p_old + c;
            lemma_pow2_adds((k - 1) as nat, 1);
            lemma_fundamental_div_mod(nv, pow2(k) as int);
            assert(nv == pow2(k) * p_old + u);
            assert(pow2(k) * p_old == (2 * p_old) * pow2((k - 1) as nat)) by (nonlinear_arith)
                requires
                    pow2(k) == pow2((k - 1) as nat) * 2,
            ;
            lemma_mul_is_distributive_add(pow2((k - 1) as nat) as int, 2 * p_old, c);
            assert(nv == p2 * pow2((k - 1) as nat) + u2) by {
                assert(pow2((k - 1) as nat) * (2 * p_old + c) == pow2((k - 1) as nat) * (2 * p_old)
                    + pow2((k - 1) as nat) * c);
                lemma_mul_is_associative(p2, pow2((k - 1) as nat) as int, 1);
            }
            lemma_fundamental_div_mod_converse(nv, pow2((k - 1) as nat) as int, p2, u2);
            // p2 stays below pow2(i + 1)
            lemma_pow2_adds(j, 1);
            assert(p2 < pow2((j + 1) as nat));
            // the quotient-remainder pair tracks p2:
            // p2 = 2*(qv_old*d + rem_old) + c = (2*qv_old + qbit)*d + rem
            assert(2 * (qv_old * d) == (2 * qv_old) * d) by (nonlinear_arith);
            assert((2 * qv_old + qbit) * d == (2 * qv_old) * d + qbit * d) by {
                lemma_mul_is_distributive_add(d as int, 2 * qv_old, qbit as int);
            }
            assert(p2 == wide_val(quot) * d + rem);
            assert(wide_val(quot) <= p2) by (nonlinear_arith)
                requires
                    p2 == wide_val(quot) * d + rem,
                    rem >= 0,
                    d >= 1,
                    wide_val(quot) >= 0,
            ;
            p = p2;
        }
        i = i + 1;
    }
    proof {
        lemma_pow2_facts();
        lemma_div_basics(nv);
        assert(p == nv);
        lemma_fundamental_div_mod_converse(nv, d as int, wide_val(quot), rem as int);
    }
    (quot, rem)
}

/// 256-bit addition; `None` when the sum needs a 257th bit.
pub(crate) fn add_wide(a: Wide, b: Wide) -> (r: Option<Wide>)
    ensures
        match r {
            Some(c) => wide_val(c) == wide_val(a) + wide_val(b),
            None => wide_val(a) + wide_val(b)
                > 0xffff_ffff_ffff_ffff_ffff_ffff_ffff_ffff_ffff_ffff_ffff_ffff_ffff_ffff_ffff_ffff,
        },
{
    let lo: u128;
    let carry: u128;
    if a.lo <= u128::MAX - b.lo {
        lo = a.lo + b.lo;
        carry = 0;
    } else {
        // the low halves wrap once around 2^128
        lo = a.lo - (u128::MAX - b.lo) - 1;
        carry = 1;
    }
    let hi_partial = match a.hi.checked_add(b.hi) {
        Some(h) => h,
        None => {
            return None;
        },
    };
    let hi = match hi_partial.checked_add(carry) {
        Some(h) => h,
        None => {
            return None;
        },
    };
    Some(Wide { hi, lo })
}

/// 256-bit comparison.
pub(crate) fn wide_le(a: &Wide, b: &Wide) -> (r: bool)
    ensures
        r == (wide_val(*a) <= wide_val(*b)),
{
    a.hi < b.hi || (a.hi == b.hi && a.lo <= b.lo)
}

/// A non-negative fixed-point decimal: the represented value is
/// `atomics / DECIMAL_FRACTIONAL`.
#[derive(Clone, Copy, Debug, PartialEq, Eq, Structural)]
pub struct Decimal {
    pub atomics: u128,
}

impl Decimal {
    pub open spec fn spec_zero() -> Decimal {
        Decimal { atomics: 0 }
    }

    /// The decimal 0.
    pub fn zero() -> (r: Decimal)
        ensures
            r == Decimal::spec_zero(),
    {
        Decimal { atomics: 0 }
    }

    /// The decimal 1.
    pub fn one() -> (r: Decimal)
        ensures
            r.atomics == DECIMAL_FRACTIONAL,
    {
        Decimal { atomics: DECIMAL_FRACTIONAL }
    }

    /// The decimal holding `atomics` atomic units, i.e. `atomics / 10^18`.
    pub fn from_atomics(atomics: u128) -> (r: Decimal)
        ensures
            r.atomics == atomics,
    {
        Decimal { atomics }
    }

    pub fn is_zero(&self) -> (r: bool)
        ensures
            r == (self.atomics == 0),
    {
        self.atomics == 0
    }

    /// Sum of two decimals; `None` when the result would not be representable.
    pub fn checked_add(self, other: Decimal) -> (r: Option<Decimal>)
        ensures
            match r {
                Some(c) => c.atomics == self.atomics + other.atomics,
                None => self.atomics + other.atomics > u128::MAX,
            },
    {
        match self.atomics.checked_add(other.atomics) {
            Some(a) => Some(Decimal { atomics: a }),
            None => None,
        }
    }

    /// Difference of two decimals; `None` when the result would be negative.
    pub fn checked_sub(self, other: Decimal) -> (r: Option<Decimal>)
        ensures
            match r {
                Some(c) => c.atomics == self.atomics - other.atomics,
                None => self.atomics < other.atomics,
            },
    {
        match self.atomics.checked_sub(other.atomics) {
            Some(a) => Some(Decimal { atomics: a }),
            None => None,
        }
    }

    /// Product of two decimals, computed in 256 bits and truncated toward
    /// zero; `None` when the result would not be representable.
    pub fn checked_mul(self, other: Decimal) -> (r: Option<Decimal>)
        ensures
            match r {
                Some(c) => c.atomics == (self.atomics * other.atomics) / (
                DECIMAL_FRACTIONAL as int),
                None => (self.atomics * other.atomics) / (DECIMAL_FRACTIONAL as int) > u128::MAX,
            },
    {
        let prod = mul_wide(self.atomics, other.atomics);
        let (q, _) = div_wide(prod, DECIMAL_FRACTIONAL);
        if q.hi == 0 {
            Some(Decimal { atomics: q.lo })
        } else {
            None
        }
    }

    /// Product of a decimal and an integer, which is exact in atomics;
    /// `None` when the result would not be representable.
    pub fn checked_mul_uint(self, factor: u128) -> (r: Option<Decimal>)
        ensures
            match r {
                Some(c) => c.atomics == self.atomics * factor,
                None => self.atomics * factor > u128::MAX,
            },
    {
        let prod = mul_wide(self.atomics, factor);
        if prod.hi == 0 {
            Some(Decimal { atomics: prod.lo })
        } else {
            None
        }
    }

    /// The ratio `numerator / denominator` truncated to 18 fractional
    /// digits; `None` when the result would not be representable.
    pub fn checked_from_ratio(numerator: u128, denominator: u128) -> (r: Option<Decimal>)
        requires
            denominator != 0,
        ensures
            match r {
                Some(c) => c.atomics == (numerator * DECIMAL_FRACTIONAL) / (denominator as int),
                None => (numerator * DECIMAL_FRACTIONAL) / (denominator as int) > u128::MAX,
            },
    {
        let prod = mul_wide(numerator, DECIMAL_FRACTIONAL);
        let (q, _) = div_wide(prod, denominator);
        if q.hi == 0 {
            Some(Decimal { atomics: q.lo })
        } else {
            None
        }
    }

    /// The ratio `numerator / denominator`, which the caller knows to be
    /// representable.
    pub fn from_ratio(numerator: u128, denominator: u128) -> (r: Decimal)
        requires
            denominator != 0,
            (numerator * DECIMAL_FRACTIONAL) / (denominator as int) <= u128::MAX,
        ensures
            r.atomics == (numerator * DECIMAL_FRACTIONAL) / (denominator as int),
    {
        match Decimal::checked_from_ratio(numerator, denominator) {
            Some(c) => c,
            None => {
                proof {
                    assert(false);
                }
                Decimal { atomics: 0 }
            },
        }
    }

    /// The whole-unit part of the decimal, truncated toward zero.
    pub fn to_uint_floor(self) -> (r: u128)
        ensures
            r == self.atomics / DECIMAL_FRACTIONAL,
    {
        self.atomics / DECIMAL_FRACTIONAL
    }
}

/// `amount * numerator / denominator` with a 256-bit intermediate product;
/// `None` when the result would not be representable.
pub fn checked_multiply_ratio(amount: u128, numerator: u128, denominator: u128) -> (r: Option<
    u128,
>)
    requires
        denominator != 0,
    ensures
        match r {
            Some(v) => v == (amount * numerator) / (denominator as int),
            None => (amount * numerator) / (denominator as int) > u128::MAX,
        },
{
    let prod = mul_wide(amount, numerator);
    let (q, _) = div_wide(prod, denominator);
    if q.hi == 0 {
        Some(q.lo)
    } else {
        None
    }
}

} // verus!
