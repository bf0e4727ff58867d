//! Binary floating-point values, held as their bit patterns.
//!
//! Comparison, minimum, maximum, clamping, absolute value and truncation of a
//! floating-point number are decided by its bits alone, so they are plain
//! integer code here. Rounded arithmetic is the business of [`crate::fpu`].
use vstd::arithmetic::div_mod::lemma_div_denominator;
use vstd::arithmetic::power2::{
    lemma_pow2_pos, lemma_pow2_strictly_increases, lemma_pow2_unfold, pow2,
};
use vstd::prelude::*;

verus! {

/// A binary32 value: one sign bit, eight exponent bits, 23 fraction bits.
#[derive(Copy, Clone, PartialEq, Eq, Structural, Debug)]
pub struct Real32 {
    pub bits: u32,
}

/// A binary64 value: one sign bit, eleven exponent bits, 52 fraction bits.
#[derive(Copy, Clone, PartialEq, Eq, Structural, Debug)]
pub struct Real64 {
    pub bits: u64,
}

/// The integer part of `m * 2^e`.
pub open spec fn floor_scaled(m: nat, e: int) -> nat {
    if e >= 0 {
        m * pow2(e as nat)
    } else {
        m / pow2((-e) as nat)
    }
}

/// The integer part of `m * 2^e`, or `usize::MAX` where that does not fit.
fn floor_scaled_saturating(m: u64, e: i32) -> (r: usize)
    requires
        -2000 <= e <= 2000,
    ensures
        r == (if floor_scaled(m as nat, e as int) <= usize::MAX {
            floor_scaled(m as nat, e as int) as int
        } else {
            usize::MAX as int
        }),
{
    let mut v: u64 = m;
    if e >= 0 {
        let mut k: i32 = e;
        while k > 0
            invariant
                0 <= k <= e,
                v as nat * pow2(k as nat) == m as nat * pow2(e as nat),
            decreases k,
        {
            proof {
                lemma_pow2_unfold(k as nat);
                lemma_pow2_pos((k - 1) as nat);
                let p: int = pow2((k - 1) as nat) as int;
                assert(v as int * (2 * p) == (2 * v as int) * p) by (nonlinear_arith);
                assert((2 * v as int) * p >= 2 * v as int) by (nonlinear_arith)
                    requires
                        p >= 1,
                        v >= 0,
                ;
            }
            if v > u64::MAX / 2 {
                return usize::MAX;
            }
            v = v * 2;
            k = k - 1;
        }
        proof {
            assert(pow2(0) == 1) by {
                vstd::arithmetic::power2::lemma2_to64();
            }
            assert(v as nat * 1 == v as nat);
        }
    } else {
        let mut k: i32 = e;
        proof {
            assert(pow2(0) == 1) by {
                vstd::arithmetic::power2::lemma2_to64();
            }
            assert(m as nat / 1 == m as nat);
        }
        while k < 0
            invariant
                e <= k <= 0,
                -2000 <= e,
                v as nat == m as nat / pow2((k - e) as nat),
            decreases -k,
        {
            proof {
                lemma_pow2_unfold((k + 1 - e) as nat);
                lemma_pow2_pos((k - e) as nat);
                lemma_div_denominator(m as int, pow2((k - e) as nat) as int, 2);
                assert(pow2((k - e) as nat) * 2 == pow2((k + 1 - e) as nat));
            }
            v = v / 2;
            k = k + 1;
        }
    }
    if v > usize::MAX as u64 {
        usize::MAX
    } else {
        v as usize
    }
}

impl Real32 {
    /// The bits below the sign: they order the magnitudes.
    pub open spec fn magnitude(self) -> int {
        self.bits as int % 0x8000_0000
    }

    pub open spec fn negative(self) -> bool {
        self.bits >= 0x8000_0000
    }

    /// Not a number: all exponent bits set and some fraction bit set.
    #[verifier::allow_in_spec]
    pub fn is_nan(self) -> bool
        returns
            self.magnitude() > 0x7f80_0000,
    {
        self.bits % 0x8000_0000 > 0x7f80_0000
    }

    /// An integer that orders the numbers: the two zeros share the key 0.
    pub open spec fn key(self) -> int {
        if self.negative() {
            -self.magnitude()
        } else {
            self.magnitude()
        }
    }

    fn signed_magnitude(self) -> (r: i64)
        ensures
            r == self.key(),
    {
        if self.bits >= 0x8000_0000 {
            -((self.bits - 0x8000_0000) as i64)
        } else {
            self.bits as i64
        }
    }

    /// `self < other`; false where either is not a number.
    #[verifier::allow_in_spec]
    pub fn lt(self, other: Real32) -> bool
        returns
            !self.is_nan() && !other.is_nan() && self.key() < other.key(),
    {
        !self.is_nan() && !other.is_nan() && self.signed_magnitude() < other.signed_magnitude()
    }

    /// `self <= other`; false where either is not a number.
    #[verifier::allow_in_spec]
    pub fn le(self, other: Real32) -> bool
        returns
            !self.is_nan() && !other.is_nan() && self.key() <= other.key(),
    {
        !self.is_nan() && !other.is_nan() && self.signed_magnitude() <= other.signed_magnitude()
    }

    /// The lesser of the two; the other one where one is not a number, and
    /// `self` where they compare equal.
    #[verifier::allow_in_spec]
    pub fn min(self, other: Real32) -> Real32
        returns
            (if self.is_nan() || other.lt(self) {
                other
            } else {
                self
            }),
    {
        if self.is_nan() || other.lt(self) {
            other
        } else {
            self
        }
    }

    /// The greater of the two; the other one where one is not a number, and
    /// `self` where they compare equal.
    #[verifier::allow_in_spec]
    pub fn max(self, other: Real32) -> Real32
        returns
            (if self.is_nan() || self.lt(other) {
                other
            } else {
                self
            }),
    {
        if self.is_nan() || self.lt(other) {
            other
        } else {
            self
        }
    }

    /// `self` without its sign.
    #[verifier::allow_in_spec]
    pub fn abs(self) -> Real32
        returns
            (Real32 { bits: self.magnitude() as u32 }),
    {
        Real32 { bits: self.bits % 0x8000_0000 }
    }

    /// `self` moved to the nearer end of `lo..=hi` where it lies outside;
    /// what is not a number stays.
    #[verifier::allow_in_spec]
    pub fn clamp(self, lo: Real32, hi: Real32) -> Real32
        returns
            (if self.lt(lo) {
                lo
            } else if hi.lt(self) {
                hi
            } else {
                self
            }),
    {
        if self.lt(lo) {
            lo
        } else if hi.lt(self) {
            hi
        } else {
            self
        }
    }

    /// Neither infinite nor not a number.
    pub open spec fn is_finite(self) -> bool {
        self.magnitude() < 0x7f80_0000
    }

    /// `self` with the other sign.
    pub open spec fn opposite(self) -> Real32 {
        Real32 {
            bits: if self.negative() {
                (self.bits - 0x8000_0000) as u32
            } else {
                (self.bits + 0x8000_0000) as u32
            },
        }
    }

    /// The two are the same number, where the two zeros are one, or neither is a
    /// number.
    pub open spec fn same(self, other: Real32) -> bool {
        if self.is_nan() || other.is_nan() {
            self.is_nan() && other.is_nan()
        } else {
            self.key() == other.key()
        }
    }

    /// `self` is, up to its sign, `significand * 2^exponent`.
    pub open spec fn significand(self) -> int {
        if self.magnitude() < 0x80_0000 {
            self.magnitude()
        } else {
            0x80_0000 + self.magnitude() % 0x80_0000
        }
    }

    pub open spec fn exponent(self) -> int {
        if self.magnitude() < 0x80_0000 {
            -149
        } else {
            self.magnitude() / 0x80_0000 - 150
        }
    }

    /// A finite value in units of 2^-149, of which all finite values are multiples.
    pub open spec fn units(self) -> int {
        let n = self.significand() * pow2((self.exponent() + 149) as nat);
        if self.negative() {
            -n
        } else {
            n
        }
    }

    /// The largest integer not above `self`, brought into the range of
    /// `usize`: what is below zero or not a number gives 0, what is too large
    /// gives `usize::MAX`.
    pub open spec fn floor_usize(self) -> int {
        let n = floor_scaled(self.significand() as nat, self.exponent());
        if self.is_nan() || self.negative() {
            0
        } else if n <= usize::MAX {
            n as int
        } else {
            usize::MAX as int
        }
    }

    pub fn to_usize(self) -> (r: usize)
        ensures
            r == self.floor_usize(),
    {
        if self.is_nan() || self.bits >= 0x8000_0000 {
            return 0;
        }
        let field: u32 = self.bits / 0x80_0000;
        if field == 0 {
            floor_scaled_saturating(self.bits as u64, -149)
        } else {
            floor_scaled_saturating((0x80_0000 + self.bits % 0x80_0000) as u64, field as i32 - 150)
        }
    }
}

/// The binary32 value with these bits.
#[verifier::allow_in_spec]
pub fn lit(bits: u32) -> Real32
    returns
        (Real32 { bits }),
{
    Real32 { bits }
}

impl Real64 {
    /// The bits below the sign: they order the magnitudes.
    pub open spec fn magnitude(self) -> int {
        self.bits as int % 0x8000_0000_0000_0000
    }

    pub open spec fn negative(self) -> bool {
        self.bits >= 0x8000_0000_0000_0000
    }

    /// Not a number: all exponent bits set and some fraction bit set.
    #[verifier::allow_in_spec]
    pub fn is_nan(self) -> bool
        returns
            self.magnitude() > 0x7ff0_0000_0000_0000,
    {
        self.bits % 0x8000_0000_0000_0000 > 0x7ff0_0000_0000_0000
    }

    /// `self > 0`; false where `self` is not a number.
    #[verifier::allow_in_spec]
    pub fn is_positive(self) -> bool
        returns
            !self.is_nan() && !self.negative() && self.magnitude() > 0,
    {
        !self.is_nan() && self.bits < 0x8000_0000_0000_0000 && self.bits > 0
    }

    /// `self` is, up to its sign, `significand * 2^exponent`.
    pub open spec fn significand(self) -> int {
        if self.magnitude() < 0x10_0000_0000_0000 {
            self.magnitude()
        } else {
            0x10_0000_0000_0000 + self.magnitude() % 0x10_0000_0000_0000
        }
    }

    pub open spec fn exponent(self) -> int {
        if self.magnitude() < 0x10_0000_0000_0000 {
            -1074
        } else {
            self.magnitude() / 0x10_0000_0000_0000 - 1075
        }
    }

    /// The largest integer not above `self`, brought into the range of
    /// `usize`: what is below zero or not a number gives 0, what is too large
    /// gives `usize::MAX`.
    pub open spec fn floor_usize(self) -> int {
        let n = floor_scaled(self.significand() as nat, self.exponent());
        if self.is_nan() || self.negative() {
            0
        } else if n <= usize::MAX {
            n as int
        } else {
            usize::MAX as int
        }
    }

    pub fn to_usize(self) -> (r: usize)
        ensures
            r == self.floor_usize(),
    {
        if self.is_nan() || self.bits >= 0x8000_0000_0000_0000 {
            return 0;
        }
        let field: u64 = self.bits / 0x10_0000_0000_0000;
        if field == 0 {
            floor_scaled_saturating(self.bits, -1074)
        } else {
            floor_scaled_saturating(
                0x10_0000_0000_0000 + self.bits % 0x10_0000_0000_0000,
                field as i32 - 1075,
            )
        }
    }
}

/// The binary64 value with these bits.
#[verifier::allow_in_spec]
pub fn wide_lit(bits: u64) -> Real64
    returns
        (Real64 { bits }),
{
    Real64 { bits }
}

/// `lt` is a strict order, and on numbers a total one up to the two zeros:
/// exactly one of `a < b`, `b < a` and "same key" holds.
pub proof fn law_lt_is_a_strict_weak_order(a: Real32, b: Real32, c: Real32)
    ensures
        !a.lt(a),
        a.lt(b) && b.lt(c) ==> a.lt(c),
        !(a.lt(b) && b.lt(a)),
        !a.is_nan() && !b.is_nan() ==> (a.lt(b) || b.lt(a) || a.key() == b.key()),
        a.key() == b.key() && !a.is_nan() && !b.is_nan() ==> a == b || a.magnitude() == 0,
{
}

/// The other sign turns the order round, keeps the magnitude, and applied twice
/// changes nothing.
pub proof fn law_opposite(a: Real32)
    ensures
        a.opposite().key() == -a.key(),
        a.opposite().magnitude() == a.magnitude(),
        a.opposite().is_nan() == a.is_nan(),
        a.opposite().opposite() == a,
{
}

proof fn lemma_units_grow(a: Real32, b: Real32)
    requires
        a.magnitude() < b.magnitude(),
    ensures
        0 <= a.significand() * pow2((a.exponent() + 149) as nat) < b.significand() * pow2(
            (b.exponent() + 149) as nat,
        ),
{
    let e = (a.exponent() + 149) as nat;
    let f = (b.exponent() + 149) as nat;
    let m = a.significand();
    let n = b.significand();
    let p = pow2(e) as int;
    let q = pow2(f) as int;
    lemma_pow2_pos(e);
    lemma_pow2_pos(f);
    if e == f {
        assert(0 <= m * p < n * p) by (nonlinear_arith)
            requires
                0 <= m < n,
                p > 0,
        ;
    } else {
        lemma_pow2_unfold(e + 1);
        if e + 1 < f {
            lemma_pow2_strictly_increases(e + 1, f);
        }
        assert(0 <= m * p < n * q) by (nonlinear_arith)
            requires
                0 <= m < 0x100_0000,
                0x80_0000 <= n,
                p > 0,
                2 * p <= q,
        ;
    }
}

/// The units tell finite values apart as the order does, and zero from all
/// others.
pub proof fn law_units(a: Real32, b: Real32)
    requires
        a.is_finite(),
        b.is_finite(),
    ensures
        a.units() == b.units() <==> a.same(b),
        a.units() < b.units() <==> a.lt(b),
        a.units() == 0 <==> a.key() == 0,
{
    let zero = Real32 { bits: 0 };
    assert(forall|m: int, n: int| m == 0 ==> #[trigger] (m * n) == 0) by (nonlinear_arith);
    if a.magnitude() < b.magnitude() {
        lemma_units_grow(a, b);
    }
    if b.magnitude() < a.magnitude() {
        lemma_units_grow(b, a);
    }
    if a.magnitude() > 0 {
        lemma_units_grow(zero, a);
    }
    if b.magnitude() > 0 {
        lemma_units_grow(zero, b);
    }
}

/// `a <= b` says that `b < a` does not hold, for numbers; nothing compares
/// with what is not a number.
pub proof fn law_le_and_lt(a: Real32, b: Real32)
    ensures
        !a.is_nan() && !b.is_nan() ==> (a.le(b) <==> !b.lt(a)),
        a.is_nan() || b.is_nan() ==> !a.lt(b) && !a.le(b),
{
}

/// The minimum and the maximum of two values are one of the two, and bound
/// both of them where both are numbers; where one is not a number they are
/// the other.
pub proof fn law_min_max(a: Real32, b: Real32)
    ensures
        a.min(b) == a || a.min(b) == b,
        a.max(b) == a || a.max(b) == b,
        !a.is_nan() && !b.is_nan() ==> a.min(b).le(a) && a.min(b).le(b) && a.le(a.max(b)) && b.le(
            a.max(b),
        ),
        a.is_nan() ==> a.min(b) == b && a.max(b) == b,
        b.is_nan() ==> a.is_nan() || (a.min(b) == a && a.max(b) == a),
{
}

} // verus!
