//! Rounded arithmetic, as the host machine does it.
//!
//! What the sum, product, quotient or square root of two values rounds to is
//! the host's affair: it hands in one function that carries out an [`Op32`] (or
//! an [`Op64`]). The library asks of that function that it accepts every
//! operation, gives the same result for the same operation, and in binary32 obeys
//! the laws of [`crate::arith`]. Contracts then speak of "the sum on this unit",
//! whatever the unit's rounding is.
use crate::arith::obeys_laws;
use crate::number::{Real32, Real64};
use vstd::prelude::*;

verus! {

/// One operation whose result is a binary32 value.
#[derive(Copy, Clone, PartialEq, Eq, Structural, Debug)]
pub enum Op32 {
    Add(Real32, Real32),
    Sub(Real32, Real32),
    Mul(Real32, Real32),
    Div(Real32, Real32),
    Sqrt(Real32),
    /// The value nearest to an unsigned integer.
    FromUint(u64),
    /// The value nearest to a signed integer.
    FromInt(i64),
    /// The binary32 value nearest to a binary64 one.
    Narrow(Real64),
}

/// One operation whose result is a binary64 value.
#[derive(Copy, Clone, PartialEq, Eq, Structural, Debug)]
pub enum Op64 {
    Add(Real64, Real64),
    Mul(Real64, Real64),
    Div(Real64, Real64),
    /// The value nearest to an unsigned integer.
    FromUint(u64),
    /// A binary32 value, exactly.
    Widen(Real32),
}

/// The function accepts every operation.
pub open spec fn total32<F: Fn(Op32) -> Real32>(f: F) -> bool {
    forall|op: Op32| #[trigger] call_requires(f, (op,))
}

/// The function has at most one result for each operation.
pub open spec fn single_valued32<F: Fn(Op32) -> Real32>(f: F) -> bool {
    forall|op: Op32, r: Real32, s: Real32| #[trigger]
        call_ensures(f, (op,), r) && #[trigger] call_ensures(f, (op,), s) ==> r == s
}

/// The function has a result for this operation.
pub open spec fn answers32<F: Fn(Op32) -> Real32>(f: F, op: Op32) -> bool {
    exists|r: Real32| call_ensures(f, (op,), r)
}

/// The function accepts every operation.
pub open spec fn total64<F: Fn(Op64) -> Real64>(f: F) -> bool {
    forall|op: Op64| #[trigger] call_requires(f, (op,))
}

/// The function has at most one result for each operation.
pub open spec fn single_valued64<F: Fn(Op64) -> Real64>(f: F) -> bool {
    forall|op: Op64, r: Real64, s: Real64| #[trigger]
        call_ensures(f, (op,), r) && #[trigger] call_ensures(f, (op,), s) ==> r == s
}

/// A unit of binary32 arithmetic.
pub struct Fpu32<F: Fn(Op32) -> Real32> {
    op: F,
}

impl<F: Fn(Op32) -> Real32> Fpu32<F> {
    #[verifier::type_invariant]
    spec fn inv(self) -> bool {
        total32(self.op) && single_valued32(self.op) && obeys_laws(self.op)
    }

    /// The host function that does the arithmetic.
    pub closed spec fn host(&self) -> F {
        self.op
    }

    /// The result of `op` on this unit.
    pub closed spec fn value(&self, op: Op32) -> Real32 {
        choose|r: Real32| call_ensures(self.op, (op,), r)
    }

    /// Where the host function has a result, it is that of the unit.
    pub proof fn law_value(&self, op: Op32)
        requires
            answers32(self.host(), op),
        ensures
            call_ensures(self.host(), (op,), self.value(op)),
    {
    }

    pub fn new(op: F) -> (r: Self)
        requires
            total32(op),
            single_valued32(op),
            obeys_laws(op),
        ensures
            r.host() == op,
    {
        Fpu32 { op }
    }

    /// Carries out one operation: the result is the one that the host
    /// function gives.
    pub fn run(&self, op: Op32) -> (r: Real32)
        ensures
            r == self.value(op),
            call_ensures(self.host(), (op,), r),
            obeys_laws(self.host()),
    {
        proof {
            use_type_invariant(self);
        }
        (self.op)(op)
    }

    #[verifier::allow_in_spec]
    pub fn add(&self, a: Real32, b: Real32) -> Real32
        returns
            self.value(Op32::Add(a, b)),
    {
        self.run(Op32::Add(a, b))
    }

    #[verifier::allow_in_spec]
    pub fn sub(&self, a: Real32, b: Real32) -> Real32
        returns
            self.value(Op32::Sub(a, b)),
    {
        self.run(Op32::Sub(a, b))
    }

    #[verifier::allow_in_spec]
    pub fn mul(&self, a: Real32, b: Real32) -> Real32
        returns
            self.value(Op32::Mul(a, b)),
    {
        self.run(Op32::Mul(a, b))
    }

    #[verifier::allow_in_spec]
    pub fn div(&self, a: Real32, b: Real32) -> Real32
        returns
            self.value(Op32::Div(a, b)),
    {
        self.run(Op32::Div(a, b))
    }

    #[verifier::allow_in_spec]
    pub fn sqrt(&self, a: Real32) -> Real32
        returns
            self.value(Op32::Sqrt(a)),
    {
        self.run(Op32::Sqrt(a))
    }

    #[verifier::allow_in_spec]
    pub fn from_uint(&self, n: u64) -> Real32
        returns
            self.value(Op32::FromUint(n)),
    {
        self.run(Op32::FromUint(n))
    }

    #[verifier::allow_in_spec]
    pub fn from_int(&self, n: i64) -> Real32
        returns
            self.value(Op32::FromInt(n)),
    {
        self.run(Op32::FromInt(n))
    }

    #[verifier::allow_in_spec]
    pub fn narrow(&self, a: Real64) -> Real32
        returns
            self.value(Op32::Narrow(a)),
    {
        self.run(Op32::Narrow(a))
    }
}

/// A unit of binary64 arithmetic.
pub struct Fpu64<F: Fn(Op64) -> Real64> {
    op: F,
}

impl<F: Fn(Op64) -> Real64> Fpu64<F> {
    #[verifier::type_invariant]
    spec fn inv(self) -> bool {
        total64(self.op) && single_valued64(self.op)
    }

    /// The host function that does the arithmetic.
    pub closed spec fn host(&self) -> F {
        self.op
    }

    /// The result of `op` on this unit.
    pub closed spec fn value(&self, op: Op64) -> Real64 {
        choose|r: Real64| call_ensures(self.op, (op,), r)
    }

    pub fn new(op: F) -> (r: Self)
        requires
            total64(op),
            single_valued64(op),
        ensures
            r.host() == op,
    {
        Fpu64 { op }
    }

    /// Carries out one operation: the result is the one that the host
    /// function gives.
    pub fn run(&self, op: Op64) -> (r: Real64)
        ensures
            r == self.value(op),
            call_ensures(self.host(), (op,), r),
    {
        proof {
            use_type_invariant(self);
        }
        (self.op)(op)
    }

    #[verifier::allow_in_spec]
    pub fn add(&self, a: Real64, b: Real64) -> Real64
        returns
            self.value(Op64::Add(a, b)),
    {
        self.run(Op64::Add(a, b))
    }

    #[verifier::allow_in_spec]
    pub fn mul(&self, a: Real64, b: Real64) -> Real64
        returns
            self.value(Op64::Mul(a, b)),
    {
        self.run(Op64::Mul(a, b))
    }

    #[verifier::allow_in_spec]
    pub fn div(&self, a: Real64, b: Real64) -> Real64
        returns
            self.value(Op64::Div(a, b)),
    {
        self.run(Op64::Div(a, b))
    }

    #[verifier::allow_in_spec]
    pub fn from_uint(&self, n: u64) -> Real64
        returns
            self.value(Op64::FromUint(n)),
    {
        self.run(Op64::FromUint(n))
    }

    #[verifier::allow_in_spec]
    pub fn widen(&self, a: Real32) -> Real64
        returns
            self.value(Op64::Widen(a)),
    {
        self.run(Op64::Widen(a))
    }
}

} // verus!
