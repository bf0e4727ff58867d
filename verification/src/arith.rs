//! The laws of binary32 arithmetic that the library's own laws rest on.
//!
//! Rounding aside, the host's operations have to behave like those of numbers:
//! [`obeys_laws`] is asked of every host function. No function of the library needs
//! this to run; it is what statements about two calculations are proved from, by way
//! of [`lawful`], which says the same of the results on a unit.
use crate::fpu::{answers32, Fpu32, Op32};
use crate::literal::{ONE, ZERO};
use crate::number::{lit, Real32};
use vstd::prelude::*;

verus! {

/// What is asked of a host function, of whatever results it gives:
///
/// - The order of two summands does not matter.
/// - The sums of the same numbers are the same number.
/// - A difference taken the other way round is its opposite.
/// - The difference of two finite numbers is a number, and its sign tells which of
///   them is greater.
/// - Two opposites have the quotient of what they are opposites of, unless the
///   divisor is zero.
/// - The two zeros have one square, as have all values that are not numbers.
/// - Multiplying by one or taking zero away leaves a number as it is.
#[verifier::opaque]
pub open spec fn obeys_laws<F: Fn(Op32) -> Real32>(f: F) -> bool {
    &&& forall|a: Real32, b: Real32, r: Real32, s: Real32| #[trigger]
        call_ensures(f, (Op32::Add(a, b),), r) && #[trigger] call_ensures(f, (Op32::Add(b, a),), s)
            ==> r == s
    &&& forall|a: Real32, b: Real32, c: Real32, d: Real32, r: Real32, s: Real32| #[trigger]
        call_ensures(f, (Op32::Add(a, b),), r) && #[trigger] call_ensures(f, (Op32::Add(c, d),), s)
            && a.same(c) && b.same(d) ==> r.same(s)
    &&& forall|a: Real32, b: Real32, r: Real32, s: Real32| #[trigger]
        call_ensures(f, (Op32::Sub(a, b),), r) && #[trigger] call_ensures(f, (Op32::Sub(b, a),), s)
            ==> r.same(s.opposite())
    &&& forall|a: Real32, b: Real32, r: Real32| #[trigger]
        call_ensures(f, (Op32::Sub(a, b),), r) && a.is_finite() && b.is_finite() ==> {
            &&& !r.is_nan()
            &&& r.key() > 0 <==> b.lt(a)
            &&& r.key() < 0 <==> a.lt(b)
        }
    &&& forall|a: Real32, b: Real32, c: Real32, d: Real32, r: Real32, s: Real32| #[trigger]
        call_ensures(f, (Op32::Div(a, b),), r) && #[trigger] call_ensures(f, (Op32::Div(c, d),), s)
            && a.same(c.opposite()) && b.same(d.opposite()) && b.key() != 0 ==> r.same(s)
    &&& forall|a: Real32, b: Real32, r: Real32, s: Real32| #[trigger]
        call_ensures(f, (Op32::Mul(a, a),), r) && #[trigger] call_ensures(f, (Op32::Mul(b, b),), s)
            && a.same(b) ==> r == s
    &&& forall|a: Real32, r: Real32| #[trigger]
        call_ensures(f, (Op32::Mul(a, lit(ONE)),), r) && !a.is_nan() ==> r == a
    &&& forall|a: Real32, r: Real32| #[trigger]
        call_ensures(f, (Op32::Sub(a, lit(ZERO)),), r) && !a.is_nan() ==> r == a
}

/// The order of two summands does not matter.
#[verifier::opaque]
pub open spec fn sums_commute<F: Fn(Op32) -> Real32>(u: &Fpu32<F>) -> bool {
    forall|a: Real32, b: Real32|
        #![trigger u.value(Op32::Add(a, b))]
        u.add(a, b) == u.add(b, a)
}

/// The sums of the same numbers are the same number.
#[verifier::opaque]
pub open spec fn sums_agree<F: Fn(Op32) -> Real32>(u: &Fpu32<F>) -> bool {
    forall|a: Real32, b: Real32, c: Real32, d: Real32|
        #![trigger u.value(Op32::Add(a, b)), u.value(Op32::Add(c, d))]
        a.same(c) && b.same(d) ==> u.add(a, b).same(u.add(c, d))
}

/// A difference taken the other way round is its opposite.
#[verifier::opaque]
pub open spec fn differences_mirror<F: Fn(Op32) -> Real32>(u: &Fpu32<F>) -> bool {
    forall|a: Real32, b: Real32|
        #![trigger u.value(Op32::Sub(a, b))]
        u.sub(a, b).same(u.sub(b, a).opposite())
}

/// The difference of two finite numbers is a number, and its sign tells which of
/// them is greater.
#[verifier::opaque]
pub open spec fn differences_order<F: Fn(Op32) -> Real32>(u: &Fpu32<F>) -> bool {
    forall|a: Real32, b: Real32|
        #![trigger u.value(Op32::Sub(a, b))]
        a.is_finite() && b.is_finite() ==> {
            &&& !u.sub(a, b).is_nan()
            &&& u.sub(a, b).key() > 0 <==> b.lt(a)
            &&& u.sub(a, b).key() < 0 <==> a.lt(b)
        }
}

/// Two opposites have the quotient of what they are opposites of, unless the
/// divisor is zero.
#[verifier::opaque]
pub open spec fn quotients_mirror<F: Fn(Op32) -> Real32>(u: &Fpu32<F>) -> bool {
    forall|a: Real32, b: Real32, c: Real32, d: Real32|
        #![trigger u.value(Op32::Div(a, b)), u.value(Op32::Div(c, d))]
        a.same(c.opposite()) && b.same(d.opposite()) && b.key() != 0 ==> u.div(a, b).same(
            u.div(c, d),
        )
}

/// The two zeros have one square, as have all values that are not numbers.
#[verifier::opaque]
pub open spec fn squares_agree<F: Fn(Op32) -> Real32>(u: &Fpu32<F>) -> bool {
    forall|a: Real32, b: Real32|
        #![trigger u.value(Op32::Mul(a, a)), u.value(Op32::Mul(b, b))]
        a.same(b) ==> u.mul(a, a) == u.mul(b, b)
}

/// Multiplying by one or taking zero away leaves a number as it is.
#[verifier::opaque]
pub open spec fn units_are_neutral<F: Fn(Op32) -> Real32>(u: &Fpu32<F>) -> bool {
    forall|a: Real32|
        #![trigger u.value(Op32::Mul(a, lit(ONE)))]
        #![trigger u.value(Op32::Sub(a, lit(ZERO)))]
        !a.is_nan() ==> u.mul(a, lit(ONE)) == a && u.sub(a, lit(ZERO)) == a
}

/// The unit's arithmetic obeys the laws.
pub open spec fn lawful<F: Fn(Op32) -> Real32>(u: &Fpu32<F>) -> bool {
    &&& sums_commute(u)
    &&& sums_agree(u)
    &&& differences_mirror(u)
    &&& differences_order(u)
    &&& quotients_mirror(u)
    &&& squares_agree(u)
    &&& units_are_neutral(u)
}

/// The arithmetic of every unit obeys the laws, as long as its host function has a
/// result for each operation.
pub proof fn law_lawful<F: Fn(Op32) -> Real32>(u: &Fpu32<F>)
    requires
        obeys_laws(u.host()),
        forall|op: Op32| #[trigger] answers32(u.host(), op),
    ensures
        lawful(u),
{
    let f = u.host();
    assert forall|op: Op32| call_ensures(f, (op,), #[trigger] u.value(op)) by {
        assert(answers32(f, op));
        u.law_value(op);
    }
    assert(sums_commute(u) && sums_agree(u)) by {
        reveal(obeys_laws);
        reveal(sums_commute);
        reveal(sums_agree);
    }
    assert(differences_mirror(u) && differences_order(u)) by {
        reveal(obeys_laws);
        reveal(differences_mirror);
        reveal(differences_order);
    }
    assert(quotients_mirror(u)) by {
        reveal(obeys_laws);
        reveal(quotients_mirror);
    }
    assert(squares_agree(u)) by {
        reveal(obeys_laws);
        reveal(squares_agree);
    }
    assert(units_are_neutral(u)) by {
        reveal(obeys_laws);
        reveal(units_are_neutral);
        assert forall|a: Real32| !a.is_nan() implies #[trigger] u.value(Op32::Mul(a, lit(ONE)))
            == a && u.value(Op32::Sub(a, lit(ZERO))) == a by {
            assert(call_ensures(f, (Op32::Sub(a, lit(ZERO)),), u.value(Op32::Sub(a, lit(ZERO)))));
        }
    }
}

/// A value minus itself is zero or not a number.
pub proof fn law_self_difference<F: Fn(Op32) -> Real32>(u: &Fpu32<F>, a: Real32)
    requires
        lawful(u),
    ensures
        u.sub(a, a).is_nan() || u.sub(a, a).key() == 0,
{
    reveal(differences_mirror);
    let d = u.value(Op32::Sub(a, a));
    assert(d.same(d.opposite()));
}

/// The difference of finite numbers is zero exactly where they are the same.
pub proof fn law_zero_difference<F: Fn(Op32) -> Real32>(u: &Fpu32<F>, a: Real32, b: Real32)
    requires
        lawful(u),
        a.is_finite(),
        b.is_finite(),
    ensures
        !u.sub(a, b).is_nan(),
        u.sub(a, b).key() == 0 <==> a.same(b),
{
    reveal(differences_order);
}

} // verus!
