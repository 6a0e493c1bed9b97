//! The trusted interface to the BLS12-381 scalar field `F_r`, as implemented
//! by the `bls12_381` crate.
//!
//! A `Scalar` is opaque to the verifier. The spec function [`scalar_val`]
//! names the integer in `[0, fr_order())` that a `Scalar` represents; every
//! wrapper below states its effect on that value, exactly as the field
//! axioms and the `bls12_381` documentation give it.

use vstd::prelude::*;
use bls12_381::Scalar;
use crate::fr_order;

verus! {

/// The scalar type of BLS12-381, from the `bls12_381` crate.
#[verifier::external_type_specification]
#[verifier::external_body]
pub struct ExScalar(Scalar);

/// The integer in `[0, fr_order())` that a `Scalar` represents.
pub uninterp spec fn scalar_val(s: Scalar) -> nat;

/// Relies on `Scalar::zero`: the additive identity of the field.
#[verifier::external_body]
pub(crate) fn scalar_zero() -> (r: Scalar)
    ensures
        scalar_val(r) == 0,
    opens_invariants none
    no_unwind
{
    Scalar::zero()
}

/// Relies on `Scalar::one`: the multiplicative identity of the field.
#[verifier::external_body]
pub(crate) fn scalar_one() -> (r: Scalar)
    ensures
        scalar_val(r) == 1,
{
    Scalar::one()
}

/// Relies on `Scalar::from(u64)`: embeds an integer into the field. Every
/// `u64` is below the field order, so no reduction happens.
#[verifier::external_body]
pub(crate) fn scalar_from_u64(x: u64) -> (r: Scalar)
    ensures
        scalar_val(r) == x as nat,
{
    Scalar::from(x)
}

/// Relies on `Add for Scalar`: field addition, modulo the order.
#[verifier::external_body]
pub(crate) fn scalar_add(a: &Scalar, b: &Scalar) -> (r: Scalar)
    ensures
        scalar_val(r) == (scalar_val(*a) + scalar_val(*b)) % fr_order(),
{
    *a + *b
}

/// Relies on `Sub for Scalar`: field subtraction, modulo the order.
#[verifier::external_body]
pub(crate) fn scalar_sub(a: &Scalar, b: &Scalar) -> (r: Scalar)
    ensures
        scalar_val(r) as int == (scalar_val(*a) + fr_order() - scalar_val(*b)) % (fr_order() as int),
{
    *a - *b
}

/// Relies on `Mul for Scalar`: field multiplication, modulo the order.
#[verifier::external_body]
pub(crate) fn scalar_mul(a: &Scalar, b: &Scalar) -> (r: Scalar)
    ensures
        scalar_val(r) == (scalar_val(*a) * scalar_val(*b)) % fr_order(),
{
    *a * *b
}

/// Relies on `PartialEq for Scalar`: two scalars are equal exactly when they
/// represent the same field element.
#[verifier::external_body]
pub(crate) fn scalar_eq(a: &Scalar, b: &Scalar) -> (r: bool)
    ensures
        r == (scalar_val(*a) % fr_order() == scalar_val(*b) % fr_order()),
{
    *a == *b
}

/// Relies on `Scalar::invert`: returns the multiplicative inverse of a
/// nonzero element, and nothing for zero.
#[verifier::external_body]
pub(crate) fn scalar_invert(a: &Scalar) -> (r: Option<Scalar>)
    ensures
        scalar_val(*a) % fr_order() == 0 <==> r is None,
        r is Some ==> scalar_val(r->0) < fr_order()
            && (scalar_val(*a) * scalar_val(r->0)) % fr_order() == 1,
{
    a.invert().into()
}

/// Relies on `ff::Field::random`: draws a uniformly distributed field
/// element from the given generator. Nothing is promised of the value beyond
/// its range.
#[verifier::external_body]
pub(crate) fn scalar_random<R: rand::RngCore>(rng: &mut R) -> (r: Scalar)
    ensures
        scalar_val(r) < fr_order(),
{
    <Scalar as ff::Field>::random(rng)
}

/// Relies on the derived `Clone` of `Scalar`: a clone is a copy and keeps
/// the value.
pub assume_specification[ <Scalar as Clone>::clone ](a: &Scalar) -> (r: Scalar)
    ensures
        scalar_val(r) == scalar_val(*a),
;

/// Relies on the assignment of `Scalar::zero`: overwrites the referenced
/// element with zero, so that the secret it held is gone.
#[verifier::external_body]
pub fn scalar_clear(fr: &mut Scalar)
    ensures
        scalar_val(*final(fr)) == 0,
    opens_invariants none
    no_unwind
{
    *fr = Scalar::zero();
}

/// A conversion into an element of the field `F_r`.
pub trait IntoFr: Copy {
    /// The field value that `self` converts to.
    spec fn fr_spec(&self) -> nat;

    /// Converts `self` to a field element.
    fn into_fr(self) -> (r: Scalar)
        ensures
            scalar_val(r) == self.fr_spec(),
    ;
}

impl IntoFr for Scalar {
    open spec fn fr_spec(&self) -> nat {
        scalar_val(*self)
    }

    fn into_fr(self) -> (r: Scalar) {
        self
    }
}

impl IntoFr for u64 {
    open spec fn fr_spec(&self) -> nat {
        *self as nat
    }

    fn into_fr(self) -> (r: Scalar) {
        scalar_from_u64(self)
    }
}

impl IntoFr for usize {
    open spec fn fr_spec(&self) -> nat {
        *self as nat
    }

    fn into_fr(self) -> (r: Scalar) {
        scalar_from_u64(self as u64)
    }
}

impl IntoFr for i32 {
    open spec fn fr_spec(&self) -> nat {
        if *self >= 0 {
            *self as nat
        } else {
            (-(*self as int)) as nat
        }
    }

    fn into_fr(self) -> (r: Scalar) {
        if self >= 0 {
            scalar_from_u64(self as u64)
        } else {
            let mag: u64 = (-((self as i64) + 1)) as u64;
            scalar_from_u64(mag + 1)
        }
    }
}

impl IntoFr for i64 {
    open spec fn fr_spec(&self) -> nat {
        if *self >= 0 {
            *self as nat
        } else {
            (-(*self as int)) as nat
        }
    }

    fn into_fr(self) -> (r: Scalar) {
        if self >= 0 {
            scalar_from_u64(self as u64)
        } else {
            let mag: u64 = (-(self + 1)) as u64;
            scalar_from_u64(mag + 1)
        }
    }
}

impl<'a, T: IntoFr> IntoFr for &'a T {
    open spec fn fr_spec(&self) -> nat {
        (**self).fr_spec()
    }

    fn into_fr(self) -> (r: Scalar) {
        (*self).into_fr()
    }
}

} // verus!
