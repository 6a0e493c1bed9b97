//! The trusted interface to the two pairing groups of BLS12-381, as
//! implemented by the `bls12_381` crate.
//!
//! Both `G1` and `G2` are cyclic of the prime order [`fr_order()`], so a
//! point is determined by the multiple of the fixed generator that it is.
//! The spec functions [`g1_val`] and [`g2_val`] name that multiplier, in
//! `[0, fr_order())`; every wrapper states its effect on it. The target
//! group of the pairing is likewise cyclic of that order, generated by the
//! pairing of the two generators, and [`gt_val`] names the exponent; the
//! bilinearity of the pairing gives the contract of [`pairing_points`].
//! Every point the `bls12_381` API hands out lies in the prime-order
//! subgroup: deserialization rejects points outside it.

use vstd::prelude::*;
use bls12_381::{G1Affine, G1Projective, G2Affine, G2Projective, Gt, Scalar};
use crate::fr::scalar_val;
use crate::fr_order;

verus! {

/// The projective form of a point of `G1`, from the `bls12_381` crate.
#[verifier::external_type_specification]
#[verifier::external_body]
pub struct ExG1Projective(G1Projective);

/// The projective form of a point of `G2`, from the `bls12_381` crate.
#[verifier::external_type_specification]
#[verifier::external_body]
pub struct ExG2Projective(G2Projective);

/// An element of the target group of the pairing, from the `bls12_381`
/// crate.
#[verifier::external_type_specification]
#[verifier::external_body]
pub struct ExGt(Gt);

/// The operating system's random number generator, from the `rand` crate.
#[verifier::external_type_specification]
#[verifier::external_body]
pub struct ExOsRng(rand::rngs::OsRng);

/// The multiple of the `G1` generator that a point is, in
/// `[0, fr_order())`.
pub uninterp spec fn g1_val(p: G1Projective) -> nat;

/// The multiple of the `G2` generator that a point is, in
/// `[0, fr_order())`.
pub uninterp spec fn g2_val(p: G2Projective) -> nat;

/// The exponent of an element of the target group over the pairing of the
/// two generators, in `[0, fr_order())`.
pub uninterp spec fn gt_val(t: Gt) -> nat;

/// The canonical 48-byte compressed encoding of the `G1` point with the
/// given value.
pub uninterp spec fn g1_compress(v: nat) -> Seq<u8>;

/// The canonical 96-byte compressed encoding of the `G2` point with the
/// given value.
pub uninterp spec fn g2_compress(v: nat) -> Seq<u8>;

/// The canonical 192-byte uncompressed encoding of the `G2` point with the
/// given value.
pub uninterp spec fn g2_uncompress(v: nat) -> Seq<u8>;

/// Relies on the derived `Clone` of `G1Projective`: a clone is a copy and
/// keeps the point.
pub assume_specification[ <G1Projective as Clone>::clone ](a: &G1Projective) -> (r: G1Projective)
    ensures
        g1_val(r) == g1_val(*a),
;

/// Relies on the derived `Clone` of `G2Projective`: a clone is a copy and
/// keeps the point.
pub assume_specification[ <G2Projective as Clone>::clone ](a: &G2Projective) -> (r: G2Projective)
    ensures
        g2_val(r) == g2_val(*a),
;

/// Relies on `G1Projective::generator`: the fixed generator of `G1`.
#[verifier::external_body]
pub(crate) fn g1_generator() -> (r: G1Projective)
    ensures
        g1_val(r) == 1,
{
    G1Projective::generator()
}

/// Relies on `G1Projective::identity`: the point at infinity.
#[verifier::external_body]
pub(crate) fn g1_identity() -> (r: G1Projective)
    ensures
        g1_val(r) == 0,
{
    G1Projective::identity()
}

/// Relies on `Add for G1Projective`: the group operation adds the
/// generator multiples, modulo the group order.
#[verifier::external_body]
pub(crate) fn g1_add(a: &G1Projective, b: &G1Projective) -> (r: G1Projective)
    ensures
        g1_val(r) == (g1_val(*a) + g1_val(*b)) % fr_order(),
{
    *a + *b
}

/// Relies on `Mul<Scalar> for G1Projective`: scalar multiplication
/// multiplies the generator multiple by the scalar, modulo the group order.
#[verifier::external_body]
pub(crate) fn g1_mul(p: &G1Projective, s: &Scalar) -> (r: G1Projective)
    ensures
        g1_val(r) == (g1_val(*p) * scalar_val(*s)) % fr_order(),
{
    *p * *s
}

/// Relies on `PartialEq for G1Projective`: equality of the points, which
/// on a cyclic group is equality of the generator multiples.
#[verifier::external_body]
pub(crate) fn g1_eq(a: &G1Projective, b: &G1Projective) -> (r: bool)
    ensures
        r == (g1_val(*a) % fr_order() == g1_val(*b) % fr_order()),
{
    *a == *b
}

/// Relies on `G1Affine::to_compressed`: the canonical compressed encoding
/// of the point, a function of the point alone.
#[verifier::external_body]
pub(crate) fn g1_to_compressed(p: &G1Projective) -> (r: [u8; 48])
    ensures
        r@ == g1_compress(g1_val(*p) % fr_order()),
        r@.len() == 48,
{
    G1Affine::from(p).to_compressed()
}

/// Relies on `G1Affine::from_compressed`: decodes the unique subgroup
/// point with this canonical encoding, and rejects all other byte strings.
#[verifier::external_body]
pub(crate) fn g1_from_compressed(bytes: &[u8; 48]) -> (r: Option<G1Projective>)
    ensures
        r is Some ==> g1_val(r->0) < fr_order() && bytes@ == g1_compress(g1_val(r->0)),
        forall|v: nat| v < fr_order() && bytes@ == g1_compress(v)
            ==> r is Some && g1_val(r->0) == v,
{
    let affine: Option<G1Affine> = G1Affine::from_compressed(bytes).into();
    affine.map(G1Projective::from)
}

/// Relies on `G2Projective::generator`: the fixed generator of `G2`.
#[verifier::external_body]
pub(crate) fn g2_generator() -> (r: G2Projective)
    ensures
        g2_val(r) == 1,
{
    G2Projective::generator()
}

/// Relies on `G2Projective::identity`: the point at infinity.
#[verifier::external_body]
pub(crate) fn g2_identity() -> (r: G2Projective)
    ensures
        g2_val(r) == 0,
{
    G2Projective::identity()
}

/// Relies on `Add for G2Projective`: the group operation adds the
/// generator multiples, modulo the group order.
#[verifier::external_body]
pub(crate) fn g2_add(a: &G2Projective, b: &G2Projective) -> (r: G2Projective)
    ensures
        g2_val(r) == (g2_val(*a) + g2_val(*b)) % fr_order(),
{
    *a + *b
}

/// Relies on `Mul<Scalar> for G2Projective`: scalar multiplication
/// multiplies the generator multiple by the scalar, modulo the group order.
#[verifier::external_body]
pub(crate) fn g2_mul(p: &G2Projective, s: &Scalar) -> (r: G2Projective)
    ensures
        g2_val(r) == (g2_val(*p) * scalar_val(*s)) % fr_order(),
{
    *p * *s
}

/// Relies on `PartialEq for G2Projective`: equality of the points, which
/// on a cyclic group is equality of the generator multiples.
#[verifier::external_body]
pub(crate) fn g2_eq(a: &G2Projective, b: &G2Projective) -> (r: bool)
    ensures
        r == (g2_val(*a) % fr_order() == g2_val(*b) % fr_order()),
{
    *a == *b
}

/// Relies on `G2Affine::to_compressed`: the canonical compressed encoding
/// of the point, a function of the point alone.
#[verifier::external_body]
pub(crate) fn g2_to_compressed(p: &G2Projective) -> (r: [u8; 96])
    ensures
        r@ == g2_compress(g2_val(*p) % fr_order()),
        r@.len() == 96,
{
    G2Affine::from(p).to_compressed()
}

/// Relies on `G2Affine::from_compressed`: decodes the unique subgroup
/// point with this canonical encoding, and rejects all other byte strings.
#[verifier::external_body]
pub(crate) fn g2_from_compressed(bytes: &[u8; 96]) -> (r: Option<G2Projective>)
    ensures
        r is Some ==> g2_val(r->0) < fr_order() && bytes@ == g2_compress(g2_val(r->0)),
        forall|v: nat| v < fr_order() && bytes@ == g2_compress(v)
            ==> r is Some && g2_val(r->0) == v,
{
    let affine: Option<G2Affine> = G2Affine::from_compressed(bytes).into();
    affine.map(G2Projective::from)
}

/// Relies on `G2Affine::to_uncompressed`: the canonical uncompressed
/// encoding of the point, a function of the point alone.
#[verifier::external_body]
pub(crate) fn g2_to_uncompressed(p: &G2Projective) -> (r: [u8; 192])
    ensures
        r@ == g2_uncompress(g2_val(*p) % fr_order()),
        r@.len() == 192,
{
    G2Affine::from(p).to_uncompressed()
}

/// Relies on `bls12_381::pairing` and its bilinearity: the pairing of the
/// `a`-th multiple of the `G1` generator with the `b`-th multiple of the
/// `G2` generator is the `a * b`-th power of the pairing of the generators.
#[verifier::external_body]
pub(crate) fn pairing_points(p: &G1Projective, q: &G2Projective) -> (r: Gt)
    ensures
        gt_val(r) == (g1_val(*p) * g2_val(*q)) % fr_order(),
{
    bls12_381::pairing(&G1Affine::from(p), &G2Affine::from(q))
}

/// Relies on `PartialEq for Gt`: equality of target-group elements, which
/// on a cyclic group is equality of the exponents.
#[verifier::external_body]
pub(crate) fn gt_eq(a: &Gt, b: &Gt) -> (r: bool)
    ensures
        r == (gt_val(*a) % fr_order() == gt_val(*b) % fr_order()),
{
    *a == *b
}

/// Relies on `rand::rngs::OsRng` being a unit value: hands out the
/// operating system's random number generator.
#[verifier::external_body]
pub(crate) fn os_rng() -> rand::rngs::OsRng {
    rand::rngs::OsRng
}

} // verus!
