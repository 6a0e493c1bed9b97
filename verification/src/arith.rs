//! Modular-arithmetic lemmas over the scalar field order, shared by the
//! proofs of the signing, encryption and interpolation contracts.

use vstd::prelude::*;
use vstd::arithmetic::div_mod::{
    lemma_add_mod_noop, lemma_mod_bound, lemma_mod_twice, lemma_mul_mod_noop_general,
    lemma_small_mod,
};
use vstd::arithmetic::mul::{
    lemma_mul_is_associative, lemma_mul_is_commutative, lemma_mul_is_distributive_add,
};
use crate::fr_order;

verus! {

/// Reducing either factor of a product modulo `fr_order()` does not change
/// the product's residue.
pub proof fn lemma_mul_mod(a: nat, b: nat)
    ensures
        ((a % fr_order()) * b) % fr_order() == (a * b) % fr_order(),
        (a * (b % fr_order())) % fr_order() == (a * b) % fr_order(),
        ((a % fr_order()) * (b % fr_order())) % fr_order() == (a * b) % fr_order(),
{
    lemma_mul_mod_noop_general(a as int, b as int, fr_order() as int);
}

/// Reducing either term of a sum modulo `fr_order()` does not change the
/// sum's residue.
pub proof fn lemma_add_mod(a: nat, b: nat)
    ensures
        ((a % fr_order()) + b) % fr_order() == (a + b) % fr_order(),
        (a + (b % fr_order())) % fr_order() == (a + b) % fr_order(),
        ((a % fr_order()) + (b % fr_order())) % fr_order() == (a + b) % fr_order(),
{
    lemma_add_mod_noop(a as int, b as int, fr_order() as int);
}

/// Multiplication of residues is commutative.
pub proof fn lemma_mul_comm(a: nat, b: nat)
    ensures
        (a * b) % fr_order() == (b * a) % fr_order(),
{
    lemma_mul_is_commutative(a as int, b as int);
}

/// The residue of a residue is itself.
pub proof fn lemma_mod_idempotent(a: nat)
    ensures
        (a % fr_order()) % fr_order() == a % fr_order(),
        a % fr_order() < fr_order(),
{
    lemma_mod_twice(a as int, fr_order() as int);
    lemma_mod_bound(a as int, fr_order() as int);
}

/// A value below the order is its own residue.
pub proof fn lemma_mod_small(a: nat)
    requires
        a < fr_order(),
    ensures
        a % fr_order() == a,
{
    lemma_small_mod(a, fr_order());
}

/// Congruent values stay congruent when multiplied by the same factor.
pub proof fn lemma_cong_mul(a: nat, b: nat, c: nat)
    requires
        a % fr_order() == b % fr_order(),
    ensures
        (a * c) % fr_order() == (b * c) % fr_order(),
{
    lemma_mul_mod(a, c);
    lemma_mul_mod(b, c);
}

/// Congruent values stay congruent when the same term is added.
pub proof fn lemma_cong_add(a: nat, b: nat, c: nat)
    requires
        a % fr_order() == b % fr_order(),
    ensures
        (a + c) % fr_order() == (b + c) % fr_order(),
{
    lemma_add_mod(a, c);
    lemma_add_mod(b, c);
}

/// Whether `b` is the multiplicative inverse of `a` modulo the order.
pub open spec fn is_fr_inverse(a: nat, b: nat) -> bool {
    b < fr_order() && (a * b) % fr_order() == 1
}

/// The multiplicative inverse of `a` modulo the order, where one exists.
pub open spec fn inv_mod(a: nat) -> nat {
    choose|b: nat| is_fr_inverse(a, b)
}

/// An invertible element can be cancelled: if a product with it vanishes
/// modulo the order, the other factor vanishes.
pub proof fn lemma_inverse_cancels(a: nat, w: nat, b: nat)
    requires
        is_fr_inverse(a, w),
        (a * b) % fr_order() == 0,
    ensures
        b % fr_order() == 0,
{
    let m = fr_order();
    // b == b * (a * w) == (a * b) * w == 0, all modulo the order
    assert((b * ((a * w) % m)) % m == b % m) by {
        assert(b * 1 == b) by (nonlinear_arith);
    }
    lemma_mul_mod(a * w, b);
    lemma_mul_comm(a * w, b);
    lemma_mul_comm((a * w) % m, b);
    assert(b * (a * w) == (a * b) * w) by {
        lemma_mul_is_associative(b as int, a as int, w as int);
        lemma_mul_is_commutative(b as int, a as int);
        lemma_mul_is_associative(a as int, b as int, w as int);
    }
    lemma_mul_mod(a * b, w);
    assert((0 * w) % m == 0) by {
        assert(0 * w == 0) by (nonlinear_arith);
        lemma_mod_small(0);
    }
}

/// An inverse of a product yields an inverse of its left factor.
pub proof fn lemma_factor_inverse(a: nat, b: nat, v: nat)
    requires
        is_fr_inverse((a * b) % fr_order(), v),
    ensures
        is_fr_inverse(a, (b * v) % fr_order()),
{
    let m = fr_order();
    let w = (b * v) % m;
    lemma_mod_idempotent(b * v);
    // a * ((b * v) % m) == a * b * v == ((a * b) % m) * v == 1, modulo m
    lemma_mul_mod(b * v, a);
    lemma_mul_comm(b * v, a);
    lemma_mul_comm((b * v) % m, a);
    assert(a * (b * v) == (a * b) * v) by {
        lemma_mul_is_associative(a as int, b as int, v as int);
    }
    lemma_mul_mod(a * b, v);
}

/// Any witness of an inverse is the inverse: `inv_mod` is well defined.
pub proof fn lemma_inv_mod_unique(a: nat, b: nat)
    requires
        is_fr_inverse(a, b),
    ensures
        inv_mod(a) == b,
{
    assert(is_fr_inverse(a, inv_mod(a)));
    lemma_inverse_unique(a, inv_mod(a), b);
}

/// An element has at most one inverse modulo the (prime) order: any two
/// residues that both multiply `a` to one are equal.
pub proof fn lemma_inverse_unique(a: nat, b: nat, c: nat)
    requires
        b < fr_order(),
        c < fr_order(),
        (a * b) % fr_order() == 1,
        (a * c) % fr_order() == 1,
    ensures
        b == c,
{
    // b = (a * c) * b = (a * b) * c = c, all modulo the order.
    let m = fr_order();
    assert(((a * c) * b) % m == b % m) by {
        lemma_mul_mod(a * c, b);
        assert((((a * c) % m) * b) % m == (1 * b) % m);
    }
    assert((a * c) * b == (a * b) * c) by {
        lemma_mul_is_associative(a as int, c as int, b as int);
        lemma_mul_is_commutative(c as int, b as int);
        lemma_mul_is_associative(a as int, b as int, c as int);
    }
    assert(((a * b) * c) % m == c % m) by {
        lemma_mul_mod(a * b, c);
        assert((((a * b) % m) * c) % m == (1 * c) % m);
    }
    lemma_mod_small(b);
    lemma_mod_small(c);
}

} // verus!
