//! Univariate polynomials over the scalar field `F_r`, and their
//! homomorphic commitments in `G1`.
//!
//! A polynomial is a vector of coefficients, lowest degree first; its view
//! is the sequence of coefficient values reduced modulo [`fr_order()`].
//! Evaluation is Horner's rule, stated by the spec function [`poly_eval`].
//! A commitment carries the same coefficients lifted to `G1`, so its view
//! is the same sequence, and evaluating it in the group matches the
//! polynomial's own evaluation, coefficient for coefficient.

use vstd::prelude::*;
use vstd::arithmetic::mul::{lemma_mul_is_associative, lemma_mul_is_commutative};
use bls12_381::{G1Projective, Scalar};
use crate::arith::{inv_mod, is_fr_inverse, lemma_add_mod, lemma_cong_add, lemma_cong_mul,
    lemma_mod_idempotent,
    lemma_mod_small, lemma_mul_comm, lemma_mul_mod};
use crate::error::Error;
use crate::fr::{scalar_add, scalar_eq, scalar_mul, scalar_one, scalar_random, scalar_sub,
    scalar_val, scalar_zero, IntoFr};
use crate::groups::{g1_add, g1_eq, g1_generator, g1_identity, g1_mul, g1_val};
use crate::fr_order;

verus! {

/// Horner evaluation of a coefficient sequence (lowest degree first) at a
/// point, modulo the field order. The empty sequence is the zero
/// polynomial.
pub open spec fn poly_eval(c: Seq<nat>, x: nat) -> nat
    decreases c.len(),
{
    if c.len() == 0 {
        0
    } else {
        (c[0] + x * poly_eval(c.drop_first(), x)) % fr_order()
    }
}

/// An evaluation result is already reduced modulo the order.
pub proof fn lemma_poly_eval_reduced(c: Seq<nat>, x: nat)
    ensures
        poly_eval(c, x) % fr_order() == poly_eval(c, x),
{
    if c.len() == 0 {
        lemma_mod_small(0);
    } else {
        lemma_mod_idempotent(c[0] + x * poly_eval(c.drop_first(), x));
    }
}

/// The degree that a coefficient sequence represents: one less than its
/// length, or zero for the empty (zero) polynomial.
pub open spec fn spec_degree(c: Seq<nat>) -> nat {
    if c.len() == 0 {
        0
    } else {
        (c.len() - 1) as nat
    }
}

/// The `i`-th coefficient of a sequence, zero beyond its length.
pub open spec fn coeff_at(c: Seq<nat>, i: int) -> nat {
    if 0 <= i < c.len() {
        c[i]
    } else {
        0
    }
}

/// The coefficient sequence with trailing zero coefficients removed, so
/// that it is empty or its highest coefficient is nonzero.
pub open spec fn trim_zeros(c: Seq<nat>) -> Seq<nat>
    decreases c.len(),
{
    if c.len() > 0 && c.last() == 0 {
        trim_zeros(c.drop_last())
    } else {
        c
    }
}

/// The coefficient-wise sum of two coefficient sequences, padded to the
/// longer one, before trimming.
pub open spec fn sum_coeffs(a: Seq<nat>, b: Seq<nat>) -> Seq<nat> {
    Seq::new(if a.len() >= b.len() { a.len() } else { b.len() },
        |i: int| (coeff_at(a, i) + coeff_at(b, i)) % fr_order())
}

/// The coefficient-wise difference of two coefficient sequences, padded to
/// the longer one, before trimming.
pub open spec fn diff_coeffs(a: Seq<nat>, b: Seq<nat>) -> Seq<nat> {
    Seq::new(if a.len() >= b.len() { a.len() } else { b.len() },
        |i: int| ((coeff_at(a, i) + fr_order() - coeff_at(b, i)) % (fr_order() as int)) as nat)
}

/// The sum of the first `n` products `a[i] * b[k - i]`: after all
/// `a.len()` terms it is the `k`-th coefficient of the product polynomial,
/// before reduction.
pub open spec fn conv_sum(a: Seq<nat>, b: Seq<nat>, k: int, n: int) -> nat
    decreases n,
{
    if n <= 0 {
        0
    } else {
        conv_sum(a, b, k, n - 1) + coeff_at(a, n - 1) * coeff_at(b, k - (n - 1))
    }
}

/// The coefficient sequence of the product of two polynomials, before
/// trimming: entry `k` is the convolution of the inputs at `k`, reduced.
pub open spec fn prod_coeffs(a: Seq<nat>, b: Seq<nat>) -> Seq<nat> {
    Seq::new(if a.len() == 0 || b.len() == 0 { 0 } else { (a.len() + b.len() - 1) as nat },
        |k: int| conv_sum(a, b, k, a.len() as int) % fr_order())
}

/// The reduced values of a vector of scalars.
pub open spec fn vec_view(s: Seq<Scalar>) -> Seq<nat> {
    Seq::new(s.len(), |i: int| scalar_val(s[i]) % fr_order())
}

/// Trimming a sequence whose highest coefficient is zero drops it.
proof fn lemma_trim_step(c: Seq<nat>)
    requires
        c.len() > 0,
        c.last() == 0,
    ensures
        trim_zeros(c) == trim_zeros(c.drop_last()),
{
}

/// A polynomial over `F_r`: the coefficients of
/// `a_0 + a_1 x + ... + a_d x^d`, lowest degree first. The coefficients
/// are secret; they are overwritten with zero when the polynomial is
/// dropped.
#[derive(Clone)]
pub struct Poly {
    pub(crate) coeff: Vec<Scalar>,
}

impl Poly {
    /// The sequence of coefficient values, reduced modulo the field
    /// order.
    pub closed spec fn spec_coeffs(&self) -> Seq<nat> {
        Seq::new(self.coeff@.len(), |i: int| scalar_val(self.coeff@[i]) % fr_order())
    }

    /// Every coefficient value is below the field order.
    pub proof fn lemma_coeffs_bound(&self)
        ensures
            forall|i: int| 0 <= i < self.spec_coeffs().len()
                ==> #[trigger] self.spec_coeffs()[i] < fr_order(),
    {
        assert forall|i: int| 0 <= i < self.spec_coeffs().len()
            implies #[trigger] self.spec_coeffs()[i] < fr_order() by {
            lemma_mod_idempotent(scalar_val(self.coeff@[i]));
        }
    }

    /// Returns the polynomial with constant value zero.
    pub fn zero() -> (r: Poly)
        ensures
            r.spec_coeffs() =~= Seq::<nat>::empty(),
    {
        Poly { coeff: Vec::new() }
    }

    /// Returns the polynomial with the given constant value.
    pub fn constant(c: Scalar) -> (r: Poly)
        ensures
            r.spec_coeffs() =~= seq![scalar_val(c) % fr_order()],
    {
        let mut coeff: Vec<Scalar> = Vec::new();
        coeff.push(c);
        Poly { coeff }
    }

    /// Returns the identity polynomial `x`.
    pub fn identity() -> (r: Poly)
        ensures
            r.spec_coeffs() =~= seq![0nat, 1nat],
    {
        let mut coeff: Vec<Scalar> = Vec::new();
        coeff.push(scalar_zero());
        coeff.push(scalar_one());
        let r = Poly { coeff };
        proof {
            lemma_mod_small(0);
            lemma_mod_small(1);
        }
        r
    }

    /// Returns the monomial `x^degree`.
    pub fn monomial(degree: usize) -> (r: Poly)
        ensures
            r.spec_coeffs().len() == degree + 1,
            forall|i: int| 0 <= i < degree ==> r.spec_coeffs()[i] == 0,
            r.spec_coeffs()[degree as int] == 1,
    {
        let mut coeff: Vec<Scalar> = Vec::new();
        let mut i: usize = 0;
        while i < degree
            invariant
                i <= degree,
                coeff@.len() == i,
                forall|j: int| 0 <= j < i ==> scalar_val(coeff@[j]) == 0,
            decreases degree - i,
        {
            coeff.push(scalar_zero());
            i += 1;
        }
        coeff.push(scalar_one());
        let r = Poly { coeff };
        proof {
            lemma_mod_small(0);
            lemma_mod_small(1);
        }
        r
    }

    /// Returns a polynomial of the given degree with coefficients drawn
    /// from the given random number generator.
    ///
    /// The degree must leave room for `degree + 1` coefficients; for the
    /// checked variant see [`Poly::try_random`].
    pub fn random<R: rand::RngCore>(degree: usize, rng: &mut R) -> (r: Poly)
        requires
            degree < usize::MAX,
        ensures
            r.spec_coeffs().len() == degree + 1,
    {
        match Poly::try_random(degree, rng) {
            Ok(poly) => poly,
            Err(_) => Poly::zero(),  // unreachable: the degree is in range
        }
    }

    /// Returns a polynomial of the given degree with random coefficients,
    /// or `DegreeTooHigh` if `degree + 1` coefficients cannot exist on
    /// this platform.
    pub fn try_random<R: rand::RngCore>(degree: usize, rng: &mut R) -> (r: Result<Poly, Error>)
        ensures
            degree < usize::MAX <==> r is Ok,
            r is Ok ==> r->Ok_0.spec_coeffs().len() == degree + 1,
            r is Err ==> r->Err_0 == Error::DegreeTooHigh,
    {
        if degree == usize::MAX {
            return Err(Error::DegreeTooHigh);
        }
        let n = degree + 1;
        let mut coeff: Vec<Scalar> = Vec::new();
        while coeff.len() < n
            invariant
                coeff@.len() <= n,
            decreases n - coeff@.len(),
        {
            coeff.push(scalar_random(rng));
        }
        Ok(Poly { coeff })
    }

    /// Returns the degree: one less than the number of coefficients, or
    /// zero for the zero polynomial.
    pub fn degree(&self) -> (r: usize)
        ensures
            r == spec_degree(self.spec_coeffs()),
    {
        if self.coeff.len() == 0 {
            0
        } else {
            self.coeff.len() - 1
        }
    }

    /// Evaluates the polynomial at the given point, by Horner's rule.
    pub fn evaluate<T: IntoFr>(&self, x: T) -> (r: Scalar)
        ensures
            scalar_val(r) == poly_eval(self.spec_coeffs(), x.fr_spec()),
    {
        let xs = x.into_fr();
        let ghost cs = self.spec_coeffs();
        let ghost xv = x.fr_spec();
        let mut acc = scalar_zero();
        let mut i: usize = self.coeff.len();
        while i > 0
            invariant
                i <= self.coeff@.len(),
                cs == self.spec_coeffs(),
                cs.len() == self.coeff@.len(),
                scalar_val(xs) == xv,
                scalar_val(acc) == poly_eval(cs.subrange(i as int, cs.len() as int), xv),
            decreases i,
        {
            i -= 1;
            let m = scalar_mul(&acc, &xs);
            let next = scalar_add(&self.coeff[i], &m);
            proof {
                let tail = cs.subrange(i + 1, cs.len() as int);
                let here = cs.subrange(i as int, cs.len() as int);
                assert(here.drop_first() =~= tail);
                assert(here[0] == cs[i as int]);
                // (c_i + (acc * x) mod r) mod r == (c'_i + x * acc) mod r
                lemma_mul_comm(scalar_val(acc), scalar_val(xs));
                lemma_add_mod(scalar_val(self.coeff@[i as int]),
                    scalar_val(xs) * scalar_val(acc));
                lemma_add_mod(scalar_val(self.coeff@[i as int]) % fr_order(),
                    scalar_val(xs) * scalar_val(acc));
            }
            acc = next;
        }
        proof {
            assert(cs.subrange(0, cs.len() as int) =~= cs);
        }
        acc
    }

    /// Returns the commitment of the polynomial: each coefficient times
    /// the `G1` generator. The commitment's view equals the polynomial's.
    pub fn commitment(&self) -> (r: Commitment)
        ensures
            r.spec_coeffs() =~= self.spec_coeffs(),
    {
        let gen = g1_generator();
        let mut coeff: Vec<G1Projective> = Vec::new();
        let mut i: usize = 0;
        while i < self.coeff.len()
            invariant
                i <= self.coeff@.len(),
                g1_val(gen) == 1,
                coeff@.len() == i,
                forall|j: int| 0 <= j < i
                    ==> g1_val(#[trigger] coeff@[j]) % fr_order()
                    == scalar_val(self.coeff@[j]) % fr_order(),
            decreases self.coeff@.len() - i,
        {
            let c = g1_mul(&gen, &self.coeff[i]);
            proof {
                lemma_mod_idempotent(scalar_val(self.coeff@[i as int]));
            }
            coeff.push(c);
            i += 1;
        }
        Commitment { coeff }
    }

    /// Adds another polynomial, coefficient-wise, and trims trailing zero
    /// coefficients so that the result is in canonical form.
    pub fn add(&self, other: &Poly) -> (r: Poly)
        ensures
            r.spec_coeffs() == trim_zeros(sum_coeffs(self.spec_coeffs(), other.spec_coeffs())),
    {
        let ghost target = sum_coeffs(self.spec_coeffs(), other.spec_coeffs());
        let n = if self.coeff.len() >= other.coeff.len() {
            self.coeff.len()
        } else {
            other.coeff.len()
        };
        let zero = scalar_zero();
        let mut coeff: Vec<Scalar> = Vec::new();
        let mut i: usize = 0;
        while i < n
            invariant
                i <= n,
                n == if self.spec_coeffs().len() >= other.spec_coeffs().len() {
                    self.spec_coeffs().len()
                } else {
                    other.spec_coeffs().len()
                },
                scalar_val(zero) == 0,
                target == sum_coeffs(self.spec_coeffs(), other.spec_coeffs()),
                target.len() == n,
                coeff@.len() == i,
                forall|j: int| 0 <= j < i
                    ==> scalar_val(#[trigger] coeff@[j]) == target[j],
            decreases n - i,
        {
            let a = if i < self.coeff.len() { &self.coeff[i] } else { &zero };
            let b = if i < other.coeff.len() { &other.coeff[i] } else { &zero };
            let c = scalar_add(a, b);
            proof {
                lemma_add_mod(scalar_val(*a), scalar_val(*b));
                lemma_add_mod(scalar_val(*a) % fr_order(), scalar_val(*b));
            }
            coeff.push(c);
            i += 1;
        }
        let mut out = Poly { coeff };
        proof {
            assert(out.spec_coeffs() =~= target) by {
                assert forall|j: int| 0 <= j < n
                    implies out.spec_coeffs()[j] == target[j] by {
                    lemma_mod_idempotent(target[j]);
                }
            }
        }
        out.remove_zeros();
        out
    }

    /// Subtracts another polynomial, coefficient-wise, and trims trailing
    /// zero coefficients so that the result is in canonical form.
    pub fn sub(&self, other: &Poly) -> (r: Poly)
        ensures
            r.spec_coeffs() == trim_zeros(diff_coeffs(self.spec_coeffs(), other.spec_coeffs())),
    {
        let ghost target = diff_coeffs(self.spec_coeffs(), other.spec_coeffs());
        let n = if self.coeff.len() >= other.coeff.len() {
            self.coeff.len()
        } else {
            other.coeff.len()
        };
        let zero = scalar_zero();
        let mut coeff: Vec<Scalar> = Vec::new();
        let mut i: usize = 0;
        while i < n
            invariant
                i <= n,
                n == if self.spec_coeffs().len() >= other.spec_coeffs().len() {
                    self.spec_coeffs().len()
                } else {
                    other.spec_coeffs().len()
                },
                scalar_val(zero) == 0,
                target == diff_coeffs(self.spec_coeffs(), other.spec_coeffs()),
                target.len() == n,
                coeff@.len() == i,
                forall|j: int| 0 <= j < i
                    ==> scalar_val(#[trigger] coeff@[j]) == target[j],
            decreases n - i,
        {
            let a = if i < self.coeff.len() { &self.coeff[i] } else { &zero };
            let b = if i < other.coeff.len() { &other.coeff[i] } else { &zero };
            let c = scalar_sub(a, b);
            proof {
                lemma_sub_mod_noop(scalar_val(*a), scalar_val(*b));
            }
            coeff.push(c);
            i += 1;
        }
        let mut out = Poly { coeff };
        proof {
            assert(out.spec_coeffs() =~= target) by {
                assert forall|j: int| 0 <= j < n
                    implies out.spec_coeffs()[j] == target[j] by {
                    lemma_mod_idempotent(target[j]);
                }
            }
        }
        out.remove_zeros();
        out
    }

    /// Multiplies by another polynomial, schoolbook-style, and trims
    /// trailing zero coefficients so that the result is in canonical form.
    pub fn mul(&self, other: &Poly) -> (r: Poly)
        requires
            self.spec_coeffs().len() + other.spec_coeffs().len() <= usize::MAX,
        ensures
            r.spec_coeffs() == trim_zeros(prod_coeffs(self.spec_coeffs(), other.spec_coeffs())),
    {
        let ghost av = self.spec_coeffs();
        let ghost bv = other.spec_coeffs();
        let ghost target = prod_coeffs(av, bv);
        if self.coeff.len() == 0 || other.coeff.len() == 0 {
            let out = Poly { coeff: Vec::new() };
            proof {
                assert(out.spec_coeffs() =~= target);
            }
            return out;
        }
        let n = self.coeff.len() + other.coeff.len() - 1;
        let mut coeff: Vec<Scalar> = Vec::new();
        let mut k: usize = 0;
        while k < n
            invariant
                k <= n,
                av == self.spec_coeffs(),
                bv == other.spec_coeffs(),
                av.len() == self.coeff@.len(),
                bv.len() == other.coeff@.len(),
                av.len() > 0 && bv.len() > 0,
                n == av.len() + bv.len() - 1,
                target == prod_coeffs(av, bv),
                target.len() == n,
                coeff@.len() == k,
                forall|j: int| 0 <= j < k
                    ==> scalar_val(#[trigger] coeff@[j]) == target[j],
            decreases n - k,
        {
            let mut acc = scalar_zero();
            let mut i: usize = 0;
            proof {
                lemma_mod_small(0);
            }
            while i < self.coeff.len()
                invariant
                    i <= self.coeff@.len(),
                    k < n,
                    av == self.spec_coeffs(),
                    bv == other.spec_coeffs(),
                    av.len() == self.coeff@.len(),
                    bv.len() == other.coeff@.len(),
                    scalar_val(acc) == conv_sum(av, bv, k as int, i as int) % fr_order(),
                decreases self.coeff@.len() - i,
            {
                if i <= k && k - i < other.coeff.len() {
                    let t = scalar_mul(&self.coeff[i], &other.coeff[k - i]);
                    let next = scalar_add(&acc, &t);
                    proof {
                        lemma_conv_sum_step(av, bv, k as int, i as int,
                            scalar_val(self.coeff@[i as int]),
                            scalar_val(other.coeff@[(k - i) as int]));
                    }
                    acc = next;
                } else {
                    proof {
                        assert(coeff_at(bv, k - i) == 0);
                        assert(conv_sum(av, bv, k as int, i + 1)
                            == conv_sum(av, bv, k as int, i as int)
                            + coeff_at(av, i as int) * 0);
                    }
                }
                i += 1;
            }
            coeff.push(acc);
            k += 1;
        }
        let mut out = Poly { coeff };
        proof {
            assert(out.spec_coeffs() =~= target) by {
                assert forall|j: int| 0 <= j < n
                    implies out.spec_coeffs()[j] == target[j] by {
                    lemma_mod_idempotent(conv_sum(av, bv, j, av.len() as int));
                }
            }
        }
        out.remove_zeros();
        out
    }

    /// Returns the unique polynomial of degree below the number of
    /// samples passing through the given `(x, y)` points, built from the
    /// Lagrange basis polynomials. Two equal `x` values make a Lagrange
    /// denominator zero and yield `DuplicateEntry`.
    pub fn interpolate<T: IntoFr, U: IntoFr>(samples: &Vec<(T, U)>) -> (r: Result<Poly, Error>)
        requires
            samples@.len() < usize::MAX,
        ensures
            ({
                let n = samples@.len() as int;
                let xs = Seq::new(samples@.len(),
                    |i: int| samples@[i].0.fr_spec() % fr_order());
                let ys = Seq::new(samples@.len(),
                    |i: int| samples@[i].1.fr_spec() % fr_order());
                &&& (r is Ok || r == Err::<Poly, Error>(Error::DuplicateEntry))
                &&& (r == Err::<Poly, Error>(Error::DuplicateEntry) <==> exists|i: int|
                    0 <= i < n && #[trigger] crate::interpolate::denom_prod(xs, i, n)
                    % fr_order() == 0)
                &&& (r is Ok ==> r->Ok_0.spec_coeffs().len() <= n)
                &&& (r is Ok ==> forall|t: int| 0 <= t < n
                    ==> poly_eval(r->Ok_0.spec_coeffs(), #[trigger] xs[t]) == ys[t])
            }),
    {
        let ghost n = samples@.len() as int;
        let ghost xs = Seq::new(samples@.len(), |i: int| samples@[i].0.fr_spec() % fr_order());
        let ghost ys = Seq::new(samples@.len(), |i: int| samples@[i].1.fr_spec() % fr_order());
        let count = samples.len();
        let mut xv: Vec<Scalar> = Vec::new();
        let mut yv: Vec<Scalar> = Vec::new();
        let mut idx: usize = 0;
        while idx < count
            invariant
                count == samples@.len(),
                xs == Seq::new(samples@.len(),
                    |i: int| samples@[i].0.fr_spec() % fr_order()),
                ys == Seq::new(samples@.len(),
                    |i: int| samples@[i].1.fr_spec() % fr_order()),
                idx <= count,
                xv@.len() == idx,
                yv@.len() == idx,
                forall|j: int| 0 <= j < idx
                    ==> scalar_val(#[trigger] xv@[j]) % fr_order() == xs[j],
                forall|j: int| 0 <= j < idx
                    ==> scalar_val(#[trigger] yv@[j]) % fr_order() == ys[j],
            decreases count - idx,
        {
            let pair = &samples[idx];
            xv.push(pair.0.into_fr());
            yv.push(pair.1.into_fr());
            idx += 1;
        }
        let mut combo: Vec<Scalar> = Vec::new();
        let mut i: usize = 0;
        while i < count
            invariant
                count == samples@.len(),
                count == n,
                xs == Seq::new(samples@.len(),
                    |i: int| samples@[i].0.fr_spec() % fr_order()),
                ys == Seq::new(samples@.len(),
                    |i: int| samples@[i].1.fr_spec() % fr_order()),
                xs.len() == count,
                ys.len() == count,
                xv@.len() == count,
                yv@.len() == count,
                forall|j: int| 0 <= j < count
                    ==> scalar_val(#[trigger] xv@[j]) % fr_order() == xs[j],
                forall|j: int| 0 <= j < count
                    ==> scalar_val(#[trigger] yv@[j]) % fr_order() == ys[j],
                count < usize::MAX,
                i <= count,
                vec_view(combo@) == crate::interpolate::lagrange_combo(xs, ys, n, i as int),
                combo@.len() <= count,
                forall|j: int| 0 <= j < i
                    ==> #[trigger] crate::interpolate::denom_invertible(xs, j, n),
                forall|j: int| 0 <= j < i
                    ==> #[trigger] crate::interpolate::denom_prod(xs, j, n)
                    % fr_order() != 0,
            decreases count - i,
        {
            // the i-th Lagrange denominator
            let mut denom = scalar_one();
            let mut j: usize = 0;
            proof {
                lemma_mod_small(1);
            }
            while j < count
                invariant
                    count == samples@.len(),
                    i < count,
                    xs == Seq::new(samples@.len(),
                        |i: int| samples@[i].0.fr_spec() % fr_order()),
                    xs.len() == count,
                    xv@.len() == count,
                    forall|k: int| 0 <= k < count
                        ==> scalar_val(#[trigger] xv@[k]) % fr_order() == xs[k],
                    j <= count,
                    scalar_val(denom)
                        == crate::interpolate::denom_prod(xs, i as int, j as int)
                        % fr_order(),
                decreases count - j,
            {
                if j != i {
                    let diff = scalar_sub(&xv[j], &xv[i]);
                    proof {
                        lemma_sub_mod_noop(scalar_val(xv@[j as int]),
                            scalar_val(xv@[i as int]));
                        assert(scalar_val(diff)
                            == crate::interpolate::sub_mod(xs[j as int], xs[i as int]));
                    }
                    let next = scalar_mul(&denom, &diff);
                    proof {
                        lemma_mul_mod(crate::interpolate::denom_prod(xs, i as int,
                            j as int),
                            crate::interpolate::sub_mod(xs[j as int], xs[i as int]));
                    }
                    denom = next;
                } else {
                    proof {
                        assert(crate::interpolate::denom_prod(xs, i as int, j + 1)
                            == crate::interpolate::denom_prod(xs, i as int, j as int) * 1);
                    }
                }
                j += 1;
            }
            let inv = match crate::fr::scalar_invert(&denom) {
                Some(inv) => {
                    proof {
                        lemma_mod_idempotent(crate::interpolate::denom_prod(xs, i as int,
                            n));
                    }
                    inv
                },
                None => {
                    proof {
                        lemma_mod_idempotent(crate::interpolate::denom_prod(xs, i as int,
                            n));
                    }
                    return Err(Error::DuplicateEntry);
                },
            };
            let c = scalar_mul(&yv[i], &inv);
            // the i-th Lagrange numerator polynomial
            let mut ell: Vec<Scalar> = Vec::new();
            ell.push(scalar_one());
            let mut j: usize = 0;
            proof {
                lemma_mod_small(1);
                assert(vec_view(ell@) =~= crate::interpolate::ell_coeffs(xs, i as int, 0));
            }
            while j < count
                invariant
                    count == samples@.len(),
                    count == n,
                    i < count,
                    xs == Seq::new(samples@.len(),
                        |i: int| samples@[i].0.fr_spec() % fr_order()),
                    xs.len() == count,
                    xv@.len() == count,
                    forall|k: int| 0 <= k < count
                        ==> scalar_val(#[trigger] xv@[k]) % fr_order() == xs[k],
                    count < usize::MAX,
                    j <= count,
                    vec_view(ell@) == crate::interpolate::ell_coeffs(xs, i as int, j as int),
                    ell@.len() <= j + 1,
                decreases count - j,
            {
                if j != i {
                    let next = lin_mul_vec(&xv[j], &ell);
                    ell = next;
                }
                j += 1;
            }
            let term = scale_vec(&c, &ell);
            let next = add_vecs(&combo, &term);
            proof {
                let d = crate::interpolate::denom_prod(xs, i as int, n) % fr_order();
                assert(is_fr_inverse(d, scalar_val(inv)));
                assert(crate::interpolate::denom_invertible(xs, i as int, n));
                crate::arith::lemma_inv_mod_unique(d, scalar_val(inv));
                // the scaling constant matches the spec's weight for this term
                lemma_mul_mod(scalar_val(yv@[i as int]), scalar_val(inv));
                assert(scalar_val(c) == (ys[i as int] * inv_mod(d)) % fr_order());
                assert(vec_view(next@) == crate::interpolate::lagrange_combo(xs, ys, n,
                    i + 1));
                crate::interpolate::lemma_combo_len(xs, ys, n, i + 1);
            }
            combo = next;
            i += 1;
        }
        let out = Poly { coeff: combo };
        proof {
            assert(out.spec_coeffs() =~= vec_view(combo@));
            assert forall|t: int| 0 <= t < n
                implies poly_eval(out.spec_coeffs(), #[trigger] xs[t]) == ys[t] by {
                assert forall|j: int| 0 <= j < n
                    implies #[trigger] ys[j] < fr_order() by {
                    lemma_mod_idempotent(samples@[j].1.fr_spec());
                }
                assert forall|j: int| 0 <= j < n
                    implies #[trigger] xs[j] < fr_order() by {
                    lemma_mod_idempotent(samples@[j].0.fr_spec());
                }
                crate::interpolate::lemma_combo_at_point(xs, ys, n, n, t);
            }
        }
        Ok(out)
    }

    /// Removes trailing zero coefficients, so that the polynomial is
    /// empty or its highest coefficient is nonzero.
    fn remove_zeros(&mut self)
        ensures
            final(self).spec_coeffs() == trim_zeros(old(self).spec_coeffs()),
    {
        let zero = scalar_zero();
        loop
            invariant
                scalar_val(zero) == 0,
                trim_zeros(self.spec_coeffs()) == trim_zeros(old(self).spec_coeffs()),
            ensures
                trim_zeros(self.spec_coeffs()) == trim_zeros(old(self).spec_coeffs()),
                self.spec_coeffs().len() == 0 || self.spec_coeffs().last() != 0,
            decreases self.coeff@.len(),
        {
            let len = self.coeff.len();
            if len == 0 {
                break;
            }
            proof {
                lemma_mod_small(0);
            }
            if !scalar_eq(&self.coeff[len - 1], &zero) {
                break;
            }
            let ghost before = self.spec_coeffs();
            proof {
                assert(before.last() == 0);
                lemma_trim_step(before);
            }
            self.coeff.pop();
            proof {
                assert(self.spec_coeffs() =~= before.drop_last());
            }
        }
        proof {
            let c = self.spec_coeffs();
            if c.len() > 0 {
                assert(c.last() != 0);
            }
            assert(trim_zeros(c) == c);
        }
    }

    /// Relies on `Debug for Scalar`: generates a non-redacted debug
    /// string. This deliberately leaks the secret coefficients.
    #[verifier::external_body]
    pub fn reveal_value(&self) -> String {
        format!("Poly {{ coeff: {:?} }}", self.coeff)
    }

    /// Overwrites every coefficient with zero.
    pub fn zeroize(&mut self)
        ensures
            forall|i: int| 0 <= i < final(self).spec_coeffs().len()
                ==> #[trigger] final(self).spec_coeffs()[i] == 0,
    {
        let mut i: usize = 0;
        while i < self.coeff.len()
            invariant
                i <= self.coeff@.len(),
                self.coeff@.len() == old(self).coeff@.len(),
                forall|j: int| 0 <= j < i ==> scalar_val(#[trigger] self.coeff@[j]) == 0,
            decreases self.coeff@.len() - i,
        {
            self.coeff[i] = scalar_zero();
            i += 1;
        }
        proof {
            lemma_mod_small(0);
        }
    }
}

/// Overwrites every coefficient with zero when the polynomial goes out of
/// scope.
impl Drop for Poly {
    /// Relies on `Scalar::zero`: every coefficient is overwritten with
    /// zero before the storage is released.
    #[verifier::external_body]
    fn drop(&mut self)
        opens_invariants none
        no_unwind
    {
        for c in self.coeff.iter_mut() {
            *c = Scalar::zero();
        }
    }
}

/// A commitment to a polynomial: each coefficient multiplied by the `G1`
/// generator. Not secret.
#[derive(Clone)]
pub struct Commitment {
    pub(crate) coeff: Vec<G1Projective>,
}

impl Commitment {
    /// The sequence of committed coefficient values, reduced modulo the
    /// group order.
    pub closed spec fn spec_coeffs(&self) -> Seq<nat> {
        Seq::new(self.coeff@.len(), |i: int| g1_val(self.coeff@[i]) % fr_order())
    }

    /// Every committed coefficient value is below the group order.
    pub proof fn lemma_coeffs_bound(&self)
        ensures
            forall|i: int| 0 <= i < self.spec_coeffs().len()
                ==> #[trigger] self.spec_coeffs()[i] < fr_order(),
    {
        assert forall|i: int| 0 <= i < self.spec_coeffs().len()
            implies #[trigger] self.spec_coeffs()[i] < fr_order() by {
            lemma_mod_idempotent(g1_val(self.coeff@[i]));
        }
    }

    /// Returns the degree of the committed polynomial.
    pub fn degree(&self) -> (r: usize)
        ensures
            r == spec_degree(self.spec_coeffs()),
    {
        if self.coeff.len() == 0 {
            0
        } else {
            self.coeff.len() - 1
        }
    }

    /// Returns the committed constant term, the image of the
    /// polynomial's value at zero.
    pub fn first_coeff(&self) -> (r: G1Projective)
        requires
            self.spec_coeffs().len() > 0,
        ensures
            g1_val(r) % fr_order() == self.spec_coeffs()[0],
    {
        self.coeff[0].clone()
    }

    /// Evaluates the commitment at the given point in `G1`, by Horner's
    /// rule: the result is the evaluation of the committed polynomial
    /// times the generator.
    pub fn evaluate<T: IntoFr>(&self, x: T) -> (r: G1Projective)
        ensures
            g1_val(r) % fr_order() == poly_eval(self.spec_coeffs(), x.fr_spec()),
    {
        let xs = x.into_fr();
        let ghost cs = self.spec_coeffs();
        let ghost xv = x.fr_spec();
        let mut acc = g1_identity();
        let mut i: usize = self.coeff.len();
        while i > 0
            invariant
                i <= self.coeff@.len(),
                cs == self.spec_coeffs(),
                cs.len() == self.coeff@.len(),
                scalar_val(xs) == xv,
                g1_val(acc) % fr_order() == poly_eval(cs.subrange(i as int, cs.len() as int),
                    xv),
            decreases i,
        {
            i -= 1;
            let m = g1_mul(&acc, &xs);
            let next = g1_add(&self.coeff[i], &m);
            proof {
                let tail = cs.subrange(i + 1, cs.len() as int);
                let here = cs.subrange(i as int, cs.len() as int);
                assert(here.drop_first() =~= tail);
                assert(here[0] == cs[i as int]);
                lemma_mod_idempotent(g1_val(acc));
                lemma_mul_mod(g1_val(acc), scalar_val(xs));
                lemma_mul_comm(g1_val(acc) % fr_order(), scalar_val(xs));
                lemma_mul_comm(g1_val(acc), scalar_val(xs));
                lemma_add_mod(g1_val(self.coeff@[i as int]),
                    scalar_val(xs) * (g1_val(acc) % fr_order()));
                lemma_add_mod(g1_val(self.coeff@[i as int]) % fr_order(),
                    scalar_val(xs) * (g1_val(acc) % fr_order()));
                lemma_mul_mod(scalar_val(xs), g1_val(acc));
                lemma_add_mod(g1_val(self.coeff@[i as int]) % fr_order(),
                    scalar_val(xs) * g1_val(acc));
                lemma_mod_idempotent(g1_val(next));
            }
            acc = next;
        }
        proof {
            assert(cs.subrange(0, cs.len() as int) =~= cs);
        }
        acc
    }

    /// Adds another commitment, coefficient-wise, and trims trailing
    /// zero entries, mirroring the addition of the committed polynomials.
    pub fn add(&self, other: &Commitment) -> (r: Commitment)
        ensures
            r.spec_coeffs() == trim_zeros(sum_coeffs(self.spec_coeffs(), other.spec_coeffs())),
    {
        let ghost target = sum_coeffs(self.spec_coeffs(), other.spec_coeffs());
        let n = if self.coeff.len() >= other.coeff.len() {
            self.coeff.len()
        } else {
            other.coeff.len()
        };
        let zero = g1_identity();
        let mut coeff: Vec<G1Projective> = Vec::new();
        let mut i: usize = 0;
        while i < n
            invariant
                i <= n,
                n == if self.spec_coeffs().len() >= other.spec_coeffs().len() {
                    self.spec_coeffs().len()
                } else {
                    other.spec_coeffs().len()
                },
                g1_val(zero) == 0,
                target == sum_coeffs(self.spec_coeffs(), other.spec_coeffs()),
                target.len() == n,
                coeff@.len() == i,
                forall|j: int| 0 <= j < i
                    ==> g1_val(#[trigger] coeff@[j]) == target[j],
            decreases n - i,
        {
            let a = if i < self.coeff.len() { &self.coeff[i] } else { &zero };
            let b = if i < other.coeff.len() { &other.coeff[i] } else { &zero };
            let c = g1_add(a, b);
            proof {
                lemma_add_mod(g1_val(*a), g1_val(*b));
                lemma_add_mod(g1_val(*a) % fr_order(), g1_val(*b));
            }
            coeff.push(c);
            i += 1;
        }
        let mut out = Commitment { coeff };
        proof {
            assert(out.spec_coeffs() =~= target) by {
                assert forall|j: int| 0 <= j < n
                    implies out.spec_coeffs()[j] == target[j] by {
                    lemma_mod_idempotent(target[j]);
                }
            }
        }
        out.remove_zeros();
        out
    }

    /// Returns the number of committed coefficients.
    pub fn num_coeffs(&self) -> (r: usize)
        ensures
            r == self.spec_coeffs().len(),
    {
        self.coeff.len()
    }

    /// Returns the compressed encoding of one committed coefficient.
    pub fn coeff_bytes(&self, i: usize) -> (r: [u8; 48])
        requires
            i < self.spec_coeffs().len(),
        ensures
            r@ == crate::groups::g1_compress(self.spec_coeffs()[i as int]),
    {
        crate::groups::g1_to_compressed(&self.coeff[i])
    }

    /// Rebuilds a commitment from the compressed encodings of its
    /// coefficients, rejecting any entry that is not a valid point.
    pub fn from_coeff_bytes(entries: &Vec<[u8; 48]>) -> (r: Result<Commitment, Error>)
        ensures
            r is Ok ==> r->Ok_0.spec_coeffs().len() == entries@.len()
                && forall|i: int| 0 <= i < entries@.len()
                ==> entries@[i]@ == crate::groups::g1_compress(
                #[trigger] r->Ok_0.spec_coeffs()[i]),
            r is Err ==> r->Err_0 == Error::InvalidBytes,
    {
        let mut coeff: Vec<G1Projective> = Vec::new();
        let mut i: usize = 0;
        while i < entries.len()
            invariant
                i <= entries@.len(),
                coeff@.len() == i,
                forall|j: int| 0 <= j < i
                    ==> entries@[j]@ == crate::groups::g1_compress(
                    g1_val(#[trigger] coeff@[j]) % fr_order()),
            decreases entries@.len() - i,
        {
            match crate::groups::g1_from_compressed(&entries[i]) {
                Some(p) => {
                    proof {
                        lemma_mod_small(g1_val(p));
                    }
                    coeff.push(p);
                },
                None => {
                    return Err(Error::InvalidBytes);
                },
            }
            i += 1;
        }
        Ok(Commitment { coeff })
    }

    /// Removes trailing zero entries.
    fn remove_zeros(&mut self)
        ensures
            final(self).spec_coeffs() == trim_zeros(old(self).spec_coeffs()),
    {
        let zero = g1_identity();
        loop
            invariant
                g1_val(zero) == 0,
                trim_zeros(self.spec_coeffs()) == trim_zeros(old(self).spec_coeffs()),
            ensures
                trim_zeros(self.spec_coeffs()) == trim_zeros(old(self).spec_coeffs()),
                self.spec_coeffs().len() == 0 || self.spec_coeffs().last() != 0,
            decreases self.coeff@.len(),
        {
            let len = self.coeff.len();
            if len == 0 {
                break;
            }
            proof {
                lemma_mod_small(0);
            }
            if !g1_eq(&self.coeff[len - 1], &zero) {
                break;
            }
            let ghost before = self.spec_coeffs();
            proof {
                assert(before.last() == 0);
                lemma_trim_step(before);
            }
            self.coeff.pop();
            proof {
                assert(self.spec_coeffs() =~= before.drop_last());
            }
        }
        proof {
            let c = self.spec_coeffs();
            if c.len() > 0 {
                assert(c.last() != 0);
            }
            assert(trim_zeros(c) == c);
        }
    }
}

/// Compares two commitments entry by entry.
pub fn commitments_equal(a: &Commitment, b: &Commitment) -> (r: bool)
    ensures
        r == (a.spec_coeffs() == b.spec_coeffs()),
{
    if a.coeff.len() != b.coeff.len() {
        proof {
            assert(a.spec_coeffs().len() != b.spec_coeffs().len());
            assert(a.spec_coeffs() != b.spec_coeffs());
        }
        return false;
    }
    let mut i: usize = 0;
    while i < a.coeff.len()
        invariant
            a.spec_coeffs().len() == a.coeff@.len(),
            b.spec_coeffs().len() == a.coeff@.len(),
            i <= a.coeff@.len(),
            forall|j: int| 0 <= j < i ==> a.spec_coeffs()[j] == b.spec_coeffs()[j],
        decreases a.coeff@.len() - i,
    {
        if !g1_eq(&a.coeff[i], &b.coeff[i]) {
            proof {
                assert(a.spec_coeffs()[i as int] != b.spec_coeffs()[i as int]);
                assert(a.spec_coeffs() != b.spec_coeffs());
            }
            return false;
        }
        i += 1;
    }
    proof {
        assert(a.spec_coeffs() =~= b.spec_coeffs());
    }
    true
}

/// The convolution sum grows by one full term at each step.
proof fn lemma_conv_sum_step(a: Seq<nat>, b: Seq<nat>, k: int, i: int, ra: nat, rb: nat)
    requires
        0 <= i < a.len(),
        0 <= k - i < b.len(),
        a[i] == ra % fr_order(),
        b[k - i] == rb % fr_order(),
    ensures
        (conv_sum(a, b, k, i) % fr_order() + (ra * rb) % fr_order()) % fr_order()
            == conv_sum(a, b, k, i + 1) % fr_order(),
{
    lemma_mul_mod(ra, rb);
    lemma_add_mod(conv_sum(a, b, k, i), (ra * rb) % fr_order());
    lemma_add_mod(conv_sum(a, b, k, i), ra * rb);
    assert(conv_sum(a, b, k, i + 1) == conv_sum(a, b, k, i) + a[i] * b[k - i]);
    lemma_mul_mod(ra, rb);
    assert(a[i] * b[k - i] == (ra % fr_order()) * (rb % fr_order()));
}

/// The difference stated by `scalar_sub` matches `diff_coeffs` on reduced
/// coefficients.
proof fn lemma_sub_mod_noop(ra: nat, rb: nat)
    ensures
        ((ra + fr_order() - rb) % (fr_order() as int)) as nat
            == ((ra % fr_order() + fr_order() - rb % fr_order()) % (fr_order() as int)) as nat,
{
    let m = fr_order() as int;
    let x: int = ra + m - rb;
    let y: int = (ra % fr_order()) + m - (rb % fr_order());
    vstd::arithmetic::div_mod::lemma_fundamental_div_mod(ra as int, m);
    vstd::arithmetic::div_mod::lemma_fundamental_div_mod(rb as int, m);
    let d = (ra as int) / m - (rb as int) / m;
    assert(x == m * d + y) by {
        vstd::arithmetic::mul::lemma_mul_is_distributive_sub(m, (ra as int) / m,
            (rb as int) / m);
    }
    vstd::arithmetic::div_mod::lemma_mod_multiples_vanish(d, y, m);
    vstd::arithmetic::div_mod::lemma_mod_bound(x, m);
    vstd::arithmetic::div_mod::lemma_mod_bound(y, m);
}

/// The number of stored coefficients of a symmetric bivariate polynomial
/// of the given degree: one for each pair `(i, j)` with `i <= j <= d`.
pub open spec fn tri_len(d: nat) -> nat {
    ((d + 1) * (d + 2)) / 2
}

/// The storage position of the coefficient pair `(i, j)` with
/// `i <= j <= d`: pairs are ordered by `j`, then by `i`.
pub open spec fn tri_pos(i: int, j: int) -> int {
    j * (j + 1) / 2 + i
}

/// The stored coefficient for the (unordered) index pair `(i, j)`: the
/// polynomial is symmetric, so the pair is looked up with the smaller
/// index first.
pub open spec fn bivar_coeff(c: Seq<nat>, i: int, j: int) -> nat {
    if i <= j {
        c[tri_pos(i, j)]
    } else {
        c[tri_pos(j, i)]
    }
}

/// The coefficients of the univariate polynomial `f(x, Y)` in `Y` read
/// off row `x = i`.
pub open spec fn bivar_row_coeffs(c: Seq<nat>, d: nat, i: int) -> Seq<nat> {
    Seq::new(d + 1, |j: int| bivar_coeff(c, i, j))
}

/// The value of the symmetric bivariate polynomial at `(x, y)`: the
/// univariate polynomial in `x` whose `i`-th coefficient is row `i`
/// evaluated at `y`.
pub open spec fn bivar_eval(c: Seq<nat>, d: nat, x: nat, y: nat) -> nat {
    poly_eval(Seq::new(d + 1, |i: int| poly_eval(bivar_row_coeffs(c, d, i), y)), x)
}

/// The storage position of an in-range pair lies within the triangular
/// storage.
pub proof fn lemma_tri_pos_in_range(d: nat, i: int, j: int)
    requires
        0 <= i <= j <= d,
    ensures
        tri_pos(i, j) < tri_len(d),
        0 <= j * (j + 1) / 2,
        tri_pos(i, j) >= 0,
    decreases d,
{
    if j == d {
        assert(d * (d + 1) / 2 + i < ((d + 1) * (d + 2)) / 2) by (nonlinear_arith)
            requires
                0 <= i <= d,
        ;
        assert(0 <= j * (j + 1) / 2) by (nonlinear_arith)
            requires
                j >= 0,
        ;
    } else {
        lemma_tri_pos_in_range((d - 1) as nat, i, j);
        assert(tri_len((d - 1) as nat) <= tri_len(d)) by (nonlinear_arith)
            requires
                d >= 1,
        ;
    }
}

/// The `k`-th power of `x`, over the plain naturals.
pub open spec fn pow_nat(x: nat, k: nat) -> nat
    decreases k,
{
    if k == 0 {
        1
    } else {
        x * pow_nat(x, (k - 1) as nat)
    }
}

/// The power sum `c[0] + c[1] x + ... + c[n-1] x^(n-1)`, over the plain
/// naturals.
pub open spec fn power_sum(c: Seq<nat>, x: nat, n: int) -> nat
    decreases n,
{
    if n <= 0 {
        0
    } else {
        power_sum(c, x, n - 1) + coeff_at(c, n - 1) * pow_nat(x, (n - 1) as nat)
    }
}

/// Horner evaluation equals the plain power sum, reduced.
pub proof fn lemma_poly_eval_is_power_sum(c: Seq<nat>, x: nat)
    ensures
        poly_eval(c, x) == power_sum(c, x, c.len() as int) % fr_order(),
    decreases c.len(),
{
    if c.len() == 0 {
        lemma_mod_small(0);
    } else {
        let t = c.drop_first();
        lemma_poly_eval_is_power_sum(t, x);
        let pst = power_sum(t, x, t.len() as int);
        // poly_eval(c, x) == (c[0] + x * (pst % r)) % r == (c[0] + x * pst) % r
        lemma_mul_mod(x, pst);
        lemma_add_mod(c[0], x * (pst % fr_order()));
        lemma_add_mod(c[0], x * pst);
        lemma_power_sum_unfold_head(c, x, c.len() as int);
    }
}

/// Splitting off the head of a power sum: the constant term plus `x`
/// times the power sum of the tail.
proof fn lemma_power_sum_unfold_head(c: Seq<nat>, x: nat, n: int)
    requires
        1 <= n <= c.len(),
    ensures
        power_sum(c, x, n) == c[0] + x * power_sum(c.drop_first(), x, n - 1),
    decreases n,
{
    let t = c.drop_first();
    if n == 1 {
        assert(power_sum(c, x, 0) == 0);
        assert(pow_nat(x, 0) == 1);
        assert(power_sum(c, x, 1) == 0 + coeff_at(c, 0) * pow_nat(x, 0));
        assert(coeff_at(c, 0) * 1 == c[0])
            by (nonlinear_arith)
            requires
                coeff_at(c, 0) == c[0],
        ;
        assert(power_sum(t, x, 0) == 0);
        assert(x * 0 == 0) by (nonlinear_arith);
    } else {
        lemma_power_sum_unfold_head(c, x, n - 1);
        // c[n-1] * x^(n-1) == x * (t[n-2] * x^(n-2))
        assert(coeff_at(c, n - 1) == coeff_at(t, n - 2));
        assert(coeff_at(c, n - 1) * pow_nat(x, (n - 1) as nat)
            == x * (coeff_at(t, n - 2) * pow_nat(x, (n - 2) as nat))) by {
            assert(pow_nat(x, (n - 1) as nat) == x * pow_nat(x, (n - 2) as nat));
            lemma_mul_is_associative(coeff_at(c, n - 1) as int, x as int,
                pow_nat(x, (n - 2) as nat) as int);
            lemma_mul_is_commutative(coeff_at(c, n - 1) as int, x as int);
            lemma_mul_is_associative(x as int, coeff_at(t, n - 2) as int,
                pow_nat(x, (n - 2) as nat) as int);
        }
        vstd::arithmetic::mul::lemma_mul_is_distributive_add(x as int,
            power_sum(t, x, n - 2) as int,
            (coeff_at(t, n - 2) * pow_nat(x, (n - 2) as nat)) as int);
    }
}

/// Two coefficient sequences that agree modulo the order have power sums
/// that agree modulo the order.
proof fn lemma_power_sum_congruent(a: Seq<nat>, b: Seq<nat>, x: nat, n: int)
    requires
        forall|i: int| 0 <= i < n ==> coeff_at(a, i) % fr_order() == coeff_at(b, i)
            % fr_order(),
    ensures
        power_sum(a, x, n) % fr_order() == power_sum(b, x, n) % fr_order(),
    decreases n,
{
    if n <= 0 {
    } else {
        lemma_power_sum_congruent(a, b, x, n - 1);
        let pa = power_sum(a, x, n - 1);
        let pb = power_sum(b, x, n - 1);
        let p = pow_nat(x, (n - 1) as nat);
        lemma_add_mod(pa, coeff_at(a, n - 1) * p);
        lemma_mul_mod(coeff_at(a, n - 1), p);
        lemma_mul_mod(coeff_at(b, n - 1), p);
        lemma_add_mod(pa % fr_order(), (coeff_at(a, n - 1) * p) % fr_order());
        lemma_add_mod(pb % fr_order(), (coeff_at(b, n - 1) * p) % fr_order());
        lemma_add_mod(pb, coeff_at(b, n - 1) * p);
    }
}

/// A power sum is unchanged by terms beyond positions that hold zero:
/// extending the range over zero coefficients adds nothing.
proof fn lemma_power_sum_pad(c: Seq<nat>, x: nat, m: int, n: int)
    requires
        0 <= m <= n,
        forall|i: int| m <= i < n ==> coeff_at(c, i) == 0,
    ensures
        power_sum(c, x, n) == power_sum(c, x, m),
    decreases n - m,
{
    if m < n {
        lemma_power_sum_pad(c, x, m, n - 1);
        assert(coeff_at(c, n - 1) * pow_nat(x, (n - 1) as nat) == 0) by (nonlinear_arith)
            requires
                coeff_at(c, n - 1) == 0,
        ;
    }
}

/// Two sequences that agree on a range have the same power sum over it.
proof fn lemma_power_sum_same(a: Seq<nat>, b: Seq<nat>, x: nat, n: int)
    requires
        forall|i: int| 0 <= i < n ==> coeff_at(a, i) == coeff_at(b, i),
    ensures
        power_sum(a, x, n) == power_sum(b, x, n),
    decreases n,
{
    if n > 0 {
        lemma_power_sum_same(a, b, x, n - 1);
    }
}

/// The power sum of a coefficient-wise sum splits into the two power
/// sums.
proof fn lemma_power_sum_split(s: Seq<nat>, a: Seq<nat>, b: Seq<nat>, x: nat, n: int)
    requires
        forall|i: int| 0 <= i < n
            ==> coeff_at(s, i) == coeff_at(a, i) + coeff_at(b, i),
    ensures
        power_sum(s, x, n) == power_sum(a, x, n) + power_sum(b, x, n),
    decreases n,
{
    if n > 0 {
        lemma_power_sum_split(s, a, b, x, n - 1);
        vstd::arithmetic::mul::lemma_mul_is_distributive_add_other_way(
            pow_nat(x, (n - 1) as nat) as int, coeff_at(a, n - 1) as int,
            coeff_at(b, n - 1) as int);
    }
}

/// Law: evaluation is linear in the coefficients. The coefficient-wise
/// sum that `Poly::add` and `Commitment::add` produce evaluates to the
/// sum of the two evaluations, at every point.
pub proof fn lemma_eval_of_sum(a: Seq<nat>, b: Seq<nat>, x: nat)
    ensures
        poly_eval(sum_coeffs(a, b), x)
            == (poly_eval(a, x) + poly_eval(b, x)) % fr_order(),
{
    let s = sum_coeffs(a, b);
    let n = s.len() as int;
    let u = Seq::new(s.len(), |i: int| coeff_at(a, i) + coeff_at(b, i));
    lemma_poly_eval_is_power_sum(s, x);
    assert forall|i: int| 0 <= i < n
        implies coeff_at(s, i) % fr_order() == coeff_at(u, i) % fr_order() by {
        lemma_mod_idempotent(coeff_at(a, i) + coeff_at(b, i));
    }
    lemma_power_sum_congruent(s, u, x, n);
    lemma_power_sum_split(u, a, b, x, n);
    lemma_power_sum_pad(a, x, if a.len() <= n { a.len() as int } else { n }, n);
    lemma_power_sum_pad(b, x, if b.len() <= n { b.len() as int } else { n }, n);
    lemma_poly_eval_is_power_sum(a, x);
    lemma_poly_eval_is_power_sum(b, x);
    lemma_add_mod(power_sum(a, x, a.len() as int), power_sum(b, x, b.len() as int));
    lemma_add_mod(power_sum(a, x, a.len() as int) % fr_order(),
        power_sum(b, x, b.len() as int));
}

/// Law: trimming trailing zero coefficients does not change what the
/// polynomial evaluates to, at any point: normalization is sound.
pub proof fn lemma_trim_preserves_eval(c: Seq<nat>, x: nat)
    ensures
        poly_eval(trim_zeros(c), x) == poly_eval(c, x),
    decreases c.len(),
{
    if c.len() > 0 && c.last() == 0 {
        lemma_trim_preserves_eval(c.drop_last(), x);
        let t = c.drop_last();
        lemma_poly_eval_is_power_sum(c, x);
        lemma_poly_eval_is_power_sum(t, x);
        lemma_power_sum_same(c, t, x, t.len() as int);
        lemma_power_sum_pad(c, x, t.len() as int, c.len() as int);
    }
}

/// Law: subtraction undoes addition of the same polynomial, in value:
/// the difference that `Poly::sub` produces evaluates so that adding the
/// subtrahend's value back gives the minuend's value.
pub proof fn lemma_eval_of_diff(a: Seq<nat>, b: Seq<nat>, x: nat)
    ensures
        (poly_eval(diff_coeffs(a, b), x) + poly_eval(b, x)) % fr_order()
            == poly_eval(a, x),
{
    let d = diff_coeffs(a, b);
    let s = sum_coeffs(d, b);
    lemma_eval_of_sum(d, b, x);
    // the coefficient-wise sum of the difference and the subtrahend is
    // congruent to the minuend, entry by entry
    let n = s.len() as int;
    assert forall|i: int| 0 <= i < n
        implies coeff_at(s, i) % fr_order() == coeff_at(a, i) % fr_order() by {
        let ai = coeff_at(a, i);
        let bi = coeff_at(b, i);
        let di = ((ai + fr_order() - bi) % (fr_order() as int)) as nat;
        assert(coeff_at(d, i) == di);
        assert((di + bi) % fr_order() == ai % fr_order()) by {
            lemma_add_mod_int(ai, bi);
        }
        lemma_mod_idempotent(di + bi);
    }
    lemma_poly_eval_is_power_sum(s, x);
    lemma_poly_eval_is_power_sum(a, x);
    let u = Seq::new(s.len(), |i: int| coeff_at(a, i));
    lemma_power_sum_congruent(s, u, x, n);
    lemma_power_sum_same(u, a, x, if a.len() <= n { a.len() as int } else { n });
    assert(a.len() <= n) by {
        assert(d.len() >= a.len());
        assert(s.len() >= d.len());
    }
    lemma_power_sum_pad(u, x, a.len() as int, n);
    lemma_poly_eval_is_power_sum(d, x);
    lemma_poly_eval_is_power_sum(b, x);
    lemma_mod_idempotent(power_sum(a, x, a.len() as int));
}

/// Adding back what was subtracted returns the original residue.
proof fn lemma_add_mod_int(ai: nat, bi: nat)
    ensures
        (((ai + fr_order() - bi) % (fr_order() as int)) as nat + bi) % fr_order()
            == ai % fr_order(),
{
    let m = fr_order() as int;
    let di = (ai + m - bi) % m;
    vstd::arithmetic::div_mod::lemma_mod_bound(ai + m - bi, m);
    lemma_add_mod(di as nat, bi);
    assert((di + bi) % m == (ai + m - bi + bi) % m) by {
        vstd::arithmetic::div_mod::lemma_add_mod_noop(ai + m - bi, bi as int, m);
        vstd::arithmetic::div_mod::lemma_mod_twice(ai + m - bi, m);
        lemma_mod_idempotent(bi);
        lemma_add_mod(((ai + m - bi) % m) as nat, bi % fr_order());
        lemma_add_mod(((ai + m - bi) % m) as nat, bi);
    }
    assert((ai + m) % m == ai as int % m) by {
        vstd::arithmetic::div_mod::lemma_mod_multiples_vanish(1, ai as int, m);
    }
}

/// The coefficients of the polynomial scaled by a constant.
pub open spec fn scale_coeffs(s: nat, c: Seq<nat>) -> Seq<nat> {
    Seq::new(c.len(), |k: int| (s * c[k]) % fr_order())
}

/// The coefficients of `(a - X) * g`, with the subtracted term carried
/// as `(r - 1) X` modulo the order.
pub open spec fn lin_mul(a: nat, g: Seq<nat>) -> Seq<nat> {
    Seq::new(g.len() + 1,
        |k: int| (a * coeff_at(g, k) + ((fr_order() - 1) as nat) * coeff_at(g, k - 1)) % fr_order())
}

/// A power sum with each coefficient scaled is the scaled power sum.
proof fn lemma_power_sum_scaled(u: Seq<nat>, g: Seq<nat>, s: nat, x: nat, n: int)
    requires
        forall|k: int| 0 <= k < n ==> coeff_at(u, k) == s * coeff_at(g, k),
    ensures
        power_sum(u, x, n) == s * power_sum(g, x, n),
    decreases n,
{
    if n <= 0 {
        assert(s * 0 == 0) by (nonlinear_arith);
    } else {
        lemma_power_sum_scaled(u, g, s, x, n - 1);
        let pw = pow_nat(x, (n - 1) as nat);
        assert((s * coeff_at(g, n - 1)) * pw == s * (coeff_at(g, n - 1) * pw)) by {
            vstd::arithmetic::mul::lemma_mul_is_associative(s as int,
                coeff_at(g, n - 1) as int, pw as int);
        }
        vstd::arithmetic::mul::lemma_mul_is_distributive_add(s as int,
            power_sum(g, x, n - 1) as int, (coeff_at(g, n - 1) * pw) as int);
    }
}

/// A power sum with each coefficient shifted up one degree gains a
/// factor of the point.
proof fn lemma_power_sum_shifted(v: Seq<nat>, g: Seq<nat>, x: nat, n: int)
    requires
        coeff_at(v, 0) == 0,
        forall|k: int| 1 <= k < n + 1 ==> coeff_at(v, k) == coeff_at(g, k - 1),
    ensures
        power_sum(v, x, n + 1) == x * power_sum(g, x, n),
    decreases n,
{
    if n <= 0 {
        assert(power_sum(v, x, 1) == power_sum(v, x, 0) + coeff_at(v, 0) * pow_nat(x, 0));
        assert(coeff_at(v, 0) * pow_nat(x, 0) == 0) by (nonlinear_arith)
            requires
                coeff_at(v, 0) == 0,
        ;
        assert(x * 0 == 0) by (nonlinear_arith);
    } else {
        lemma_power_sum_shifted(v, g, x, n - 1);
        let pw = pow_nat(x, (n - 1) as nat);
        assert(coeff_at(v, n) * pow_nat(x, n as nat) == x * (coeff_at(g, n - 1) * pw)) by {
            assert(pow_nat(x, n as nat) == x * pw);
            vstd::arithmetic::mul::lemma_mul_is_associative(coeff_at(v, n) as int, x as int,
                pw as int);
            vstd::arithmetic::mul::lemma_mul_is_commutative(coeff_at(v, n) as int, x as int);
            vstd::arithmetic::mul::lemma_mul_is_associative(x as int,
                coeff_at(g, n - 1) as int, pw as int);
        }
        vstd::arithmetic::mul::lemma_mul_is_distributive_add(x as int,
            power_sum(g, x, n - 1) as int, (coeff_at(g, n - 1) * pw) as int);
    }
}

/// Adding congruent terms under the same modulus keeps the congruence.
proof fn lemma_mod_add_cancel(a: nat, b: nat, y: nat)
    requires
        (a + y) % fr_order() == (b + y) % fr_order(),
    ensures
        a % fr_order() == b % fr_order(),
{
    let m = fr_order() as int;
    vstd::arithmetic::div_mod::lemma_fundamental_div_mod(a + y as int, m);
    vstd::arithmetic::div_mod::lemma_fundamental_div_mod(b + y as int, m);
    let qa = (a + y) as int / m;
    let qb = (b + y) as int / m;
    // a - b == m * (qa - qb), so the residues agree
    assert(a == m * (qa - qb) + b) by {
        vstd::arithmetic::mul::lemma_mul_is_distributive_sub(m, qa, qb);
    }
    vstd::arithmetic::div_mod::lemma_mod_multiples_vanish(qa - qb, b as int, m);
}

/// Evaluating the polynomial scaled by a constant scales the value.
pub proof fn lemma_eval_of_scale(s: nat, c: Seq<nat>, y: nat)
    ensures
        poly_eval(scale_coeffs(s, c), y) == (s * poly_eval(c, y)) % fr_order(),
{
    let m = fr_order();
    let u = scale_coeffs(s, c);
    let w = Seq::new(c.len(), |k: int| s * c[k]);
    let n = c.len() as int;
    lemma_poly_eval_is_power_sum(u, y);
    assert forall|k: int| 0 <= k < n
        implies coeff_at(u, k) % m == coeff_at(w, k) % m by {
        lemma_mod_idempotent(s * c[k]);
    }
    lemma_power_sum_congruent(u, w, y, n);
    lemma_power_sum_scaled(w, c, s, y, n);
    lemma_poly_eval_is_power_sum(c, y);
    lemma_cong_mul(power_sum(c, y, n), poly_eval(c, y), s);
    lemma_mul_comm(power_sum(c, y, n), s);
    lemma_mul_comm(poly_eval(c, y), s);
}

/// Evaluating the product with a linear factor multiplies the value by
/// the factor's value: `(a - y) * g(y)`.
pub proof fn lemma_eval_of_lin_mul(a: nat, g: Seq<nat>, y: nat)
    ensures
        poly_eval(lin_mul(a, g), y)
            == (crate::interpolate::sub_mod(a % fr_order(), y % fr_order())
            * poly_eval(g, y)) % fr_order(),
{
    let m = fr_order();
    let c = lin_mul(a, g);
    let n = g.len() as int;
    // split the unreduced coefficients into the scaled part and the
    // shifted part
    let r1 = (m - 1) as nat;
    let w = Seq::new(c.len(), |k: int| a * coeff_at(g, k) + r1 * coeff_at(g, k - 1));
    let u = Seq::new(c.len(), |k: int| a * coeff_at(g, k));
    let v = Seq::new(c.len(), |k: int| r1 * (coeff_at(g, k - 1)));
    lemma_poly_eval_is_power_sum(c, y);
    assert forall|k: int| 0 <= k < n + 1
        implies coeff_at(c, k) % m == coeff_at(w, k) % m by {
        lemma_mod_idempotent(a * coeff_at(g, k) + r1 * coeff_at(g, k - 1));
    }
    lemma_power_sum_congruent(c, w, y, n + 1);
    lemma_power_sum_split(w, u, v, y, n + 1);
    lemma_power_sum_scaled(u, g, a, y, n + 1);
    lemma_power_sum_pad(g, y, n, n + 1);
    // the shifted part: (r - 1) g_(k-1), which is (r - 1) y PS(g)
    let gshift = Seq::new(c.len(), |k: int| coeff_at(g, k - 1));
    assert forall|k: int| 0 <= k < n + 1
        implies coeff_at(v, k) == r1 * coeff_at(gshift, k) by {
        if k == 0 {
            assert(coeff_at(gshift, 0) == 0);
        }
    }
    lemma_power_sum_scaled(v, gshift, r1, y, n + 1);
    assert(coeff_at(gshift, 0) == 0);
    lemma_power_sum_shifted(gshift, g, y, n);
    // assemble: PS(c) == a PS(g) + (r - 1) y PS(g) == (a + (r - 1) y) PS(g)
    let ps = power_sum(g, y, n);
    assert(power_sum(w, y, n + 1) == a * ps + r1 * (y * ps));
    assert(r1 * (y * ps) == (r1 * y) * ps) by {
        vstd::arithmetic::mul::lemma_mul_is_associative(r1 as int, y as int, ps as int);
    }
    assert(a * ps + (r1 * y) * ps == (a + r1 * y) * ps) by {
        vstd::arithmetic::mul::lemma_mul_is_distributive_add_other_way(ps as int, a as int,
            (r1 * y) as int);
    }
    // the factor's residue is the modular difference a - y
    let s = crate::interpolate::sub_mod(a % m, y % m);
    assert((a + r1 * y) % m == s % m) by {
        // both sides plus y are congruent to a
        assert((a + r1 * y + y) % m == a % m) by {
            assert(a + r1 * y + y == a + m * y) by {
                vstd::arithmetic::mul::lemma_mul_is_distributive_add_other_way(y as int,
                    r1 as int, 1int);
            }
            vstd::arithmetic::div_mod::lemma_mod_multiples_vanish(y as int, a as int,
                m as int);
            lemma_mul_comm(m, y);
        }
        assert((s + y) % m == a % m) by {
            lemma_sub_then_add(a, y);
            lemma_add_mod(s, y);
            lemma_add_mod(s, y % m);
            lemma_mod_idempotent(a);
        }
        lemma_mod_add_cancel((a + r1 * y) as nat, s, y);
    }
    lemma_mod_idempotent(s);
    // reduce both factors of the product
    lemma_cong_mul((a + r1 * y) as nat, s, ps);
    lemma_mul_comm((a + r1 * y) as nat, ps);
    lemma_mul_comm(s, ps);
    lemma_poly_eval_is_power_sum(g, y);
    lemma_cong_mul(ps, poly_eval(g, y), s);
    lemma_mul_comm(ps, s);
    lemma_mul_comm(poly_eval(g, y), s);
}

/// Multiplies a coefficient vector by the linear factor `(a - X)`.
fn lin_mul_vec(a: &Scalar, g: &Vec<Scalar>) -> (r: Vec<Scalar>)
    requires
        g@.len() < usize::MAX,
    ensures
        vec_view(r@) == lin_mul(scalar_val(*a) % fr_order(), vec_view(g@)),
{
    let ghost gv = vec_view(g@);
    let ghost ar = scalar_val(*a) % fr_order();
    let ghost target = lin_mul(ar, gv);
    let zero = scalar_zero();
    let one = scalar_one();
    let r1 = scalar_sub(&zero, &one);
    proof {
        // r1 carries the value of minus one, the order less one
        lemma_mod_small((fr_order() - 1) as nat);
        assert(scalar_val(r1) == (fr_order() - 1) as nat);
    }
    let len = g.len();
    let mut out: Vec<Scalar> = Vec::new();
    let mut k: usize = 0;
    while k < len
        invariant
            scalar_val(r1) == (fr_order() - 1) as nat,
            gv == vec_view(g@),
            gv.len() == g@.len(),
            g@.len() == len,
            ar == scalar_val(*a) % fr_order(),
            target == lin_mul(ar, gv),
            target.len() == len + 1,
            k <= len,
            out@.len() == k,
            forall|j: int| 0 <= j < k ==> scalar_val(#[trigger] out@[j]) == target[j],
        decreases len - k,
    {
        let t1 = scalar_mul(a, &g[k]);
        let e = if k == 0 {
            t1
        } else {
            let t2 = scalar_mul(&r1, &g[k - 1]);
            scalar_add(&t1, &t2)
        };
        proof {
            let r1v = (fr_order() - 1) as nat;
            assert(gv[k as int] == scalar_val(g@[k as int]) % fr_order());
            assert(coeff_at(gv, k as int) == gv[k as int]);
            lemma_mul_mod(scalar_val(*a), scalar_val(g@[k as int]));
            lemma_mul_mod(ar, scalar_val(g@[k as int]));
            assert(scalar_val(t1) == (ar * coeff_at(gv, k as int)) % fr_order());
            if k == 0 {
                assert(coeff_at(gv, -1) == 0);
                assert(r1v * 0 == 0) by (nonlinear_arith);
                lemma_mod_idempotent(ar * coeff_at(gv, 0));
                assert(target[0] == (ar * coeff_at(gv, 0) + 0) % fr_order());
            } else {
                assert(gv[k - 1] == scalar_val(g@[k - 1]) % fr_order());
                assert(coeff_at(gv, k - 1) == gv[k - 1]);
                lemma_mul_mod(scalar_val(g@[k - 1]), r1v);
                lemma_mul_comm(r1v, scalar_val(g@[k - 1]));
                lemma_mul_comm(r1v, coeff_at(gv, k - 1));
                lemma_mul_comm(r1v, scalar_val(g@[k - 1]) % fr_order());
                assert((r1v * scalar_val(g@[k - 1])) % fr_order() == (r1v * coeff_at(gv, k - 1)) % fr_order());
                lemma_add_mod(ar * coeff_at(gv, k as int), r1v * coeff_at(gv, k - 1));
                lemma_add_mod((ar * coeff_at(gv, k as int)) % fr_order(),
                    r1v * coeff_at(gv, k - 1));
                lemma_add_mod((ar * coeff_at(gv, k as int)) % fr_order(),
                    (r1v * coeff_at(gv, k - 1)) % fr_order());
            }
        }
        out.push(e);
        k += 1;
    }
    if len == 0 {
        out.push(zero);
        proof {
            assert(coeff_at(gv, 0) == 0);
            assert(coeff_at(gv, -1) == 0);
            assert(ar * 0 == 0) by (nonlinear_arith);
            assert(((fr_order() - 1) as nat) * 0 == 0) by (nonlinear_arith);
            lemma_mod_small(0);
            assert(vec_view(out@) =~= target);
        }
    } else {
        let t2 = scalar_mul(&r1, &g[len - 1]);
        out.push(t2);
        proof {
            let r1v = (fr_order() - 1) as nat;
            assert(coeff_at(gv, len as int) == 0);
            assert(ar * 0 == 0) by (nonlinear_arith);
            assert(gv[len - 1] == scalar_val(g@[len - 1]) % fr_order());
            assert(coeff_at(gv, len - 1) == gv[len - 1]);
            lemma_mul_mod(scalar_val(g@[len - 1]), r1v);
            lemma_mul_comm(r1v, scalar_val(g@[len - 1]));
            lemma_mul_comm(r1v, coeff_at(gv, len - 1));
            lemma_mul_comm(r1v, scalar_val(g@[len - 1]) % fr_order());
            lemma_mod_idempotent(r1v * coeff_at(gv, len - 1));
            assert(scalar_val(t2) == target[len as int]);
            assert(vec_view(out@) =~= target);
        }
    }
    out
}

/// Scales a coefficient vector by a constant.
fn scale_vec(s: &Scalar, g: &Vec<Scalar>) -> (r: Vec<Scalar>)
    ensures
        vec_view(r@) == scale_coeffs(scalar_val(*s), vec_view(g@)),
{
    let ghost gv = vec_view(g@);
    let ghost target = scale_coeffs(scalar_val(*s), gv);
    let mut out: Vec<Scalar> = Vec::new();
    let mut k: usize = 0;
    while k < g.len()
        invariant
            gv == vec_view(g@),
            gv.len() == g@.len(),
            target == scale_coeffs(scalar_val(*s), gv),
            target.len() == g@.len(),
            k <= g@.len(),
            out@.len() == k,
            forall|j: int| 0 <= j < k ==> scalar_val(#[trigger] out@[j]) == target[j],
        decreases g@.len() - k,
    {
        let e = scalar_mul(s, &g[k]);
        proof {
            lemma_mul_mod(scalar_val(g@[k as int]), scalar_val(*s));
            lemma_mul_comm(scalar_val(*s), scalar_val(g@[k as int]));
            lemma_mul_comm(scalar_val(*s), gv[k as int]);
        }
        out.push(e);
        k += 1;
    }
    proof {
        assert(vec_view(out@) =~= target);
    }
    out
}

/// Adds two coefficient vectors entry by entry, padded to the longer
/// one, without trimming.
fn add_vecs(a: &Vec<Scalar>, b: &Vec<Scalar>) -> (r: Vec<Scalar>)
    ensures
        vec_view(r@) == sum_coeffs(vec_view(a@), vec_view(b@)),
{
    let ghost target = sum_coeffs(vec_view(a@), vec_view(b@));
    let n = if a.len() >= b.len() {
        a.len()
    } else {
        b.len()
    };
    let zero = scalar_zero();
    let mut out: Vec<Scalar> = Vec::new();
    let mut i: usize = 0;
    while i < n
        invariant
            i <= n,
            n == if vec_view(a@).len() >= vec_view(b@).len() {
                vec_view(a@).len()
            } else {
                vec_view(b@).len()
            },
            scalar_val(zero) == 0,
            target == sum_coeffs(vec_view(a@), vec_view(b@)),
            target.len() == n,
            out@.len() == i,
            forall|j: int| 0 <= j < i ==> scalar_val(#[trigger] out@[j]) == target[j],
        decreases n - i,
    {
        let x = if i < a.len() { &a[i] } else { &zero };
        let y = if i < b.len() { &b[i] } else { &zero };
        let e = scalar_add(x, y);
        proof {
            lemma_add_mod(scalar_val(*x), scalar_val(*y));
            lemma_add_mod(scalar_val(*x) % fr_order(), scalar_val(*y));
        }
        out.push(e);
        i += 1;
    }
    proof {
        assert(vec_view(out@) =~= target) by {
            assert forall|j: int| 0 <= j < n
                implies vec_view(out@)[j] == target[j] by {
                lemma_mod_idempotent(target[j]);
            }
        }
    }
    out
}

/// The sum of the terms `bc(i, j) x^i y^j` over `j < n`, for a fixed `i`.
pub open spec fn bivar_row_term(c: Seq<nat>, x: nat, y: nat, i: int, n: int) -> nat
    decreases n,
{
    if n <= 0 {
        0
    } else {
        bivar_row_term(c, x, y, i, n - 1)
            + bivar_coeff(c, i, n - 1) * (pow_nat(x, i as nat) * pow_nat(y, (n - 1) as nat))
    }
}

/// The full grid sum of `bc(i, j) x^i y^j` over `i < m`, `j < n`.
pub open spec fn bivar_grid(c: Seq<nat>, x: nat, y: nat, m: int, n: int) -> nat
    decreases m,
{
    if m <= 0 {
        0
    } else {
        bivar_grid(c, x, y, m - 1, n) + bivar_row_term(c, x, y, m - 1, n)
    }
}

/// A row term is the row's power sum in `y`, scaled by `x^i`.
proof fn lemma_row_term_factored(c: Seq<nat>, d: nat, x: nat, y: nat, i: int, n: int)
    requires
        0 <= i,
        n <= d + 1,
    ensures
        bivar_row_term(c, x, y, i, n)
            == pow_nat(x, i as nat) * power_sum(bivar_row_coeffs(c, d, i), y, n),
    decreases n,
{
    let px = pow_nat(x, i as nat);
    if n <= 0 {
        assert(px * 0 == 0) by (nonlinear_arith);
    } else {
        lemma_row_term_factored(c, d, x, y, i, n - 1);
        let row = bivar_row_coeffs(c, d, i);
        let py = pow_nat(y, (n - 1) as nat);
        let b = coeff_at(row, n - 1);
        assert(b == bivar_coeff(c, i, n - 1));
        // px * (ps + b * py) == px * ps + b * (px * py)
        vstd::arithmetic::mul::lemma_mul_is_distributive_add(px as int,
            power_sum(row, y, n - 1) as int, (b * py) as int);
        lemma_mul_is_associative(px as int, b as int, py as int);
        lemma_mul_is_commutative(px as int, b as int);
        lemma_mul_is_associative(b as int, px as int, py as int);
    }
}

/// Peeling the last column off the grid: the grid over `j < n` is the
/// grid over `j < n - 1` plus the `n - 1`-st row term of the transposed
/// orientation.
proof fn lemma_grid_peel_column(c: Seq<nat>, x: nat, y: nat, m: int, n: int)
    requires
        1 <= n,
    ensures
        bivar_grid(c, x, y, m, n)
            == bivar_grid(c, x, y, m, n - 1) + bivar_row_term(c, y, x, n - 1, m),
    decreases m,
{
    if m <= 0 {
    } else {
        lemma_grid_peel_column(c, x, y, m - 1, n);
        // the (m-1)-st row's last term matches the transposed row term's
        // (m-1)-st entry
        let bc = bivar_coeff(c, m - 1, n - 1);
        assert(bivar_coeff(c, n - 1, m - 1) == bc);
        let px = pow_nat(x, (m - 1) as nat);
        let py = pow_nat(y, (n - 1) as nat);
        assert(bc * (px * py) == bc * (py * px)) by {
            lemma_mul_is_commutative(px as int, py as int);
        }
    }
}

/// The grid sum is symmetric: summing `bc(i, j) x^i y^j` over the grid
/// equals summing `bc(i, j) y^i x^j`, because the coefficients are
/// looked up symmetrically.
proof fn lemma_grid_symmetric(c: Seq<nat>, x: nat, y: nat, m: int, n: int)
    ensures
        bivar_grid(c, x, y, m, n) == bivar_grid(c, y, x, n, m),
    decreases n,
{
    if n <= 0 {
        lemma_grid_of_empty_rows(c, x, y, m, n);
    } else {
        lemma_grid_symmetric(c, x, y, m, n - 1);
        lemma_grid_peel_column(c, x, y, m, n);
        assert(bivar_grid(c, x, y, m, n)
            == bivar_grid(c, x, y, m, n - 1) + bivar_row_term(c, y, x, n - 1, m));
        assert(bivar_grid(c, x, y, m, n - 1) == bivar_grid(c, y, x, n - 1, m));
        assert(bivar_grid(c, y, x, n, m)
            == bivar_grid(c, y, x, n - 1, m) + bivar_row_term(c, y, x, n - 1, m));
    }
}

/// A grid whose rows are empty sums to zero.
proof fn lemma_grid_of_empty_rows(c: Seq<nat>, x: nat, y: nat, m: int, n: int)
    requires
        n <= 0,
    ensures
        bivar_grid(c, x, y, m, n) == 0,
    decreases m,
{
    if m <= 0 {
    } else {
        lemma_grid_of_empty_rows(c, x, y, m - 1, n);
    }
}

/// The outer power sum of the row power sums equals the grid sum.
proof fn lemma_outer_sum_is_grid(c: Seq<nat>, d: nat, x: nat, y: nat, m: int)
    requires
        m <= d + 1,
    ensures
        power_sum(Seq::new(d + 1, |i: int| power_sum(bivar_row_coeffs(c, d, i), y, d as int + 1)),
            x, m) == bivar_grid(c, x, y, m, d as int + 1),
    decreases m,
{
    if m <= 0 {
    } else {
        lemma_outer_sum_is_grid(c, d, x, y, m - 1);
        let outer = Seq::new(d + 1, |i: int| power_sum(bivar_row_coeffs(c, d, i), y, d as int + 1));
        assert(coeff_at(outer, m - 1) == power_sum(bivar_row_coeffs(c, d, m - 1), y, d as int + 1));
        lemma_row_term_factored(c, d, x, y, m - 1, d as int + 1);
        lemma_mul_is_commutative(coeff_at(outer, m - 1) as int,
            pow_nat(x, (m - 1) as nat) as int);
    }
}

/// Law: a symmetric bivariate polynomial takes the same value at `(x, y)`
/// and `(y, x)`: the coefficient for each index pair is stored once and
/// looked up symmetrically, so the two double sums are rearrangements of
/// one another.
pub proof fn lemma_bivar_eval_symmetric(c: Seq<nat>, d: nat, x: nat, y: nat)
    ensures
        bivar_eval(c, d, x, y) == bivar_eval(c, d, y, x),
{
    let outer_xy = Seq::new(d + 1, |i: int| poly_eval(bivar_row_coeffs(c, d, i), y));
    let outer_yx = Seq::new(d + 1, |i: int| poly_eval(bivar_row_coeffs(c, d, i), x));
    let plain_xy = Seq::new(d + 1, |i: int| power_sum(bivar_row_coeffs(c, d, i), y, d as int + 1));
    let plain_yx = Seq::new(d + 1, |i: int| power_sum(bivar_row_coeffs(c, d, i), x, d as int + 1));
    // each reduced outer coefficient agrees with the plain row power sum
    assert forall|i: int| 0 <= i < d + 1
        implies coeff_at(outer_xy, i) % fr_order() == coeff_at(plain_xy, i) % fr_order() by {
        let row = bivar_row_coeffs(c, d, i);
        lemma_poly_eval_is_power_sum(row, y);
        crate::arith::lemma_mod_idempotent(power_sum(row, y, d as int + 1));
        assert(row.len() == d + 1);
    }
    assert forall|i: int| 0 <= i < d + 1
        implies coeff_at(outer_yx, i) % fr_order() == coeff_at(plain_yx, i) % fr_order() by {
        let row = bivar_row_coeffs(c, d, i);
        lemma_poly_eval_is_power_sum(row, x);
        crate::arith::lemma_mod_idempotent(power_sum(row, x, d as int + 1));
        assert(row.len() == d + 1);
    }
    // Horner over the reduced outer coefficients is the reduced grid sum
    lemma_poly_eval_is_power_sum(outer_xy, x);
    lemma_power_sum_congruent(outer_xy, plain_xy, x, d as int + 1);
    lemma_outer_sum_is_grid(c, d, x, y, d as int + 1);
    lemma_poly_eval_is_power_sum(outer_yx, y);
    lemma_power_sum_congruent(outer_yx, plain_yx, y, d as int + 1);
    lemma_outer_sum_is_grid(c, d, y, x, d as int + 1);
    // and the grid sum is symmetric
    lemma_grid_symmetric(c, x, y, d as int + 1, d as int + 1);
    assert(outer_xy.len() == d + 1);
    assert(outer_yx.len() == d + 1);
}

/// The triangular storage has room for at least one full row.
pub proof fn lemma_tri_len_ge(d: nat)
    ensures
        tri_len(d) >= d + 1,
{
    assert(((d + 1) * (d + 2)) / 2 >= d + 1) by (nonlinear_arith);
}

/// A symmetric bivariate polynomial over `F_r`, for dealing key shares in
/// a distributed key generation: the coefficients `a_{ij}` of total
/// degree `d` with `a_{ij} = a_{ji}`, stored once per unordered pair.
/// Secret, like `Poly`.
pub struct BivarPoly {
    pub(crate) degree: usize,
    pub(crate) coeff: Vec<Scalar>,
}

impl BivarPoly {
    /// The sequence of stored coefficient values, reduced modulo the
    /// field order.
    pub closed spec fn spec_coeffs(&self) -> Seq<nat> {
        Seq::new(self.coeff@.len(), |i: int| scalar_val(self.coeff@[i]) % fr_order())
    }

    /// The degree of the polynomial.
    pub closed spec fn spec_degree(&self) -> nat {
        self.degree as nat
    }

    /// Well-formedness: the storage holds exactly one coefficient per
    /// unordered index pair.
    pub open spec fn wf(&self) -> bool {
        self.spec_coeffs().len() == tri_len(self.spec_degree())
    }

    /// Returns a random symmetric bivariate polynomial of the given
    /// degree. The degree must leave room for the triangular coefficient
    /// storage.
    pub fn random<R: rand::RngCore>(degree: usize, rng: &mut R) -> (r: BivarPoly)
        requires
            tri_len(degree as nat) <= usize::MAX,
        ensures
            r.wf(),
            r.spec_degree() == degree,
    {
        let n128 = (degree as u128 + 1) * (degree as u128 + 2) / 2;
        proof {
            assert(n128 == tri_len(degree as nat));
        }
        let n = n128 as usize;
        let mut coeff: Vec<Scalar> = Vec::new();
        while coeff.len() < n
            invariant
                coeff@.len() <= n,
            decreases n - coeff@.len(),
        {
            coeff.push(scalar_random(rng));
        }
        BivarPoly { degree, coeff }
    }

    /// Returns the polynomial's degree.
    pub fn degree(&self) -> (r: usize)
        ensures
            r == self.spec_degree(),
    {
        self.degree
    }

    /// Returns the number of rows, `degree + 1`, which the triangular
    /// storage shows to fit the platform.
    fn dim(&self) -> (r: usize)
        requires
            self.wf(),
        ensures
            r == self.spec_degree() + 1,
    {
        let n = self.coeff.len();
        proof {
            lemma_tri_len_ge(self.spec_degree());
        }
        self.degree + 1
    }

    /// Looks up the stored coefficient for the unordered pair `(i, j)`.
    fn coeff_entry(&self, i: usize, j: usize) -> (r: &Scalar)
        requires
            self.wf(),
            i <= self.spec_degree(),
            j <= self.spec_degree(),
        ensures
            scalar_val(*r) % fr_order() == bivar_coeff(self.spec_coeffs(), i as int, j as int),
    {
        let (lo, hi) = if i <= j {
            (i, j)
        } else {
            (j, i)
        };
        let total = self.coeff.len();
        proof {
            lemma_tri_pos_in_range(self.spec_degree(), lo as int, hi as int);
        }
        let h = hi as u128;
        proof {
            assert(h * (h + 1) <= 0xffff_ffff_ffff_ffffu128 * 0x1_0000_0000_0000_0000u128)
                by (nonlinear_arith)
                requires
                    h <= 0xffff_ffff_ffff_ffffu128,
            ;
        }
        let pos128 = h * (h + 1) / 2 + lo as u128;
        proof {
            assert(pos128 == tri_pos(lo as int, hi as int));
        }
        let pos = pos128 as usize;
        &self.coeff[pos]
    }

    /// Evaluates the polynomial at `(x, y)`. The lookup is symmetric, so
    /// the result at `(y, x)` is the same.
    pub fn evaluate<T: IntoFr>(&self, x: T, y: T) -> (r: Scalar)
        requires
            self.wf(),
        ensures
            scalar_val(r) == bivar_eval(self.spec_coeffs(), self.spec_degree(), x.fr_spec(),
                y.fr_spec()),
    {
        let xs = x.into_fr();
        let ys = y.into_fr();
        let ghost cs = self.spec_coeffs();
        let ghost d = self.spec_degree();
        let ghost xv = x.fr_spec();
        let ghost yv = y.fr_spec();
        let ghost outer = Seq::new(d + 1, |i: int| poly_eval(bivar_row_coeffs(cs, d, i), yv));
        let mut acc = scalar_zero();
        let mut i: usize = self.dim();
        while i > 0
            invariant
                self.wf(),
                cs == self.spec_coeffs(),
                d == self.spec_degree(),
                d + 1 <= usize::MAX,
                scalar_val(xs) == xv,
                scalar_val(ys) == yv,
                outer == Seq::new(d + 1, |k: int| poly_eval(bivar_row_coeffs(cs, d, k), yv)),
                i <= d + 1,
                scalar_val(acc) == poly_eval(outer.subrange(i as int, outer.len() as int), xv),
            decreases i,
        {
            i -= 1;
            let row_val = self.row_value(i, &ys, Ghost(yv));
            let m = scalar_mul(&acc, &xs);
            let next = scalar_add(&row_val, &m);
            proof {
                let tail = outer.subrange(i + 1, outer.len() as int);
                let here = outer.subrange(i as int, outer.len() as int);
                assert(here.drop_first() =~= tail);
                assert(here[0] == outer[i as int]);
                lemma_mul_comm(scalar_val(acc), scalar_val(xs));
                lemma_add_mod(scalar_val(row_val), scalar_val(xs) * scalar_val(acc));
                lemma_add_mod(scalar_val(row_val) % fr_order(),
                    scalar_val(xs) * scalar_val(acc));
                lemma_mod_idempotent(scalar_val(row_val));
            }
            acc = next;
        }
        proof {
            assert(outer.subrange(0, outer.len() as int) =~= outer);
        }
        acc
    }

    /// Evaluates row `i` of the polynomial at a point: the inner sum of
    /// [`BivarPoly::evaluate`].
    fn row_value(&self, i: usize, ys: &Scalar, y: Ghost<nat>) -> (r: Scalar)
        requires
            self.wf(),
            i <= self.spec_degree(),
            scalar_val(*ys) == y@,
        ensures
            scalar_val(r) == poly_eval(bivar_row_coeffs(self.spec_coeffs(),
                self.spec_degree(), i as int), y@),
    {
        let ghost cs = self.spec_coeffs();
        let ghost d = self.spec_degree();
        let ghost row = bivar_row_coeffs(cs, d, i as int);
        let mut acc = scalar_zero();
        let mut j: usize = self.dim();
        while j > 0
            invariant
                self.wf(),
                cs == self.spec_coeffs(),
                d == self.spec_degree(),
                d + 1 <= usize::MAX,
                i <= d,
                scalar_val(*ys) == y@,
                row == bivar_row_coeffs(cs, d, i as int),
                row.len() == d + 1,
                j <= d + 1,
                scalar_val(acc) == poly_eval(row.subrange(j as int, row.len() as int), y@),
            decreases j,
        {
            j -= 1;
            let c = self.coeff_entry(i, j);
            let m = scalar_mul(&acc, ys);
            let next = scalar_add(c, &m);
            proof {
                let tail = row.subrange(j + 1, row.len() as int);
                let here = row.subrange(j as int, row.len() as int);
                assert(here.drop_first() =~= tail);
                assert(here[0] == row[j as int]);
                lemma_mul_comm(scalar_val(acc), scalar_val(*ys));
                lemma_add_mod(scalar_val(*c), scalar_val(*ys) * scalar_val(acc));
                lemma_add_mod(scalar_val(*c) % fr_order(), scalar_val(*ys) * scalar_val(acc));
            }
            acc = next;
        }
        proof {
            assert(row.subrange(0, row.len() as int) =~= row);
        }
        acc
    }

    /// Returns the univariate polynomial `f(x, Y)`: the secret row that a
    /// dealer hands to party `x` in a distributed key generation.
    pub fn row<T: IntoFr>(&self, x: T) -> (r: Poly)
        requires
            self.wf(),
        ensures
            r.spec_coeffs().len() == self.spec_degree() + 1,
            forall|i: int| 0 <= i <= self.spec_degree()
                ==> #[trigger] r.spec_coeffs()[i] == poly_eval(bivar_row_coeffs(
                self.spec_coeffs(), self.spec_degree(), i), x.fr_spec()),
    {
        let xs = x.into_fr();
        let ghost cs = self.spec_coeffs();
        let ghost d = self.spec_degree();
        let ghost xv = x.fr_spec();
        let mut coeff: Vec<Scalar> = Vec::new();
        let n = self.dim();
        let mut i: usize = 0;
        while i < n
            invariant
                self.wf(),
                cs == self.spec_coeffs(),
                d == self.spec_degree(),
                d + 1 <= usize::MAX,
                scalar_val(xs) == xv,
                n == d + 1,
                i <= d + 1,
                coeff@.len() == i,
                forall|k: int| 0 <= k < i
                    ==> scalar_val(#[trigger] coeff@[k])
                    == poly_eval(bivar_row_coeffs(cs, d, k), xv),
            decreases d + 1 - i,
        {
            let v = self.row_value(i, &xs, Ghost(xv));
            coeff.push(v);
            i += 1;
        }
        let out = Poly { coeff };
        proof {
            assert forall|k: int| 0 <= k <= d
                implies #[trigger] out.spec_coeffs()[k]
                == poly_eval(bivar_row_coeffs(cs, d, k), xv) by {
                lemma_mod_idempotent(poly_eval(bivar_row_coeffs(cs, d, k), xv));
            }
        }
        out
    }

    /// Returns the commitment of the polynomial: each stored coefficient
    /// times the `G1` generator, in the same triangular layout.
    pub fn commitment(&self) -> (r: BivarCommitment)
        requires
            self.wf(),
        ensures
            r.wf(),
            r.spec_degree() == self.spec_degree(),
            r.spec_coeffs() =~= self.spec_coeffs(),
    {
        let gen = g1_generator();
        let mut coeff: Vec<G1Projective> = Vec::new();
        let mut i: usize = 0;
        while i < self.coeff.len()
            invariant
                i <= self.coeff@.len(),
                g1_val(gen) == 1,
                coeff@.len() == i,
                forall|j: int| 0 <= j < i
                    ==> g1_val(#[trigger] coeff@[j]) % fr_order()
                    == scalar_val(self.coeff@[j]) % fr_order(),
            decreases self.coeff@.len() - i,
        {
            let c = g1_mul(&gen, &self.coeff[i]);
            proof {
                lemma_mod_idempotent(scalar_val(self.coeff@[i as int]));
            }
            coeff.push(c);
            i += 1;
        }
        BivarCommitment { degree: self.degree, coeff }
    }

    /// Overwrites every coefficient with zero.
    pub fn zeroize(&mut self)
        ensures
            forall|i: int| 0 <= i < final(self).spec_coeffs().len()
                ==> #[trigger] final(self).spec_coeffs()[i] == 0,
    {
        let mut i: usize = 0;
        while i < self.coeff.len()
            invariant
                i <= self.coeff@.len(),
                self.coeff@.len() == old(self).coeff@.len(),
                forall|j: int| 0 <= j < i ==> scalar_val(#[trigger] self.coeff@[j]) == 0,
            decreases self.coeff@.len() - i,
        {
            self.coeff[i] = scalar_zero();
            i += 1;
        }
        proof {
            lemma_mod_small(0);
        }
    }

    /// Relies on `Debug for Scalar`: generates a non-redacted debug
    /// string. This deliberately leaks the secret coefficients.
    #[verifier::external_body]
    pub fn reveal_value(&self) -> String {
        format!("BivarPoly {{ degree: {}, coeff: {:?} }}", self.degree, self.coeff)
    }
}

/// Overwrites every coefficient with zero when the polynomial goes out of
/// scope.
impl Drop for BivarPoly {
    /// Relies on `Scalar::zero`: every coefficient is overwritten with
    /// zero before the storage is released.
    #[verifier::external_body]
    fn drop(&mut self)
        opens_invariants none
        no_unwind
    {
        for c in self.coeff.iter_mut() {
            *c = Scalar::zero();
        }
    }
}

/// The `G1` lift of a symmetric bivariate polynomial, with the same
/// triangular layout. Not secret.
#[derive(Clone)]
pub struct BivarCommitment {
    pub(crate) degree: usize,
    pub(crate) coeff: Vec<G1Projective>,
}

impl BivarCommitment {
    /// The sequence of committed coefficient values, reduced modulo the
    /// group order.
    pub closed spec fn spec_coeffs(&self) -> Seq<nat> {
        Seq::new(self.coeff@.len(), |i: int| g1_val(self.coeff@[i]) % fr_order())
    }

    /// The degree of the committed polynomial.
    pub closed spec fn spec_degree(&self) -> nat {
        self.degree as nat
    }

    /// Well-formedness: the storage holds exactly one entry per
    /// unordered index pair.
    pub open spec fn wf(&self) -> bool {
        self.spec_coeffs().len() == tri_len(self.spec_degree())
    }

    /// Returns the committed polynomial's degree.
    pub fn degree(&self) -> (r: usize)
        ensures
            r == self.spec_degree(),
    {
        self.degree
    }

    /// Returns the number of rows, `degree + 1`, which the triangular
    /// storage shows to fit the platform.
    fn dim(&self) -> (r: usize)
        requires
            self.wf(),
        ensures
            r == self.spec_degree() + 1,
    {
        let n = self.coeff.len();
        proof {
            lemma_tri_len_ge(self.spec_degree());
        }
        self.degree + 1
    }

    /// Looks up the stored entry for the unordered pair `(i, j)`.
    fn coeff_entry(&self, i: usize, j: usize) -> (r: &G1Projective)
        requires
            self.wf(),
            i <= self.spec_degree(),
            j <= self.spec_degree(),
        ensures
            g1_val(*r) % fr_order() == bivar_coeff(self.spec_coeffs(), i as int, j as int),
    {
        let (lo, hi) = if i <= j {
            (i, j)
        } else {
            (j, i)
        };
        let total = self.coeff.len();
        proof {
            lemma_tri_pos_in_range(self.spec_degree(), lo as int, hi as int);
        }
        let h = hi as u128;
        proof {
            assert(h * (h + 1) <= 0xffff_ffff_ffff_ffffu128 * 0x1_0000_0000_0000_0000u128)
                by (nonlinear_arith)
                requires
                    h <= 0xffff_ffff_ffff_ffffu128,
            ;
        }
        let pos128 = h * (h + 1) / 2 + lo as u128;
        proof {
            assert(pos128 == tri_pos(lo as int, hi as int));
        }
        let pos = pos128 as usize;
        &self.coeff[pos]
    }

    /// Evaluates the commitment at `(x, y)` in `G1`.
    #[verifier::rlimit(100)]
    pub fn evaluate<T: IntoFr>(&self, x: T, y: T) -> (r: G1Projective)
        requires
            self.wf(),
        ensures
            g1_val(r) % fr_order() == bivar_eval(self.spec_coeffs(), self.spec_degree(),
                x.fr_spec(), y.fr_spec()),
    {
        let xs = x.into_fr();
        let ys = y.into_fr();
        let ghost cs = self.spec_coeffs();
        let ghost d = self.spec_degree();
        let ghost xv = x.fr_spec();
        let ghost yv = y.fr_spec();
        let ghost outer = Seq::new(d + 1, |i: int| poly_eval(bivar_row_coeffs(cs, d, i), yv));
        let mut acc = g1_identity();
        let mut i: usize = self.dim();
        while i > 0
            invariant
                self.wf(),
                cs == self.spec_coeffs(),
                d == self.spec_degree(),
                d + 1 <= usize::MAX,
                scalar_val(xs) == xv,
                scalar_val(ys) == yv,
                outer == Seq::new(d + 1, |k: int| poly_eval(bivar_row_coeffs(cs, d, k), yv)),
                i <= d + 1,
                g1_val(acc) % fr_order() == poly_eval(outer.subrange(i as int,
                    outer.len() as int), xv),
            decreases i,
        {
            i -= 1;
            let row_val = self.row_entry_value(i, &ys, Ghost(yv));
            proof {
                let tail = outer.subrange(i + 1, outer.len() as int);
                let here = outer.subrange(i as int, outer.len() as int);
                assert(here.drop_first() =~= tail);
                assert(here[0] == outer[i as int]);
            }
            let m = g1_mul(&acc, &xs);
            let next = g1_add(&row_val, &m);
            proof {
                lemma_mod_idempotent(g1_val(acc));
                lemma_mul_mod(g1_val(acc), scalar_val(xs));
                lemma_mul_comm(g1_val(acc), scalar_val(xs));
                lemma_mul_mod(scalar_val(xs), g1_val(acc));
                lemma_add_mod(g1_val(row_val), scalar_val(xs) * g1_val(acc));
                lemma_add_mod(g1_val(row_val) % fr_order(), scalar_val(xs) * g1_val(acc));
                lemma_mod_idempotent(g1_val(next));
            }
            acc = next;
        }
        proof {
            assert(outer.subrange(0, outer.len() as int) =~= outer);
        }
        acc
    }

    /// Evaluates row `i` of the commitment at a point in `G1`: the inner
    /// sum of [`BivarCommitment::evaluate`].
    #[verifier::rlimit(100)]
    fn row_entry_value(&self, i: usize, ys: &Scalar, y: Ghost<nat>) -> (r: G1Projective)
        requires
            self.wf(),
            i <= self.spec_degree(),
            scalar_val(*ys) == y@,
        ensures
            g1_val(r) % fr_order() == poly_eval(bivar_row_coeffs(self.spec_coeffs(),
                self.spec_degree(), i as int), y@),
    {
        let ghost cs = self.spec_coeffs();
        let ghost d = self.spec_degree();
        let ghost row = bivar_row_coeffs(cs, d, i as int);
        let mut acc = g1_identity();
        let mut j: usize = self.dim();
        while j > 0
            invariant
                self.wf(),
                cs == self.spec_coeffs(),
                d == self.spec_degree(),
                d + 1 <= usize::MAX,
                i <= d,
                scalar_val(*ys) == y@,
                row == bivar_row_coeffs(cs, d, i as int),
                row.len() == d + 1,
                j <= d + 1,
                g1_val(acc) % fr_order() == poly_eval(row.subrange(j as int,
                    row.len() as int), y@),
            decreases j,
        {
            j -= 1;
            let c = self.coeff_entry(i, j);
            proof {
                let tail = row.subrange(j + 1, row.len() as int);
                let here = row.subrange(j as int, row.len() as int);
                assert(here.drop_first() =~= tail);
                assert(here[0] == row[j as int]);
            }
            let m = g1_mul(&acc, ys);
            let next = g1_add(c, &m);
            proof {
                lemma_mod_idempotent(g1_val(acc));
                lemma_mul_mod(g1_val(acc), scalar_val(*ys));
                lemma_mul_comm(g1_val(acc), scalar_val(*ys));
                lemma_mul_mod(scalar_val(*ys), g1_val(acc));
                lemma_add_mod(g1_val(*c), scalar_val(*ys) * g1_val(acc));
                lemma_add_mod(g1_val(*c) % fr_order(), scalar_val(*ys) * g1_val(acc));
                lemma_mod_idempotent(g1_val(next));
            }
            acc = next;
        }
        proof {
            assert(row.subrange(0, row.len() as int) =~= row);
        }
        acc
    }

    /// Returns the commitment to row `x`: the public counterpart of the
    /// secret row polynomial a dealer hands out.
    pub fn row<T: IntoFr>(&self, x: T) -> (r: Commitment)
        requires
            self.wf(),
        ensures
            r.spec_coeffs().len() == self.spec_degree() + 1,
            forall|i: int| 0 <= i <= self.spec_degree()
                ==> #[trigger] r.spec_coeffs()[i] == poly_eval(bivar_row_coeffs(
                self.spec_coeffs(), self.spec_degree(), i), x.fr_spec()),
    {
        let xs = x.into_fr();
        let ghost cs = self.spec_coeffs();
        let ghost d = self.spec_degree();
        let ghost xv = x.fr_spec();
        let mut coeff: Vec<G1Projective> = Vec::new();
        let n = self.dim();
        let mut i: usize = 0;
        while i < n
            invariant
                self.wf(),
                cs == self.spec_coeffs(),
                d == self.spec_degree(),
                d + 1 <= usize::MAX,
                scalar_val(xs) == xv,
                n == d + 1,
                i <= d + 1,
                coeff@.len() == i,
                forall|k: int| 0 <= k < i
                    ==> g1_val(#[trigger] coeff@[k]) % fr_order()
                    == poly_eval(bivar_row_coeffs(cs, d, k), xv),
            decreases d + 1 - i,
        {
            let v = self.row_entry_value(i, &xs, Ghost(xv));
            coeff.push(v);
            i += 1;
        }
        let out = Commitment { coeff };
        out
    }
}

/// The quotient of a polynomial by the linear factor `X - p`: the
/// coefficients that synthetic division produces. The remainder is the
/// polynomial's value at `p`.
pub open spec fn quot_coeffs(c: Seq<nat>, p: nat) -> Seq<nat>
    decreases c.len(),
{
    if c.len() <= 1 {
        Seq::empty()
    } else {
        seq![poly_eval(c.drop_first(), p)] + quot_coeffs(c.drop_first(), p)
    }
}

/// The quotient is one coefficient shorter than the dividend.
pub proof fn lemma_quot_len(c: Seq<nat>, p: nat)
    ensures
        quot_coeffs(c, p).len() == if c.len() <= 1 { 0int } else { c.len() - 1 },
    decreases c.len(),
{
    if c.len() > 1 {
        lemma_quot_len(c.drop_first(), p);
    }
}

/// Subtracting and then adding the same residue returns the original.
proof fn lemma_sub_then_add(y: nat, p: nat)
    ensures
        (p % fr_order() + crate::interpolate::sub_mod(y % fr_order(), p % fr_order()))
            % fr_order() == y % fr_order(),
{
    let m = fr_order();
    let a: int = (y % m) + m - (p % m);
    let s = crate::interpolate::sub_mod(y % m, p % m);
    vstd::arithmetic::div_mod::lemma_mod_bound(a, m as int);
    assert(s == a % (m as int));
    lemma_add_mod(p % m, a as nat);
    assert((p % m + s) % m == ((p % m + a) % (m as int)) as nat) by {
        lemma_add_mod(p % m, (a % (m as int)) as nat);
    }
    assert(p % m + a == y % m + m);
    assert(((y % m) + m) % m == (y % m) % m) by {
        vstd::arithmetic::div_mod::lemma_mod_multiples_vanish(1, (y % m) as int, m as int);
    }
    lemma_mod_idempotent(y);
}

/// The remainder theorem: a polynomial's value anywhere is its value at
/// `p` plus the distance from `p` times the quotient's value.
pub proof fn lemma_remainder(c: Seq<nat>, p: nat, y: nat)
    ensures
        poly_eval(c, y) == (poly_eval(c, p)
            + crate::interpolate::sub_mod(y % fr_order(), p % fr_order())
            * poly_eval(quot_coeffs(c, p), y)) % fr_order(),
    decreases c.len(),
{
    let m = fr_order();
    let s = crate::interpolate::sub_mod(y % m, p % m);
    if c.len() == 0 {
        assert(s * 0 == 0) by (nonlinear_arith);
        lemma_mod_small(0);
    } else if c.len() == 1 {
        assert(c.drop_first().len() == 0);
        assert(poly_eval(c.drop_first(), y) == 0);
        assert(poly_eval(c.drop_first(), p) == 0);
        assert(poly_eval(c, y) == (c[0] + y * 0) % m);
        assert(poly_eval(c, p) == (c[0] + p * 0) % m);
        assert(y * 0 == 0) by (nonlinear_arith);
        assert(p * 0 == 0) by (nonlinear_arith);
        assert(s * 0 == 0) by (nonlinear_arith);
        lemma_mod_idempotent(c[0]);
    } else {
        let t = c.drop_first();
        let qt = quot_coeffs(t, p);
        let q = quot_coeffs(c, p);
        lemma_remainder(t, p, y);
        let c0 = c[0];
        let ty = poly_eval(t, y);
        let tp = poly_eval(t, p);
        let qy = poly_eval(qt, y);
        // the quotient's own evaluation at y
        assert(q == seq![tp] + qt);
        assert(q.len() >= 1);
        assert(q[0] == tp);
        assert(q.drop_first() =~= qt);
        assert(poly_eval(q, y) == (tp + y * qy) % m);
        // expand the claimed right-hand side step by step
        let rhs_inner = c0 + p * tp + s * (tp + y * qy);
        assert((poly_eval(c, p) + s * poly_eval(q, y)) % m == rhs_inner % m) by {
            // drop the two inner reductions
            lemma_cong_mul((tp + y * qy) % m, tp + y * qy, s);
            lemma_mul_comm(s, (tp + y * qy) % m);
            lemma_mul_comm(s, tp + y * qy);
            lemma_cong_add(poly_eval(c, p), c0 + p * tp, s * ((tp + y * qy) % m));
            assert(poly_eval(c, p) == (c0 + p * tp) % m);
            lemma_mod_idempotent(c0 + p * tp);
            lemma_add_mod(c0 + p * tp, s * ((tp + y * qy) % m));
            lemma_add_mod(c0 + p * tp, s * (tp + y * qy));
        }
        assert(rhs_inner == c0 + (p + s) * tp + s * (y * qy)) by {
            vstd::arithmetic::mul::lemma_mul_is_distributive_add(s as int, tp as int,
                (y * qy) as int);
            vstd::arithmetic::mul::lemma_mul_is_distributive_add_other_way(tp as int,
                p as int, s as int);
        }
        assert((c0 + (p + s) * tp + s * (y * qy)) % m
            == (c0 + y * tp + y * (s * qy)) % m) by {
            // p + s is congruent to y, and s * (y * qy) == y * (s * qy)
            lemma_sub_then_add(y, p);
            lemma_mod_idempotent(y);
            assert((p + s) % m == y % m) by {
                lemma_add_mod(p, s);
                lemma_add_mod(p % m, s);
            }
            lemma_cong_mul(p + s, y, tp);
            lemma_cong_add((p + s) * tp, y * tp, s * (y * qy));
            lemma_mul_comm_assoc_helper(s, y, qy);
            lemma_add_mod(c0, (p + s) * tp + s * (y * qy));
            lemma_add_mod(c0, y * tp + s * (y * qy));
            assert(((p + s) * tp + s * (y * qy)) % m == (y * tp + s * (y * qy)) % m);
            assert((c0 + ((p + s) * tp + s * (y * qy))) % m
                == (c0 + (y * tp + s * (y * qy))) % m) by {
                lemma_cong_add((p + s) * tp + s * (y * qy), y * tp + s * (y * qy), c0);
                lemma_mul_comm(1, 1);
            }
        }
        assert(c0 + y * tp + y * (s * qy) == c0 + y * (tp + s * qy)) by {
            vstd::arithmetic::mul::lemma_mul_is_distributive_add(y as int, tp as int,
                (s * qy) as int);
        }
        assert((c0 + y * (tp + s * qy)) % m == (c0 + y * ((tp + s * qy) % m)) % m) by {
            lemma_cong_mul(tp + s * qy, (tp + s * qy) % m, y);
            lemma_mod_idempotent(tp + s * qy);
            lemma_mul_comm(y, tp + s * qy);
            lemma_mul_comm(y, (tp + s * qy) % m);
            lemma_cong_add(y * (tp + s * qy), y * ((tp + s * qy) % m), c0);
            lemma_add_mod(c0, y * (tp + s * qy));
            lemma_add_mod(c0, y * ((tp + s * qy) % m));
            assert((y * (tp + s * qy)) % m == (y * ((tp + s * qy) % m)) % m);
            lemma_cong_add_both(c0, y * (tp + s * qy), y * ((tp + s * qy) % m));
        }
        assert(ty == (tp + s * qy) % m);
        assert(poly_eval(c, y) == (c0 + y * ty) % m);
    }
}

/// Adding the same head to congruent tails keeps the congruence.
proof fn lemma_cong_add_both(c0: nat, a: nat, b: nat)
    requires
        a % fr_order() == b % fr_order(),
    ensures
        (c0 + a) % fr_order() == (c0 + b) % fr_order(),
{
    lemma_add_mod(c0, a);
    lemma_add_mod(c0, b);
}

/// Products commute and associate modulo nothing: `s * (y * q) == y * (s * q)`.
proof fn lemma_mul_comm_assoc_helper(s: nat, y: nat, q: nat)
    ensures
        s * (y * q) == y * (s * q),
{
    vstd::arithmetic::mul::lemma_mul_is_associative(s as int, y as int, q as int);
    vstd::arithmetic::mul::lemma_mul_is_commutative(s as int, y as int);
    vstd::arithmetic::mul::lemma_mul_is_associative(y as int, s as int, q as int);
}

} // verus!
