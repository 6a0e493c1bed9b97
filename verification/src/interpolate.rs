//! Lagrange interpolation at zero, over either pairing group.
//!
//! Given `t + 1` samples `(i, f(i + 1) * G)` of a polynomial `f` of degree
//! `t` lifted to a curve group, the interpolation computes `f(0) * G`. The
//! indices are translated by one, so that index zero never addresses the
//! secret `f(0)` itself; each sample is weighted by the Lagrange basis
//! value at zero, whose denominator is the product of the pairwise index
//! differences. A denominator of zero — two equal indices — cannot be
//! inverted and yields [`Error::DuplicateEntry`]; fewer than `t + 1`
//! samples yield [`Error::NotEnoughShares`].

use vstd::prelude::*;
use bls12_381::{G1Projective, G2Projective, Scalar};
use crate::arith::{
    inv_mod, is_fr_inverse, lemma_add_mod, lemma_inv_mod_unique, lemma_mod_idempotent,
    lemma_mod_small, lemma_mul_comm, lemma_mul_mod,
};
use crate::error::Error;
use crate::poly::poly_eval;
use crate::fr::{scalar_add, scalar_invert, scalar_mul, scalar_one, scalar_sub, scalar_val,
    IntoFr};
use crate::groups::{g1_add, g1_identity, g1_mul, g1_val, g2_add, g2_identity, g2_mul, g2_val};
use crate::fr_order;

verus! {

/// The difference `a - b` modulo the field order.
pub open spec fn sub_mod(a: nat, b: nat) -> nat {
    ((a + fr_order() - b) % (fr_order() as int)) as nat
}

/// The translated evaluation points of the first `n` samples: each index
/// value plus one, reduced.
pub open spec fn sample_xs<T: IntoFr, Y>(items: Seq<(T, Y)>, n: int) -> Seq<nat> {
    Seq::new(n as nat, |i: int| (items[i].0.fr_spec() + 1) % fr_order())
}

/// The product of the first `n` evaluation points other than the `i`-th.
pub open spec fn prod_except(xs: Seq<nat>, i: int, n: int) -> nat
    decreases n,
{
    if n <= 0 {
        1
    } else {
        prod_except(xs, i, n - 1) * (if n - 1 == i { 1nat } else { xs[n - 1] })
    }
}

/// The product of the differences `x_j - x_i` over the first `n` points
/// other than the `i`-th: the denominator of the `i`-th Lagrange weight.
pub open spec fn denom_prod(xs: Seq<nat>, i: int, n: int) -> nat
    decreases n,
{
    if n <= 0 {
        1
    } else {
        denom_prod(xs, i, n - 1) * (if n - 1 == i { 1nat } else { sub_mod(xs[n - 1], xs[i]) })
    }
}

/// The `i`-th Lagrange basis weight at zero: the product of the other
/// points over the product of their differences to the `i`-th point.
pub open spec fn lagrange_weight(xs: Seq<nat>, i: int, n: int) -> nat {
    (prod_except(xs, i, n) * inv_mod(denom_prod(xs, i, n) % fr_order())) % fr_order()
}

/// The weighted sum of the first `n` sample values, reduced: the
/// interpolated value at zero once all `n` samples are in.
pub open spec fn lagrange_sum(xs: Seq<nat>, ys: Seq<nat>, n: int) -> nat
    decreases n,
{
    if n <= 0 {
        0
    } else {
        (lagrange_sum(xs, ys, n - 1) + lagrange_weight(xs, n - 1, xs.len() as int) * ys[n - 1])
            % fr_order()
    }
}

/// Law: two equal evaluation points force the Lagrange denominator of
/// either to zero, so interpolation reports a duplicate entry.
pub proof fn lemma_duplicate_gives_zero_denominator(xs: Seq<nat>, i: int, j: int, n: int)
    requires
        0 <= i < n,
        0 <= j < n,
        i != j,
        n <= xs.len(),
        xs[i] == xs[j],
        xs[i] < fr_order(),
    ensures
        denom_prod(xs, i, n) % fr_order() == 0,
{
    assert(sub_mod(xs[j], xs[i]) == 0) by {
        vstd::arithmetic::div_mod::lemma_mod_self_0(fr_order() as int);
    }
    lemma_zero_factor_zero_product(xs, i, j, n);
}

/// A zero factor makes the whole denominator product vanish modulo the
/// order.
proof fn lemma_zero_factor_zero_product(xs: Seq<nat>, i: int, j: int, n: int)
    requires
        0 <= i,
        0 <= j < n,
        i != j,
        n <= xs.len(),
        sub_mod(xs[j], xs[i]) == 0,
    ensures
        denom_prod(xs, i, n) % fr_order() == 0,
    decreases n,
{
    if n - 1 == j {
        assert(denom_prod(xs, i, n) == denom_prod(xs, i, n - 1) * 0);
        lemma_mod_small(0);
    } else {
        lemma_zero_factor_zero_product(xs, i, j, n - 1);
        let f = if n - 1 == i { 1nat } else { sub_mod(xs[n - 1], xs[i]) };
        assert(denom_prod(xs, i, n) == denom_prod(xs, i, n - 1) * f);
        lemma_mul_mod(denom_prod(xs, i, n - 1), f);
        assert((0 * f) % fr_order() == 0) by {
            lemma_mod_small(0);
        }
    }
}

/// Interpolates the first `t + 1` samples `(i, S_i)` in `G1`, returning
/// the group element carrying the value of the underlying polynomial at
/// zero. Excess samples are ignored.
pub fn interpolate_g1<T: IntoFr>(t: usize, items: &Vec<(T, G1Projective)>) -> (r: Result<
    G1Projective,
    Error,
>)
    ensures
        items@.len() < t + 1 <==> r == Err::<G1Projective, Error>(Error::NotEnoughShares),
        items@.len() >= t + 1 && t == 0 ==> r is Ok
            && g1_val(r->Ok_0) % fr_order() == g1_val(items@[0].1) % fr_order(),
        items@.len() >= t + 1 && t > 0 ==> {
            let xs = sample_xs(items@, t + 1);
            let ys = Seq::new((t + 1) as nat, |i: int| g1_val(items@[i].1) % fr_order());
            &&& (r == Err::<G1Projective, Error>(Error::DuplicateEntry) <==> exists|i: int|
                0 <= i < t + 1 && #[trigger] denom_prod(xs, i, t + 1) % fr_order() == 0)
            &&& (r is Ok || r == Err::<G1Projective, Error>(Error::DuplicateEntry))
            &&& (r is Ok ==> forall|i: int| 0 <= i < t + 1
                ==> #[trigger] denom_invertible(xs, i, t as int + 1))
            &&& (r is Ok ==> g1_val(r->Ok_0) == lagrange_sum(xs, ys, t + 1))
        },
{
    if items.len() <= t {
        return Err(Error::NotEnoughShares);
    }
    let count = t + 1;
    let ghost sxs = sample_xs(items@, count as int);
    let ghost sys = Seq::new(count as nat, |i: int| g1_val(items@[i].1) % fr_order());
    let one = scalar_one();
    let mut xs: Vec<Scalar> = Vec::new();
    let mut ys: Vec<G1Projective> = Vec::new();
    let mut idx: usize = 0;
    while idx < count
        invariant
            count <= items@.len(),
            sxs == sample_xs(items@, count as int),
            sys == Seq::new(count as nat, |i: int| g1_val(items@[i].1) % fr_order()),
            scalar_val(one) == 1,
            idx <= count,
            xs@.len() == idx,
            ys@.len() == idx,
            forall|j: int| 0 <= j < idx ==> scalar_val(#[trigger] xs@[j]) == sxs[j],
            forall|j: int| 0 <= j < idx ==> g1_val(#[trigger] ys@[j]) % fr_order() == sys[j],
        decreases count - idx,
    {
        let xi = scalar_add(&items[idx].0.into_fr(), &one);
        xs.push(xi);
        ys.push(items[idx].1.clone());
        idx += 1;
    }
    if t == 0 {
        return Ok(ys[0].clone());
    }
    let mut acc = g1_identity();
    let mut i: usize = 0;
    while i < count
        invariant
            t > 0,
            count == t + 1,
            count <= items@.len(),
            sxs == sample_xs(items@, count as int),
            sxs.len() == count,
            sys == Seq::new(count as nat, |i: int| g1_val(items@[i].1) % fr_order()),
            scalar_val(one) == 1,
            xs@.len() == count,
            ys@.len() == count,
            forall|j: int| 0 <= j < count ==> scalar_val(#[trigger] xs@[j]) == sxs[j],
            forall|j: int| 0 <= j < count ==> g1_val(#[trigger] ys@[j]) % fr_order() == sys[j],
            i <= count,
            g1_val(acc) == lagrange_sum(sxs, sys, i as int),
            forall|j: int| 0 <= j < i
                ==> #[trigger] denom_prod(sxs, j, count as int) % fr_order() != 0,
            forall|j: int| 0 <= j < i ==> #[trigger] denom_invertible(sxs, j, count as int),
        decreases count - i,
    {
        let mut num = scalar_one();
        let mut j: usize = 0;
        proof {
            lemma_mod_small(1);
        }
        while j < count
            invariant
                count == t + 1,
                i < count,
                sxs.len() == count,
                xs@.len() == count,
                forall|k: int| 0 <= k < count ==> scalar_val(#[trigger] xs@[k]) == sxs[k],
                j <= count,
                scalar_val(num) == prod_except(sxs, i as int, j as int) % fr_order(),
            decreases count - j,
        {
            if j != i {
                let next = scalar_mul(&num, &xs[j]);
                proof {
                    lemma_mul_mod(prod_except(sxs, i as int, j as int), sxs[j as int]);
                }
                num = next;
            } else {
                proof {
                    assert(prod_except(sxs, i as int, j + 1)
                        == prod_except(sxs, i as int, j as int) * 1);
                }
            }
            j += 1;
        }
        let mut denom = scalar_one();
        let mut j: usize = 0;
        proof {
            lemma_mod_small(1);
        }
        while j < count
            invariant
                count == t + 1,
                i < count,
                sxs.len() == count,
                xs@.len() == count,
                forall|k: int| 0 <= k < count ==> scalar_val(#[trigger] xs@[k]) == sxs[k],
                j <= count,
                scalar_val(denom) == denom_prod(sxs, i as int, j as int) % fr_order(),
            decreases count - j,
        {
            if j != i {
                let diff = scalar_sub(&xs[j], &xs[i]);
                proof {
                    assert(scalar_val(diff) == sub_mod(sxs[j as int], sxs[i as int]));
                }
                let next = scalar_mul(&denom, &diff);
                proof {
                    lemma_mul_mod(denom_prod(sxs, i as int, j as int),
                        sub_mod(sxs[j as int], sxs[i as int]));
                }
                denom = next;
            } else {
                proof {
                    assert(denom_prod(sxs, i as int, j + 1)
                        == denom_prod(sxs, i as int, j as int) * 1);
                }
            }
            j += 1;
        }
        let inv = match scalar_invert(&denom) {
            Some(inv) => {
                proof {
                    lemma_mod_idempotent(denom_prod(sxs, i as int, count as int));
                }
                inv
            },
            None => {
                proof {
                    lemma_mod_idempotent(denom_prod(sxs, i as int, count as int));
                }
                return Err(Error::DuplicateEntry);
            },
        };
        let w = scalar_mul(&num, &inv);
        let term = g1_mul(&ys[i], &w);
        let next = g1_add(&acc, &term);
        proof {
            let d = denom_prod(sxs, i as int, count as int) % fr_order();
            let p = prod_except(sxs, i as int, count as int);
            lemma_mod_idempotent(denom_prod(sxs, i as int, count as int));
            assert(is_fr_inverse(d, scalar_val(inv)));
            assert(denom_invertible(sxs, i as int, count as int));
            lemma_inv_mod_unique(d, scalar_val(inv));
            // the computed weight equals the spec weight
            lemma_mul_mod(p, inv_mod(d));
            assert(scalar_val(w) == lagrange_weight(sxs, i as int, count as int));
            // the accumulated sum gains the weighted sample
            let y = g1_val(ys@[i as int]);
            lemma_mul_mod(y, scalar_val(w));
            lemma_mul_comm(y % fr_order(), scalar_val(w));
            lemma_mul_mod(scalar_val(w), y);
            lemma_mul_comm(scalar_val(w), y % fr_order());
            lemma_mul_comm(y, scalar_val(w));
            lemma_add_mod(g1_val(acc), scalar_val(w) * (y % fr_order()));
            lemma_add_mod(g1_val(acc), (scalar_val(w) * (y % fr_order())) % fr_order());
        }
        acc = next;
        i += 1;
    }
    Ok(acc)
}

/// Interpolates the first `t + 1` samples `(i, S_i)` in `G2`, returning
/// the group element carrying the value of the underlying polynomial at
/// zero. Excess samples are ignored.
pub fn interpolate_g2<T: IntoFr>(t: usize, items: &Vec<(T, G2Projective)>) -> (r: Result<
    G2Projective,
    Error,
>)
    ensures
        items@.len() < t + 1 <==> r == Err::<G2Projective, Error>(Error::NotEnoughShares),
        items@.len() >= t + 1 && t == 0 ==> r is Ok
            && g2_val(r->Ok_0) % fr_order() == g2_val(items@[0].1) % fr_order(),
        items@.len() >= t + 1 && t > 0 ==> {
            let xs = sample_xs(items@, t + 1);
            let ys = Seq::new((t + 1) as nat, |i: int| g2_val(items@[i].1) % fr_order());
            &&& (r == Err::<G2Projective, Error>(Error::DuplicateEntry) <==> exists|i: int|
                0 <= i < t + 1 && #[trigger] denom_prod(xs, i, t + 1) % fr_order() == 0)
            &&& (r is Ok || r == Err::<G2Projective, Error>(Error::DuplicateEntry))
            &&& (r is Ok ==> forall|i: int| 0 <= i < t + 1
                ==> #[trigger] denom_invertible(xs, i, t as int + 1))
            &&& (r is Ok ==> g2_val(r->Ok_0) == lagrange_sum(xs, ys, t + 1))
        },
{
    if items.len() <= t {
        return Err(Error::NotEnoughShares);
    }
    let count = t + 1;
    let ghost sxs = sample_xs(items@, count as int);
    let ghost sys = Seq::new(count as nat, |i: int| g2_val(items@[i].1) % fr_order());
    let one = scalar_one();
    let mut xs: Vec<Scalar> = Vec::new();
    let mut ys: Vec<G2Projective> = Vec::new();
    let mut idx: usize = 0;
    while idx < count
        invariant
            count <= items@.len(),
            sxs == sample_xs(items@, count as int),
            sys == Seq::new(count as nat, |i: int| g2_val(items@[i].1) % fr_order()),
            scalar_val(one) == 1,
            idx <= count,
            xs@.len() == idx,
            ys@.len() == idx,
            forall|j: int| 0 <= j < idx ==> scalar_val(#[trigger] xs@[j]) == sxs[j],
            forall|j: int| 0 <= j < idx ==> g2_val(#[trigger] ys@[j]) % fr_order() == sys[j],
        decreases count - idx,
    {
        let xi = scalar_add(&items[idx].0.into_fr(), &one);
        xs.push(xi);
        ys.push(items[idx].1.clone());
        idx += 1;
    }
    if t == 0 {
        return Ok(ys[0].clone());
    }
    let mut acc = g2_identity();
    let mut i: usize = 0;
    while i < count
        invariant
            t > 0,
            count == t + 1,
            count <= items@.len(),
            sxs == sample_xs(items@, count as int),
            sxs.len() == count,
            sys == Seq::new(count as nat, |i: int| g2_val(items@[i].1) % fr_order()),
            scalar_val(one) == 1,
            xs@.len() == count,
            ys@.len() == count,
            forall|j: int| 0 <= j < count ==> scalar_val(#[trigger] xs@[j]) == sxs[j],
            forall|j: int| 0 <= j < count ==> g2_val(#[trigger] ys@[j]) % fr_order() == sys[j],
            i <= count,
            g2_val(acc) == lagrange_sum(sxs, sys, i as int),
            forall|j: int| 0 <= j < i
                ==> #[trigger] denom_prod(sxs, j, count as int) % fr_order() != 0,
            forall|j: int| 0 <= j < i ==> #[trigger] denom_invertible(sxs, j, count as int),
        decreases count - i,
    {
        let mut num = scalar_one();
        let mut j: usize = 0;
        proof {
            lemma_mod_small(1);
        }
        while j < count
            invariant
                count == t + 1,
                i < count,
                sxs.len() == count,
                xs@.len() == count,
                forall|k: int| 0 <= k < count ==> scalar_val(#[trigger] xs@[k]) == sxs[k],
                j <= count,
                scalar_val(num) == prod_except(sxs, i as int, j as int) % fr_order(),
            decreases count - j,
        {
            if j != i {
                let next = scalar_mul(&num, &xs[j]);
                proof {
                    lemma_mul_mod(prod_except(sxs, i as int, j as int), sxs[j as int]);
                }
                num = next;
            } else {
                proof {
                    assert(prod_except(sxs, i as int, j + 1)
                        == prod_except(sxs, i as int, j as int) * 1);
                }
            }
            j += 1;
        }
        let mut denom = scalar_one();
        let mut j: usize = 0;
        proof {
            lemma_mod_small(1);
        }
        while j < count
            invariant
                count == t + 1,
                i < count,
                sxs.len() == count,
                xs@.len() == count,
                forall|k: int| 0 <= k < count ==> scalar_val(#[trigger] xs@[k]) == sxs[k],
                j <= count,
                scalar_val(denom) == denom_prod(sxs, i as int, j as int) % fr_order(),
            decreases count - j,
        {
            if j != i {
                let diff = scalar_sub(&xs[j], &xs[i]);
                proof {
                    assert(scalar_val(diff) == sub_mod(sxs[j as int], sxs[i as int]));
                }
                let next = scalar_mul(&denom, &diff);
                proof {
                    lemma_mul_mod(denom_prod(sxs, i as int, j as int),
                        sub_mod(sxs[j as int], sxs[i as int]));
                }
                denom = next;
            } else {
                proof {
                    assert(denom_prod(sxs, i as int, j + 1)
                        == denom_prod(sxs, i as int, j as int) * 1);
                }
            }
            j += 1;
        }
        let inv = match scalar_invert(&denom) {
            Some(inv) => {
                proof {
                    lemma_mod_idempotent(denom_prod(sxs, i as int, count as int));
                }
                inv
            },
            None => {
                proof {
                    lemma_mod_idempotent(denom_prod(sxs, i as int, count as int));
                }
                return Err(Error::DuplicateEntry);
            },
        };
        let w = scalar_mul(&num, &inv);
        let term = g2_mul(&ys[i], &w);
        let next = g2_add(&acc, &term);
        proof {
            let d = denom_prod(sxs, i as int, count as int) % fr_order();
            let p = prod_except(sxs, i as int, count as int);
            lemma_mod_idempotent(denom_prod(sxs, i as int, count as int));
            assert(is_fr_inverse(d, scalar_val(inv)));
            assert(denom_invertible(sxs, i as int, count as int));
            lemma_inv_mod_unique(d, scalar_val(inv));
            lemma_mul_mod(p, inv_mod(d));
            assert(scalar_val(w) == lagrange_weight(sxs, i as int, count as int));
            let y = g2_val(ys@[i as int]);
            lemma_mul_mod(y, scalar_val(w));
            lemma_mul_comm(y % fr_order(), scalar_val(w));
            lemma_mul_mod(scalar_val(w), y);
            lemma_mul_comm(scalar_val(w), y % fr_order());
            lemma_mul_comm(y, scalar_val(w));
            lemma_add_mod(g2_val(acc), scalar_val(w) * (y % fr_order()));
            lemma_add_mod(g2_val(acc), (scalar_val(w) * (y % fr_order())) % fr_order());
        }
        acc = next;
        i += 1;
    }
    Ok(acc)
}

/// Whether the `i`-th Lagrange denominator over the first `n` points has
/// a multiplicative inverse.
pub open spec fn denom_invertible(xs: Seq<nat>, i: int, n: int) -> bool {
    exists|v: nat| #[trigger] is_fr_inverse(denom_prod(xs, i, n) % fr_order(), v)
}

/// Whether the difference `xs[i] - xs[j]` has a multiplicative inverse.
pub open spec fn diff_invertible(xs: Seq<nat>, i: int, j: int) -> bool {
    exists|w: nat| #[trigger] is_fr_inverse(sub_mod(xs[i], xs[j]), w)
}

/// An inverse of the `i`-th Lagrange denominator yields an inverse of
/// each of its factors: each pairwise difference `x_j - x_i` can be
/// cancelled.
proof fn lemma_denom_factor_invertible(xs: Seq<nat>, i: int, j: int, n: int, v: nat)
    requires
        0 <= j < n,
        j != i,
        n <= xs.len(),
        is_fr_inverse(denom_prod(xs, i, n) % fr_order(), v),
    ensures
        diff_invertible(xs, j, i),
    decreases n,
{
    let m = fr_order();
    let rest = denom_prod(xs, i, n - 1);
    let f = if n - 1 == i { 1nat } else { sub_mod(xs[n - 1], xs[i]) };
    assert(denom_prod(xs, i, n) == rest * f);
    if j == n - 1 {
        // extract the inverse of the last factor
        crate::arith::lemma_mul_comm(rest, f);
        assert(is_fr_inverse((f * rest) % m, v)) by {
            crate::arith::lemma_mul_comm(rest, f);
        }
        crate::arith::lemma_factor_inverse(f, rest, v);
        assert(is_fr_inverse(sub_mod(xs[j], xs[i]), (rest * v) % m));
        assert(diff_invertible(xs, j, i));
    } else {
        // an inverse of the whole product inverts the prefix; recurse
        crate::arith::lemma_factor_inverse(rest, f, v);
        let w1 = (f * v) % m;
        assert(is_fr_inverse(rest, w1));
        assert(is_fr_inverse(rest % m, w1)) by {
            lemma_mul_mod(rest, w1);
        }
        lemma_denom_factor_invertible(xs, i, j, n - 1, w1);
    }
}

/// From inverses of all Lagrange denominators, every pairwise difference
/// of evaluation points is invertible.
pub proof fn lemma_denominators_give_pairwise_inverses(xs: Seq<nat>, n: int)
    requires
        n <= xs.len(),
        forall|i: int| 0 <= i < n ==> #[trigger] denom_invertible(xs, i, n),
    ensures
        forall|i: int, j: int| 0 <= i < n && 0 <= j < n && i != j
            ==> #[trigger] diff_invertible(xs, i, j),
{
    assert forall|i: int, j: int| 0 <= i < n && 0 <= j < n && i != j
        implies #[trigger] diff_invertible(xs, i, j) by {
        assert(denom_invertible(xs, j, n));
        let v = choose|v: nat| #[trigger] is_fr_inverse(denom_prod(xs, j, n) % fr_order(), v);
        lemma_denom_factor_invertible(xs, j, i, n, v);
    }
}

/// Law: a polynomial of degree below `k` that vanishes at `k` points
/// whose pairwise differences are invertible also vanishes at zero. This
/// is the uniqueness half of Lagrange interpolation: dividing off the
/// root at the last point leaves a shorter polynomial vanishing at the
/// remaining points.
pub proof fn lemma_vanishing_at_zero(c: Seq<nat>, xs: Seq<nat>, k: int)
    requires
        c.len() <= k,
        k <= xs.len(),
        forall|i: int| 0 <= i < k ==> xs[i] < fr_order(),
        forall|i: int| 0 <= i < k ==> poly_eval(c, #[trigger] xs[i]) == 0,
        forall|i: int, j: int| 0 <= i < k && 0 <= j < k && i != j
            ==> #[trigger] diff_invertible(xs, i, j),
    ensures
        poly_eval(c, 0) == 0,
    decreases k,
{
    let m = fr_order();
    if k <= 0 {
        assert(c.len() == 0);
    } else {
        let p = xs[k - 1];
        let q = crate::poly::quot_coeffs(c, p);
        crate::poly::lemma_quot_len(c, p);
        // the quotient vanishes at the remaining points
        assert forall|i: int| 0 <= i < k - 1
            implies poly_eval(q, #[trigger] xs[i]) == 0 by {
            crate::poly::lemma_remainder(c, p, xs[i]);
            lemma_mod_small(xs[i]);
            lemma_mod_small(p);
            let s = sub_mod(xs[i], p);
            let qi = poly_eval(q, xs[i]);
            assert((poly_eval(c, p) + s * qi) % m == 0);
            assert(poly_eval(c, p) == 0);
            assert((s * qi) % m == 0);
            assert(diff_invertible(xs, i, k - 1));
            let w = choose|w: nat| #[trigger] is_fr_inverse(sub_mod(xs[i], xs[k - 1]), w);
            crate::arith::lemma_inverse_cancels(s, w, qi);
            crate::poly::lemma_poly_eval_reduced(q, xs[i]);
        }
        lemma_vanishing_at_zero(q, xs, k - 1);
        // the value at zero follows from the remainder identity at zero
        crate::poly::lemma_remainder(c, p, 0);
        lemma_mod_small(0);
        lemma_mod_small(p);
        let s0 = sub_mod(0, p);
        assert(s0 * 0 == 0) by (nonlinear_arith);
        assert(poly_eval(c, p) == 0);
        assert(poly_eval(c, 0) == (0 + 0) % m);
    }
}

/// Law: interpolation is unique at zero. Two polynomials of degree below
/// the number of samples that agree at every sample point, where the
/// pairwise differences of the points are invertible, have the same
/// value at zero. Together with the exact combination formula in the
/// contracts of `interpolate_g1` and `interpolate_g2`, this pins the
/// reconstructed group element to the one determined by the unique
/// polynomial through the samples.
pub proof fn lemma_interpolation_unique_at_zero(f: Seq<nat>, g: Seq<nat>, xs: Seq<nat>,
    k: int)
    requires
        f.len() <= k,
        g.len() <= k,
        k <= xs.len(),
        forall|i: int| 0 <= i < k ==> xs[i] < fr_order(),
        forall|i: int| 0 <= i < k
            ==> poly_eval(f, #[trigger] xs[i]) == poly_eval(g, xs[i]),
        forall|i: int, j: int| 0 <= i < k && 0 <= j < k && i != j
            ==> #[trigger] diff_invertible(xs, i, j),
    ensures
        poly_eval(f, 0) == poly_eval(g, 0),
{
    let m = fr_order();
    let d = crate::poly::diff_coeffs(f, g);
    assert(d.len() <= k);
    assert forall|i: int| 0 <= i < k
        implies poly_eval(d, #[trigger] xs[i]) == 0 by {
        crate::poly::lemma_eval_of_diff(f, g, xs[i]);
        let dv = poly_eval(d, xs[i]);
        let gv = poly_eval(g, xs[i]);
        crate::poly::lemma_poly_eval_reduced(d, xs[i]);
        crate::poly::lemma_poly_eval_reduced(g, xs[i]);
        assert((dv + gv) % m == gv);
        crate::arith::lemma_mod_idempotent(dv);
        crate::arith::lemma_mod_idempotent(gv);
        if dv + gv < m {
            lemma_mod_small(dv + gv);
        } else {
            assert((dv + gv) % m == ((dv + gv - m) % (m as int)) as nat) by {
                vstd::arithmetic::div_mod::lemma_mod_multiples_vanish(
                    -1, dv + gv - m, m as int);
            }
            assert(0 <= dv + gv - m < m);
            vstd::arithmetic::div_mod::lemma_small_mod((dv + gv - m) as nat, m);
        }
    }
    lemma_vanishing_at_zero(d, xs, k);
    crate::poly::lemma_eval_of_diff(f, g, 0);
    crate::poly::lemma_poly_eval_reduced(g, 0);
    assert((0 + poly_eval(g, 0)) % m == poly_eval(f, 0));
}

/// The `i`-th Lagrange numerator polynomial: the product of the linear
/// factors `(x_j - X)` over the first `n` points other than the `i`-th.
pub open spec fn ell_coeffs(xs: Seq<nat>, i: int, n: int) -> Seq<nat>
    decreases n,
{
    if n <= 0 {
        seq![1nat]
    } else if n - 1 == i {
        ell_coeffs(xs, i, n - 1)
    } else {
        crate::poly::lin_mul(xs[n - 1], ell_coeffs(xs, i, n - 1))
    }
}

/// The numerator polynomial over `n` points has exactly `n` coefficients
/// when the skipped index is among them.
proof fn lemma_ell_len(xs: Seq<nat>, i: int, n: int)
    requires
        0 <= i,
    ensures
        ell_coeffs(xs, i, n).len() == if n <= 0 {
            1int
        } else if i < n {
            n
        } else {
            n + 1
        },
    decreases n,
{
    if n > 0 {
        lemma_ell_len(xs, i, n - 1);
    }
}

/// The numerator polynomial vanishes at every point other than its own.
proof fn lemma_ell_at_root(xs: Seq<nat>, i: int, n: int, t: int)
    requires
        0 <= t < xs.len(),
        t != i,
        n <= xs.len(),
        xs[t] < fr_order(),
    ensures
        t < n ==> poly_eval(ell_coeffs(xs, i, n), xs[t]) == 0,
    decreases n,
{
    let m = fr_order();
    if n <= 0 || t >= n {
    } else if n - 1 == i {
        lemma_ell_at_root(xs, i, n - 1, t);
    } else {
        let prev = ell_coeffs(xs, i, n - 1);
        crate::poly::lemma_eval_of_lin_mul(xs[n - 1], prev, xs[t]);
        lemma_mod_small(xs[t]);
        if n - 1 == t {
            // the factor at the point itself is zero
            assert(sub_mod(xs[t] % m, xs[t] % m) == 0) by {
                vstd::arithmetic::div_mod::lemma_mod_self_0(m as int);
            }
            assert(0 * poly_eval(prev, xs[t]) == 0) by (nonlinear_arith);
            lemma_mod_small(0);
        } else {
            lemma_ell_at_root(xs, i, n - 1, t);
            assert(sub_mod(xs[n - 1] % m, xs[t] % m) * 0 == 0) by (nonlinear_arith);
            lemma_mod_small(0);
        }
    }
}

/// At its own point, the numerator polynomial takes the value of the
/// Lagrange denominator.
proof fn lemma_ell_at_own(xs: Seq<nat>, i: int, n: int)
    requires
        0 <= i < xs.len(),
        n <= xs.len(),
        xs[i] < fr_order(),
        forall|j: int| 0 <= j < n ==> xs[j] < fr_order(),
    ensures
        poly_eval(ell_coeffs(xs, i, n), xs[i]) == denom_prod(xs, i, n) % fr_order(),
    decreases n,
{
    let m = fr_order();
    if n <= 0 {
        let one = seq![1nat];
        assert(one.drop_first().len() == 0);
        assert(poly_eval(one.drop_first(), xs[i]) == 0);
        assert(xs[i] * 0 == 0) by (nonlinear_arith);
        assert(poly_eval(one, xs[i]) == 1nat % m);
        lemma_mod_small(1);
    } else if n - 1 == i {
        lemma_ell_at_own(xs, i, n - 1);
        assert(denom_prod(xs, i, n) == denom_prod(xs, i, n - 1) * 1);
    } else {
        lemma_ell_at_own(xs, i, n - 1);
        let prev = ell_coeffs(xs, i, n - 1);
        crate::poly::lemma_eval_of_lin_mul(xs[n - 1], prev, xs[i]);
        lemma_mod_small(xs[i]);
        lemma_mod_small(xs[n - 1]);
        let f = sub_mod(xs[n - 1], xs[i]);
        let rest = denom_prod(xs, i, n - 1);
        // (f * (rest % m)) % m == (rest * f) % m
        lemma_mul_mod(rest, f);
        crate::arith::lemma_mul_comm(f, rest);
        assert((f * (rest % m)) % m == (f * rest) % m) by {
            lemma_mul_mod(rest, f);
            crate::arith::lemma_mul_comm(f, rest % m);
            crate::arith::lemma_mul_comm(f, rest);
            lemma_mul_mod(rest, f);
        }
        assert(denom_prod(xs, i, n) == rest * f);
    }
}

/// At zero, the numerator polynomial takes the value of the product of
/// the other points.
proof fn lemma_ell_at_zero(xs: Seq<nat>, i: int, n: int)
    requires
        n <= xs.len(),
        forall|j: int| 0 <= j < n ==> xs[j] < fr_order(),
    ensures
        poly_eval(ell_coeffs(xs, i, n), 0) == prod_except(xs, i, n) % fr_order(),
    decreases n,
{
    let m = fr_order();
    if n <= 0 {
        let one = seq![1nat];
        assert(one.drop_first().len() == 0);
        assert(poly_eval(one.drop_first(), 0) == 0);
        assert(poly_eval(one, 0) == 1nat % m);
        lemma_mod_small(1);
    } else if n - 1 == i {
        lemma_ell_at_zero(xs, i, n - 1);
        assert(prod_except(xs, i, n) == prod_except(xs, i, n - 1) * 1);
    } else {
        lemma_ell_at_zero(xs, i, n - 1);
        let prev = ell_coeffs(xs, i, n - 1);
        crate::poly::lemma_eval_of_lin_mul(xs[n - 1], prev, 0);
        lemma_mod_small(0);
        lemma_mod_small(xs[n - 1]);
        // the factor at zero is the point itself
        assert(sub_mod(xs[n - 1], 0) == xs[n - 1]) by {
            vstd::arithmetic::div_mod::lemma_mod_multiples_vanish(1, xs[n - 1] as int,
                m as int);
            lemma_mod_small(xs[n - 1]);
        }
        let f = xs[n - 1];
        let rest = prod_except(xs, i, n - 1);
        assert((f * (rest % m)) % m == (rest * f) % m) by {
            lemma_mul_mod(rest, f);
            crate::arith::lemma_mul_comm(f, rest % m);
            crate::arith::lemma_mul_comm(f, rest);
            lemma_mul_mod(rest, f);
        }
        assert(prod_except(xs, i, n) == rest * f);
    }
}

/// The weighted combination of the first `n` numerator polynomials: the
/// Lagrange interpolation polynomial once all `k` are in.
pub open spec fn lagrange_combo(xs: Seq<nat>, ys: Seq<nat>, k: int, n: int) -> Seq<nat>
    decreases n,
{
    if n <= 0 {
        Seq::empty()
    } else {
        crate::poly::sum_coeffs(
            lagrange_combo(xs, ys, k, n - 1),
            crate::poly::scale_coeffs(
                (ys[n - 1] * inv_mod(denom_prod(xs, n - 1, k) % fr_order())) % fr_order(),
                ell_coeffs(xs, n - 1, k),
            ),
        )
    }
}

/// The combination polynomial has at most `k` coefficients.
pub proof fn lemma_combo_len(xs: Seq<nat>, ys: Seq<nat>, k: int, n: int)
    requires
        0 < k,
        n <= k,
    ensures
        lagrange_combo(xs, ys, k, n).len() <= k,
    decreases n,
{
    if n > 0 {
        lemma_combo_len(xs, ys, k, n - 1);
        lemma_ell_len(xs, n - 1, k);
    }
}

/// At each sample point, the combination polynomial takes that sample's
/// value: its own term contributes the value, every other term vanishes.
pub proof fn lemma_combo_at_point(xs: Seq<nat>, ys: Seq<nat>, k: int, n: int, t: int)
    requires
        n <= k,
        k <= xs.len(),
        0 <= t < k,
        forall|j: int| 0 <= j < k ==> xs[j] < fr_order(),
        forall|j: int| 0 <= j < k ==> #[trigger] ys[j] < fr_order(),
        forall|j: int| 0 <= j < k ==> #[trigger] denom_invertible(xs, j, k),
    ensures
        poly_eval(lagrange_combo(xs, ys, k, n), xs[t]) == if t < n {
            ys[t]
        } else {
            0nat
        },
    decreases n,
{
    let m = fr_order();
    if n <= 0 {
    } else {
        lemma_combo_at_point(xs, ys, k, n - 1, t);
        let prev = lagrange_combo(xs, ys, k, n - 1);
        let d = denom_prod(xs, n - 1, k) % m;
        let c = (ys[n - 1] * inv_mod(d)) % m;
        let term = crate::poly::scale_coeffs(c, ell_coeffs(xs, n - 1, k));
        crate::poly::lemma_eval_of_sum(prev, term, xs[t]);
        crate::poly::lemma_eval_of_scale(c, ell_coeffs(xs, n - 1, k), xs[t]);
        if n - 1 == t {
            lemma_ell_at_own(xs, t, k);
            // c * (d % m) is congruent to ys[t] by the inverse property
            assert(denom_invertible(xs, t, k));
            let w = choose|w: nat| #[trigger] is_fr_inverse(d, w);
            crate::arith::lemma_inv_mod_unique(d, w);
            assert(is_fr_inverse(d, inv_mod(d)));
            assert((c * d) % m == ys[t]) by {
                // (ys inv) d == ys (inv d) == ys * 1
                lemma_mul_mod(ys[t] * inv_mod(d), d);
                assert((ys[t] * inv_mod(d)) * d == ys[t] * (inv_mod(d) * d)) by {
                    vstd::arithmetic::mul::lemma_mul_is_associative(ys[t] as int,
                        inv_mod(d) as int, d as int);
                }
                crate::arith::lemma_mul_comm(inv_mod(d), d);
                lemma_mul_mod(inv_mod(d) * d, ys[t]);
                crate::arith::lemma_mul_comm(ys[t], inv_mod(d) * d);
                crate::arith::lemma_mul_comm(ys[t], (inv_mod(d) * d) % m);
                assert((d * inv_mod(d)) % m == 1);
                assert((ys[t] * 1) % m == ys[t]) by {
                    lemma_mod_small(ys[t]);
                }
            }
            assert(poly_eval(term, xs[t]) == ys[t]);
            assert((0 + ys[t]) % m == ys[t]) by {
                lemma_mod_small(ys[t]);
            }
        } else {
            lemma_ell_at_root(xs, n - 1, k, t);
            assert(c * 0 == 0) by (nonlinear_arith);
            lemma_mod_small(0);
            assert(poly_eval(term, xs[t]) == 0);
            if t < n - 1 {
                assert((ys[t] + 0) % m == ys[t]) by {
                    lemma_mod_small(ys[t]);
                }
            } else {
                assert((0 + 0) % m == 0) by {
                    lemma_mod_small(0);
                }
            }
        }
    }
}

/// At zero, the combination polynomial takes exactly the weighted sum
/// that the interpolation computes.
proof fn lemma_combo_at_zero(xs: Seq<nat>, ys: Seq<nat>, k: int, n: int)
    requires
        n <= k,
        k == xs.len(),
        forall|j: int| 0 <= j < k ==> xs[j] < fr_order(),
    ensures
        poly_eval(lagrange_combo(xs, ys, k, n), 0) == lagrange_sum(xs, ys, n),
    decreases n,
{
    let m = fr_order();
    if n <= 0 {
    } else {
        lemma_combo_at_zero(xs, ys, k, n - 1);
        let prev = lagrange_combo(xs, ys, k, n - 1);
        let d = denom_prod(xs, n - 1, k) % m;
        let c = (ys[n - 1] * inv_mod(d)) % m;
        let term = crate::poly::scale_coeffs(c, ell_coeffs(xs, n - 1, k));
        crate::poly::lemma_eval_of_sum(prev, term, 0);
        crate::poly::lemma_eval_of_scale(c, ell_coeffs(xs, n - 1, k), 0);
        lemma_ell_at_zero(xs, n - 1, k);
        let p = prod_except(xs, n - 1, k);
        // the term's value at zero is the Lagrange weight times the sample
        assert(poly_eval(term, 0) == (lagrange_weight(xs, n - 1, k) * ys[n - 1]) % m) by {
            // (ys inv) p == (p inv) ys, all modulo m
            lemma_mul_mod(ys[n - 1] * inv_mod(d), p % m);
            lemma_mul_mod(ys[n - 1] * inv_mod(d), p);
            crate::arith::lemma_mul_comm(ys[n - 1] * inv_mod(d), p % m);
            crate::arith::lemma_mul_comm(ys[n - 1] * inv_mod(d), p);
            assert((ys[n - 1] * inv_mod(d)) * p == (p * inv_mod(d)) * ys[n - 1]) by {
                vstd::arithmetic::mul::lemma_mul_is_associative(ys[n - 1] as int,
                    inv_mod(d) as int, p as int);
                vstd::arithmetic::mul::lemma_mul_is_commutative(ys[n - 1] as int,
                    (inv_mod(d) * p) as int);
                vstd::arithmetic::mul::lemma_mul_is_associative(p as int, inv_mod(d) as int,
                    ys[n - 1] as int);
                vstd::arithmetic::mul::lemma_mul_is_commutative(inv_mod(d) as int, p as int);
            }
            lemma_mul_mod(p * inv_mod(d), ys[n - 1]);
        }
        // fold the reduced term back into the running sum
        lemma_add_mod(lagrange_sum(xs, ys, n - 1),
            (lagrange_weight(xs, n - 1, k) * ys[n - 1]) % m);
        lemma_add_mod(lagrange_sum(xs, ys, n - 1),
            lagrange_weight(xs, n - 1, k) * ys[n - 1]);
    }
}

/// Law: Lagrange interpolation reconstructs the polynomial's value at
/// zero. For any polynomial with at most `k` coefficients and any `k`
/// evaluation points below the order whose Lagrange denominators are
/// invertible, the weighted sum that `interpolate_g1` and
/// `interpolate_g2` compute from the polynomial's values at the points
/// equals the polynomial's value at zero. Together with the signing and
/// sharing contracts this is exact threshold reconstruction: any
/// `t + 1` shares combine to the master value.
pub proof fn lemma_lagrange_reconstructs(coeffs: Seq<nat>, xs: Seq<nat>, k: int)
    requires
        1 <= k,
        coeffs.len() <= k,
        xs.len() == k,
        forall|i: int| 0 <= i < k ==> xs[i] < fr_order(),
        forall|i: int| 0 <= i < k ==> #[trigger] denom_invertible(xs, i, k),
    ensures
        lagrange_sum(xs, Seq::new(k as nat, |i: int| poly_eval(coeffs, xs[i])), k)
            == poly_eval(coeffs, 0),
{
    let m = fr_order();
    let ys = Seq::new(k as nat, |i: int| poly_eval(coeffs, xs[i]));
    assert forall|j: int| 0 <= j < k implies #[trigger] ys[j] < m by {
        crate::poly::lemma_poly_eval_reduced(coeffs, xs[j]);
        crate::arith::lemma_mod_idempotent(poly_eval(coeffs, xs[j]));
    }
    let p = lagrange_combo(xs, ys, k, k);
    lemma_combo_len(xs, ys, k, k);
    assert forall|t: int| 0 <= t < k
        implies poly_eval(p, #[trigger] xs[t]) == poly_eval(coeffs, xs[t]) by {
        lemma_combo_at_point(xs, ys, k, k, t);
    }
    lemma_denominators_give_pairwise_inverses(xs, k);
    lemma_interpolation_unique_at_zero(coeffs, p, xs, k);
    lemma_combo_at_zero(xs, ys, k, k);
}

/// Law: threshold combination is exact. The shares of a secret
/// polynomial, each multiplied by a common factor — the hashed message
/// for signature shares, the ciphertext's `U` value for decryption
/// shares — combine by the interpolation formula to the master value:
/// the polynomial's value at zero times the same factor. Which `t + 1`
/// samples were chosen does not matter: any set of points with
/// invertible denominators yields the same master value.
pub proof fn lemma_threshold_reconstructs(coeffs: Seq<nat>, factor: nat, xs: Seq<nat>,
    k: int)
    requires
        1 <= k,
        coeffs.len() <= k,
        xs.len() == k,
        forall|i: int| 0 <= i < k ==> xs[i] < fr_order(),
        forall|i: int| 0 <= i < k ==> #[trigger] denom_invertible(xs, i, k),
    ensures
        lagrange_sum(xs,
            Seq::new(k as nat, |i: int| (poly_eval(coeffs, xs[i]) * factor) % fr_order()),
            k) == (poly_eval(coeffs, 0) * factor) % fr_order(),
{
    let m = fr_order();
    let scaled = crate::poly::scale_coeffs(factor, coeffs);
    lemma_lagrange_reconstructs(scaled, xs, k);
    let ys_scaled = Seq::new(k as nat, |i: int| poly_eval(scaled, xs[i]));
    let ys = Seq::new(k as nat, |i: int| (poly_eval(coeffs, xs[i]) * factor) % m);
    assert(ys_scaled =~= ys) by {
        assert forall|i: int| 0 <= i < k implies ys_scaled[i] == ys[i] by {
            crate::poly::lemma_eval_of_scale(factor, coeffs, xs[i]);
            crate::arith::lemma_mul_comm(factor, poly_eval(coeffs, xs[i]));
        }
    }
    crate::poly::lemma_eval_of_scale(factor, coeffs, 0);
    crate::arith::lemma_mul_comm(factor, poly_eval(coeffs, 0));
}

} // verus!
