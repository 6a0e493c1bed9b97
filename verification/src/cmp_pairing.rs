//! A total order on curve points: the lexicographic order of their
//! canonical compressed encodings.

use vstd::prelude::*;
use core::cmp::Ordering;
use bls12_381::G1Projective;
use crate::groups::{g1_compress, g1_to_compressed, g1_val};
use crate::fr_order;

verus! {

/// The lexicographic order of two byte strings of equal length: the first
/// differing byte decides.
pub open spec fn lex_ord(a: Seq<u8>, b: Seq<u8>) -> Ordering
    recommends
        a.len() == b.len(),
    decreases a.len(),
{
    if a.len() == 0 || b.len() == 0 {
        Ordering::Equal
    } else if a[0] < b[0] {
        Ordering::Less
    } else if a[0] > b[0] {
        Ordering::Greater
    } else {
        lex_ord(a.drop_first(), b.drop_first())
    }
}

/// Compares two `G1` elements by the lexicographic order of their
/// compressed encodings.
pub fn cmp_projective(x: &G1Projective, y: &G1Projective) -> (r: Ordering)
    ensures
        r == lex_ord(
            g1_compress(g1_val(*x) % fr_order()),
            g1_compress(g1_val(*y) % fr_order()),
        ),
{
    let xc = g1_to_compressed(x);
    let yc = g1_to_compressed(y);
    let ghost xs = g1_compress(g1_val(*x) % fr_order());
    let ghost ys = g1_compress(g1_val(*y) % fr_order());
    let mut i: usize = 0;
    proof {
        assert(xs.skip(0) =~= xs);
        assert(ys.skip(0) =~= ys);
    }
    while i < 48
        invariant
            xs == g1_compress(g1_val(*x) % fr_order()),
            ys == g1_compress(g1_val(*y) % fr_order()),
            xc@ == xs,
            yc@ == ys,
            xs.len() == 48,
            ys.len() == 48,
            i <= 48,
            lex_ord(xs, ys) == lex_ord(xs.skip(i as int), ys.skip(i as int)),
            forall|j: int| 0 <= j < i ==> xs[j] == ys[j],
        decreases 48 - i,
    {
        proof {
            assert(xs.skip(i as int)[0] == xs[i as int]);
            assert(ys.skip(i as int)[0] == ys[i as int]);
            assert(xs.skip(i as int).drop_first() =~= xs.skip(i + 1));
            assert(ys.skip(i as int).drop_first() =~= ys.skip(i + 1));
        }
        if xc[i] < yc[i] {
            let out = Ordering::Less;
            proof {
                assert(lex_ord(xs, ys) == Ordering::Less);
                assert(out == Ordering::Less);
                assert(out == lex_ord(xs, ys));
            }
            return out;
        }
        if xc[i] > yc[i] {
            proof {
                assert(lex_ord(xs.skip(i as int), ys.skip(i as int)) == Ordering::Greater);
                assert(lex_ord(xs, ys) == Ordering::Greater);
            }
            return Ordering::Greater;
        }
        i += 1;
    }
    proof {
        assert(xs.skip(48).len() == 0);
    }
    Ordering::Equal
}

} // verus!
