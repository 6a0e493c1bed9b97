use bls12_381::{G1Projective, Scalar};
use group::Group;
use rand::distributions::Standard;
use rand::Rng;
use threshold_crypto::poly::{BivarPoly, Poly};
use threshold_crypto::{cmp_projective, hash_g1_g2, hash_g2, xor_with_hash};

#[test]
fn test_poly_arithmetic() {
    // p = 1 + 2x, q = 3 + x; p * q = 3 + 7x + 2x^2.
    let one = Poly::constant(Scalar::from(1));
    let two_x = Poly::constant(Scalar::from(2)).mul(&Poly::identity());
    let p = one.add(&two_x);
    let q = Poly::constant(Scalar::from(3)).add(&Poly::identity());
    let product = p.mul(&q);
    assert_eq!(product.degree(), 2);
    // At x = 5: (1 + 10) * (3 + 5) = 88.
    assert_eq!(product.evaluate(5u64), Scalar::from(88));
    // Subtracting the product from itself gives the zero polynomial.
    let zero = product.sub(&product);
    assert_eq!(zero.degree(), 0);
    assert_eq!(zero.evaluate(5u64), Scalar::zero());
    // The monomial x^3 evaluates to 27 at 3.
    assert_eq!(Poly::monomial(3).evaluate(3u64), Scalar::from(27));
    assert_eq!(Poly::zero().evaluate(7u64), Scalar::zero());
}

#[test]
fn test_poly_interpolate() {
    // The polynomial through (1, 1), (2, 4), (3, 9) of degree 2 is x^2.
    let samples: Vec<(u64, u64)> = vec![(1, 1), (2, 4), (3, 9)];
    let p = Poly::interpolate(&samples).expect("distinct points");
    assert_eq!(p.degree(), 2);
    assert_eq!(p.evaluate(0u64), Scalar::zero());
    assert_eq!(p.evaluate(5u64), Scalar::from(25));
    assert_eq!(p.evaluate(7u64), Scalar::from(49));

    // A repeated x value is a duplicate entry.
    let bad: Vec<(u64, u64)> = vec![(1, 1), (1, 2)];
    assert!(Poly::interpolate(&bad).is_err());

    // A random polynomial is recovered from enough of its values.
    let mut rng = rand::thread_rng();
    let q = Poly::random(3, &mut rng);
    let pts: Vec<(u64, Scalar)> = (0..4u64).map(|x| (x, q.evaluate(x))).collect();
    let q2 = Poly::interpolate(&pts).expect("distinct points");
    for x in [0u64, 9, 100] {
        assert_eq!(q2.evaluate(x), q.evaluate(x));
    }
}

#[test]
fn test_poly_zeroize() {
    let mut rng = rand::thread_rng();
    let mut p = Poly::random(3, &mut rng);
    p.zeroize();
    assert_eq!(p.evaluate(5u64), Scalar::zero());
}

#[test]
fn test_commitment_matches_poly() {
    let mut rng = rand::thread_rng();
    let p = Poly::random(4, &mut rng);
    let c = p.commitment();
    assert_eq!(c.degree(), 4);
    // The committed evaluation is the scalar evaluation times the
    // generator, at several points.
    for x in [0u64, 1, 17, 1000] {
        let lhs = c.evaluate(x);
        let rhs = G1Projective::generator() * p.evaluate(x);
        assert_eq!(lhs, rhs);
    }
}

#[test]
fn test_bivar_symmetry() {
    let mut rng = rand::thread_rng();
    let f = BivarPoly::random(3, &mut rng);
    for (a, b) in [(0u64, 1u64), (2, 5), (7, 7), (12, 3)] {
        assert_eq!(f.evaluate(a, b), f.evaluate(b, a));
    }
}

#[test]
fn test_bivar_rows() {
    let mut rng = rand::thread_rng();
    let f = BivarPoly::random(2, &mut rng);
    // The row polynomial at x agrees with direct evaluation.
    for x in [1u64, 4, 9] {
        let row = f.row(x);
        for y in [0u64, 3, 8] {
            assert_eq!(row.evaluate(y), f.evaluate(x, y));
        }
    }
    // The committed row matches the secret row's commitment.
    let commit = f.commitment();
    assert_eq!(commit.degree(), 2);
    for x in [1u64, 4] {
        let row_commit = commit.row(x);
        let expected = f.row(x).commitment();
        for y in [0u64, 5] {
            assert_eq!(row_commit.evaluate(y), expected.evaluate(y));
        }
    }
    // Evaluating the commitment matches the secret evaluation in G1.
    for (a, b) in [(1u64, 2u64), (6, 0)] {
        assert_eq!(
            commit.evaluate(a, b),
            G1Projective::generator() * f.evaluate(a, b)
        );
    }
}

#[test]
fn test_hash_g2() {
    let rng = rand::thread_rng();
    let msg: Vec<u8> = rng.sample_iter(&Standard).take(1000).collect();
    let msg_end0: Vec<u8> = msg.iter().chain(b"end0").cloned().collect();
    let msg_end1: Vec<u8> = msg.iter().chain(b"end1").cloned().collect();

    assert_eq!(hash_g2(&msg), hash_g2(&msg));
    assert_ne!(hash_g2(&msg), hash_g2(&msg_end0));
    assert_ne!(hash_g2(&msg_end0), hash_g2(&msg_end1));
}

#[test]
fn test_hash_g1_g2() {
    let mut rng = rand::thread_rng();
    let msg: Vec<u8> = (&mut rng).sample_iter(&Standard).take(1000).collect();
    let msg_end0: Vec<u8> = msg.iter().chain(b"end0").cloned().collect();
    let msg_end1: Vec<u8> = msg.iter().chain(b"end1").cloned().collect();
    let g0 = G1Projective::random(&mut rng);
    let g1 = G1Projective::random(&mut rng);

    assert_eq!(hash_g1_g2(&g0, &msg), hash_g1_g2(&g0, &msg));
    assert_ne!(hash_g1_g2(&g0, &msg), hash_g1_g2(&g0, &msg_end0));
    assert_ne!(hash_g1_g2(&g0, &msg_end0), hash_g1_g2(&g0, &msg_end1));
    assert_ne!(hash_g1_g2(&g0, &msg), hash_g1_g2(&g1, &msg));
}

#[test]
fn test_xor_with_hash() {
    let mut rng = rand::thread_rng();
    let g0 = G1Projective::random(&mut rng);
    let g1 = G1Projective::random(&mut rng);
    assert_eq!(xor_with_hash(&g0, &[0; 5]), xor_with_hash(&g0, &[0; 5]));
    assert_ne!(xor_with_hash(&g0, &[0; 5]), xor_with_hash(&g1, &[0; 5]));
    assert_eq!(5, xor_with_hash(&g0, &[0; 5]).len());
    assert_eq!(6, xor_with_hash(&g0, &[0; 6]).len());
    assert_eq!(20, xor_with_hash(&g0, &[0; 20]).len());
    // The mask stream is not the identity: xoring zeroes must not return
    // zeroes.
    assert_ne!(xor_with_hash(&g0, &[0; 20]), vec![0u8; 20]);
}

#[test]
fn test_cmp_projective_matches_encodings() {
    let mut rng = rand::thread_rng();
    let a = G1Projective::random(&mut rng);
    let b = G1Projective::random(&mut rng);
    let expected = bls12_381::G1Affine::from(a)
        .to_compressed()
        .cmp(&bls12_381::G1Affine::from(b).to_compressed());
    assert_eq!(cmp_projective(&a, &b), expected);
    assert_eq!(cmp_projective(&a, &a), std::cmp::Ordering::Equal);
}
