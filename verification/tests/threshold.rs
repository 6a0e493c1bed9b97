use std::collections::BTreeMap;

use bls12_381::Scalar;
use ff::Field;
use rand::Rng;
use threshold_crypto::poly::Poly;
use threshold_crypto::{
    interpolate_g1, DecryptionShare, Error, SecretKeySet, SecretKeyShare, SignatureShare,
};

#[test]
fn test_interpolate() {
    let mut rng = rand::thread_rng();
    for deg in 0..5 {
        println!("deg = {}", deg);
        let comm = Poly::random(deg, &mut rng).commitment();
        let mut values = Vec::new();
        let mut x: u64 = 0;
        for _ in 0..=deg {
            x += rng.gen_range(1..5);
            values.push((x - 1, comm.evaluate(x)));
        }
        let actual = interpolate_g1(deg, &values).expect("wrong number of values");
        assert_eq!(comm.evaluate(0u64), actual);
    }
}

#[test]
fn test_threshold_sig() {
    let mut rng = rand::thread_rng();
    let sk_set = SecretKeySet::random(3, &mut rng);
    let pk_set = sk_set.public_keys();
    let pk_master = pk_set.public_key();

    // Make sure the keys are different, and the first coefficient is the main key.
    assert_ne!(pk_master.to_bytes(), pk_set.public_key_share(0u64).to_bytes());
    assert_ne!(pk_master.to_bytes(), pk_set.public_key_share(1u64).to_bytes());
    assert_ne!(pk_master.to_bytes(), pk_set.public_key_share(2u64).to_bytes());

    let msg = "Totally real news";

    // Make sure we don't hand out the main secret key to anyone.
    let sk_master = sk_set.secret_key();
    let master_sig = sk_master.sign(msg.as_bytes());
    for i in 0..3u64 {
        let share_sig = sk_set.secret_key_share(i).sign(msg.as_bytes());
        assert!(master_sig != share_sig.0);
    }

    // The threshold is 3, so 4 signature shares will suffice to recreate the share.
    let sigs: BTreeMap<u64, SignatureShare> = [5, 8, 7, 10]
        .iter()
        .map(|&i| {
            let sig = sk_set.secret_key_share(i).sign(msg.as_bytes());
            (i, sig)
        })
        .collect();

    // Each of the shares is a valid signature matching its public key share.
    for (i, sig) in &sigs {
        assert!(pk_set.public_key_share(*i).verify(sig, msg.as_bytes()));
    }

    // Combined, they produce a signature matching the main public key.
    let sig_vec: Vec<(u64, SignatureShare)> =
        sigs.iter().map(|(i, s)| (*i, s.clone())).collect();
    let sig = pk_set.combine_signatures(&sig_vec).expect("signatures match");
    assert!(pk_set.public_key().verify(&sig, msg.as_bytes()));

    // A different set of signatories produces the same signature.
    let sigs2: Vec<(u64, SignatureShare)> = [42, 43, 44, 45]
        .iter()
        .map(|&i| {
            let sig = sk_set.secret_key_share(i).sign(msg.as_bytes());
            (i, sig)
        })
        .collect();
    let sig2 = pk_set.combine_signatures(&sigs2).expect("signatures match");
    assert!(sig == sig2);
}

#[test]
fn test_threshold_enc() {
    let mut rng = rand::thread_rng();
    let sk_set = SecretKeySet::random(3, &mut rng);
    let pk_set = sk_set.public_keys();
    let msg = b"Totally real news";
    let ciphertext = pk_set.public_key().encrypt(&msg[..]);

    // The threshold is 3, so 4 decryption shares will suffice to decrypt.
    let shares: BTreeMap<u64, DecryptionShare> = [5, 8, 7, 10]
        .iter()
        .map(|&i| {
            let dec_share = sk_set
                .secret_key_share(i)
                .decrypt_share(&ciphertext)
                .expect("ciphertext is invalid");
            (i, dec_share)
        })
        .collect();

    // Each of the shares is valid matching its public key share.
    for (i, share) in &shares {
        assert!(pk_set
            .public_key_share(*i)
            .verify_decryption_share(share, &ciphertext));
    }

    // Combined, they can decrypt the message.
    let share_vec: Vec<(u64, DecryptionShare)> =
        shares.iter().map(|(i, s)| (*i, s.clone())).collect();
    let decrypted = pk_set
        .decrypt(&share_vec, &ciphertext)
        .expect("decryption shares match");
    assert_eq!(msg[..], decrypted[..]);
}

#[test]
fn test_random_extreme_thresholds() {
    let mut rng = rand::thread_rng();
    let sks = SecretKeySet::random(0, &mut rng);
    assert_eq!(0, sks.threshold());
    let outcome = SecretKeySet::try_random(usize::MAX, &mut rng);
    assert!(outcome.is_err());
    assert_eq!(outcome.err().unwrap(), Error::DegreeTooHigh);
}

#[test]
fn test_insufficient_shares() {
    let mut rng = rand::thread_rng();
    let sk_set = SecretKeySet::random(3, &mut rng);
    let pk_set = sk_set.public_keys();
    let msg = b"too few";

    // Only 3 shares for threshold 3: combination must fail.
    let sigs: Vec<(u64, SignatureShare)> = [1, 2, 3]
        .iter()
        .map(|&i| (i, sk_set.secret_key_share(i).sign(&msg[..])))
        .collect();
    let err = pk_set.combine_signatures(&sigs).unwrap_err();
    assert_eq!(err, Error::NotEnoughShares);
}

#[test]
fn test_duplicate_share_indices() {
    let mut rng = rand::thread_rng();
    let sk_set = SecretKeySet::random(2, &mut rng);
    let pk_set = sk_set.public_keys();
    let msg = b"same signer twice";

    let sigs: Vec<(u64, SignatureShare)> = [4, 4, 6]
        .iter()
        .map(|&i| (i, sk_set.secret_key_share(i).sign(&msg[..])))
        .collect();
    let err = pk_set.combine_signatures(&sigs).unwrap_err();
    assert_eq!(err, Error::DuplicateEntry);
}

#[test]
fn test_combine_shares() {
    // Adding two secret key shares matches combining the two public key
    // shares.
    let mut rng = rand::thread_rng();
    let mut fr_a: Scalar = Scalar::random(&mut rng);
    let mut fr_b: Scalar = Scalar::random(&mut rng);
    let a = SecretKeyShare::from_mut(&mut fr_a);
    let b = SecretKeyShare::from_mut(&mut fr_b);
    let sum = a.add(&b);
    let combined = a.public_key_share().combine(b.public_key_share());
    assert_eq!(sum.public_key_share().to_bytes(), combined.to_bytes());
}

#[test]
fn test_combine_key_sets() {
    // Combining two public key sets adds the master public keys.
    let mut rng = rand::thread_rng();
    let set_a = SecretKeySet::random(2, &mut rng).public_keys();
    let set_b = SecretKeySet::random(2, &mut rng).public_keys();
    let joint = set_a.combine(set_b.clone());
    assert_eq!(joint.threshold(), 2);

    let lhs = threshold_crypto::PublicKeyShare::from_bytes(joint.public_key().to_bytes())
        .expect("valid bytes");
    let a_share = threshold_crypto::PublicKeyShare::from_bytes(set_a.public_key().to_bytes())
        .expect("valid bytes");
    let b_share = threshold_crypto::PublicKeyShare::from_bytes(set_b.public_key().to_bytes())
        .expect("valid bytes");
    let rhs = a_share.combine(b_share);
    assert_eq!(lhs.to_bytes(), rhs.to_bytes());
    assert!(joint.matches(&joint));
    assert!(!joint.matches(&set_a));
}

#[test]
fn test_master_secret_signs_like_combined() {
    // The master secret key's signature is what any t + 1 shares combine
    // to.
    let mut rng = rand::thread_rng();
    let sk_set = SecretKeySet::random(1, &mut rng);
    let pk_set = sk_set.public_keys();
    let msg = b"one master";
    let sigs: Vec<(u64, SignatureShare)> = [0, 1]
        .iter()
        .map(|&i| (i, sk_set.secret_key_share(i).sign(&msg[..])))
        .collect();
    let combined = pk_set.combine_signatures(&sigs).expect("enough shares");
    let direct = sk_set.secret_key().sign(&msg[..]);
    assert!(combined == direct);
}
