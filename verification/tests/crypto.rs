use bls12_381::{G2Affine, Scalar};
use ff::Field;
use rand::SeedableRng;
use rand_chacha::ChaChaRng;
use threshold_crypto::{Ciphertext, Error, PublicKey, SecretKey, Signature, PK_SIZE, SIG_SIZE};
use threshold_crypto::fr::scalar_clear;

#[test]
fn test_simple_sig() {
    let sk0 = SecretKey::random();
    let sk1 = SecretKey::random();
    let pk0 = sk0.public_key();
    let msg0 = b"Real news";
    let msg1 = b"Fake news";
    assert!(pk0.verify(&sk0.sign(&msg0[..]), &msg0[..]));
    assert!(!pk0.verify(&sk1.sign(&msg0[..]), &msg0[..])); // Wrong key.
    assert!(!pk0.verify(&sk0.sign(&msg1[..]), &msg0[..])); // Wrong message.
}

#[test]
fn test_simple_enc() {
    let sk_bob = SecretKey::random();
    let sk_eve = SecretKey::random();
    let pk_bob = sk_bob.public_key();
    println!("pk_bob = {}", pk_bob.reveal_value());
    let msg = b"Muffins in the canteen today! Don't tell Eve!";
    let ciphertext = pk_bob.encrypt(&msg[..]);
    assert!(ciphertext.verify());

    // Bob can decrypt the message.
    let decrypted = sk_bob.decrypt(&ciphertext).expect("invalid ciphertext");
    assert_eq!(msg[..], decrypted[..]);

    // Eve can't.
    let decrypted_eve = sk_eve.decrypt(&ciphertext).expect("invalid ciphertext");
    assert_ne!(msg[..], decrypted_eve[..]);

    // Eve tries to trick Bob into decrypting `msg` xor `v`, but it doesn't validate.
    let Ciphertext(u, v, w) = ciphertext;
    let fake_ciphertext = Ciphertext(u, vec![0; v.len()], w);
    assert!(!fake_ciphertext.verify());
    assert_eq!(None, sk_bob.decrypt(&fake_ciphertext));
}

#[test]
fn test_from_to_bytes() {
    let sk = SecretKey::random();
    let sig = sk.sign("Please sign here: ______".as_bytes());
    let pk = sk.public_key();
    let pk2 = PublicKey::from_bytes(pk.to_bytes()).expect("invalid pk representation");
    assert_eq!(pk, pk2);
    let sig2 = Signature::from_bytes(sig.to_bytes()).expect("invalid sig representation");
    assert_eq!(sig, sig2);
}

#[test]
fn test_size() {
    let sk = SecretKey::random();
    assert_eq!(sk.public_key().to_bytes().len(), PK_SIZE);
    assert_eq!(sk.sign(&b"size"[..]).to_bytes().len(), SIG_SIZE);
}

#[test]
fn test_zeroize() {
    let zero_sk = SecretKey::from_mut(&mut Scalar::zero());

    let mut sk = SecretKey::random();
    assert!(zero_sk != sk);

    sk.zeroize();
    assert!(zero_sk == sk);
}

#[test]
fn test_rng_seed() {
    let sk1 = SecretKey::random();
    let sk2 = SecretKey::random();

    assert!(sk1 != sk2);
    let mut seed = [0u8; 32];
    rand::RngCore::fill_bytes(&mut rand::thread_rng(), &mut seed);

    let mut rng = ChaChaRng::from_seed(seed);
    let sk3 = SecretKey::sample(&mut rng);

    let mut rng = ChaChaRng::from_seed(seed);
    let sk4 = SecretKey::sample(&mut rng);
    assert!(sk3 == sk4);
}

#[test]
fn test_clear() {
    let mut rng = rand::thread_rng();

    let mut fr: Scalar = Scalar::random(&mut rng);
    assert_ne!(fr, Scalar::zero());

    scalar_clear(&mut fr);
    assert_eq!(fr, Scalar::zero());
}

#[test]
fn test_invalid_bytes_rejected() {
    // 0xFF everywhere is not a valid compressed encoding of either group.
    let bad_pk = PublicKey::from_bytes([0xFF; PK_SIZE]);
    assert_eq!(bad_pk.unwrap_err(), Error::InvalidBytes);
    let bad_sig = Signature::from_bytes([0xFF; SIG_SIZE]);
    assert_eq!(bad_sig.unwrap_err(), Error::InvalidBytes);
}

#[test]
fn test_tampered_ciphertext_rejected() {
    let sk = SecretKey::random();
    let pk = sk.public_key();
    let ct = pk.encrypt(&b"tamper with me"[..]);
    assert!(ct.verify());
    let Ciphertext(u, v, _w) = ct;

    // Replacing W with an unrelated point fails the pairing check.
    let other = pk.encrypt(&b"tamper with me"[..]);
    let Ciphertext(_u2, _v2, w2) = other;
    let forged = Ciphertext(u, v, w2);
    assert!(!forged.verify());
    assert_eq!(None, sk.decrypt(&forged));
}

#[test]
fn test_empty_message_roundtrip() {
    let sk = SecretKey::random();
    let pk = sk.public_key();
    let ct = pk.encrypt(&b""[..]);
    assert!(ct.verify());
    let decrypted = sk.decrypt(&ct).expect("invalid ciphertext");
    assert!(decrypted.is_empty());
}

#[test]
fn test_parity_matches_uncompressed() {
    let sk = SecretKey::random();
    let sig = sk.sign(&b"coin flip"[..]);
    let affine: G2Affine = G2Affine::from_compressed(&sig.to_bytes()).unwrap();
    let uncomp = affine.to_uncompressed();
    let xor_byte: u8 = uncomp.iter().fold(0, |acc, b| acc ^ b);
    let expected = xor_byte.count_ones() % 2 == 1;
    assert_eq!(sig.parity(), expected);
}

#[test]
fn test_default_key_is_zero() {
    let d = SecretKey::default();
    let z = SecretKey::from_mut(&mut Scalar::zero());
    assert!(d == z);
    assert_eq!(Error::DegreeTooHigh.message(), "degree too high");
}
