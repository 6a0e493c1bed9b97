//! Keys, signatures and ciphertexts of the BLS cryptosystem, with the
//! threshold key material built on top of them.
//!
//! Specifications speak of the generator multiple of each point (its
//! `spec_val`), reduced modulo the group order [`fr_order()`]: signing
//! multiplies the hashed message by the secret scalar, verification checks
//! the matching pairing equation on those multiples, and encryption follows
//! the same discipline through [`crate::hashes::xor_with_hash_val`].

use vstd::prelude::*;
use vstd::std_specs::cmp::PartialEqSpec;
use bls12_381::{G1Projective, G2Projective, Scalar};
use crate::arith::{lemma_mod_idempotent, lemma_mod_small, lemma_mul_comm, lemma_mul_mod};
use crate::error::Error;
use crate::fr::{scalar_add, scalar_clear, scalar_eq, scalar_one, scalar_random, scalar_val,
    scalar_zero, IntoFr};
use crate::groups::{
    g1_compress, g1_from_compressed, g1_generator, g1_mul, g1_to_compressed, g1_val,
    g2_compress, g2_from_compressed, g2_mul, g2_to_compressed, g2_val, gt_eq, os_rng,
    pairing_points,
};
use crate::hashes::{hash_g1_g2, hash_g1_g2_val, hash_g2, hash_g2_val, xor_with_hash,
    xor_with_hash_val};
use crate::poly::{poly_eval, spec_degree, Commitment, Poly};
use crate::{fr_order, PK_SIZE, SIG_SIZE};

verus! {

/// A public key: a point of `G1`.
#[derive(Clone, Copy, Debug)]
pub struct PublicKey(pub(crate) G1Projective);

impl PublicKey {
    /// The multiple of the `G1` generator that this key is.
    pub closed spec fn spec_val(&self) -> nat {
        g1_val(self.0) % fr_order()
    }

    /// The value of a public key is always below the group order.
    pub proof fn lemma_val_bound(&self)
        ensures
            self.spec_val() < fr_order(),
    {
        lemma_mod_idempotent(g1_val(self.0));
    }

    /// Returns `true` if the signature matches the element of `G2`.
    pub fn verify_g2(&self, sig: &Signature, hash: &G2Projective) -> (r: bool)
        ensures
            r == (sig.spec_val() == (self.spec_val() * g2_val(*hash)) % fr_order()),
    {
        let lhs = pairing_points(&g1_generator(), &sig.0);
        let rhs = pairing_points(&self.0, hash);
        proof {
            lemma_mod_idempotent(g2_val(sig.0));
            lemma_mul_mod(g1_val(self.0), g2_val(*hash));
        }
        gt_eq(&lhs, &rhs)
    }

    /// Returns `true` if the signature matches the message.
    ///
    /// This is equivalent to `verify_g2(sig, hash_g2(msg))`.
    pub fn verify(&self, sig: &Signature, msg: &[u8]) -> (r: bool)
        ensures
            r == (sig.spec_val() == (self.spec_val() * hash_g2_val(msg@)) % fr_order()),
    {
        let hash = hash_g2(msg);
        self.verify_g2(sig, &hash)
    }

    /// Returns the key with the given representation, if valid.
    pub fn from_bytes(bytes: [u8; PK_SIZE]) -> (r: Result<PublicKey, Error>)
        ensures
            match r {
                Ok(pk) => bytes@ == g1_compress(pk.spec_val()),
                Err(e) => e == Error::InvalidBytes
                    && forall|v: nat| v < fr_order() ==> bytes@ != g1_compress(v),
            },
            forall|v: nat| v < fr_order() && bytes@ == g1_compress(v)
                ==> r is Ok && r->Ok_0.spec_val() == v,
    {
        match g1_from_compressed(&bytes) {
            Some(p) => {
                proof {
                    lemma_mod_small(g1_val(p));
                }
                Ok(PublicKey(p))
            },
            None => Err(Error::InvalidBytes),
        }
    }

    /// Returns a byte string representation of the public key.
    pub fn to_bytes(&self) -> (r: [u8; PK_SIZE])
        ensures
            r@ == g1_compress(self.spec_val()),
    {
        g1_to_compressed(&self.0)
    }

    /// Relies on `Debug for G1Projective`: generates a non-redacted debug
    /// string.
    #[verifier::external_body]
    pub fn reveal_value(&self) -> String {
        format!("PublicKey({:?})", self.0)
    }
}

impl PartialEq for PublicKey {
    fn eq(&self, other: &PublicKey) -> (r: bool) {
        proof {
            lemma_mod_idempotent(g1_val(self.0));
            lemma_mod_idempotent(g1_val(other.0));
        }
        crate::groups::g1_eq(&self.0, &other.0)
    }
}

impl vstd::std_specs::cmp::PartialEqSpecImpl for PublicKey {
    open spec fn obeys_eq_spec() -> bool {
        true
    }

    closed spec fn eq_spec(&self, other: &PublicKey) -> bool {
        self.spec_val() == other.spec_val()
    }
}

impl Eq for PublicKey {}

/// A signature: a point of `G2`.
#[derive(Clone, Debug)]
pub struct Signature(pub(crate) G2Projective);

impl Signature {
    /// The multiple of the `G2` generator that this signature is.
    pub closed spec fn spec_val(&self) -> nat {
        g2_val(self.0) % fr_order()
    }

    /// The value of a signature is always below the group order.
    pub proof fn lemma_val_bound(&self)
        ensures
            self.spec_val() < fr_order(),
    {
        lemma_mod_idempotent(g2_val(self.0));
    }

    /// Returns the signature with the given representation, if valid.
    pub fn from_bytes(bytes: [u8; SIG_SIZE]) -> (r: Result<Signature, Error>)
        ensures
            match r {
                Ok(sig) => bytes@ == g2_compress(sig.spec_val()),
                Err(e) => e == Error::InvalidBytes
                    && forall|v: nat| v < fr_order() ==> bytes@ != g2_compress(v),
            },
            forall|v: nat| v < fr_order() && bytes@ == g2_compress(v)
                ==> r is Ok && r->Ok_0.spec_val() == v,
    {
        match g2_from_compressed(&bytes) {
            Some(p) => {
                proof {
                    lemma_mod_small(g2_val(p));
                }
                Ok(Signature(p))
            },
            None => Err(Error::InvalidBytes),
        }
    }

    /// Returns a byte string representation of the signature.
    pub fn to_bytes(&self) -> (r: [u8; SIG_SIZE])
        ensures
            r@ == g2_compress(self.spec_val()),
    {
        g2_to_compressed(&self.0)
    }

    /// Returns `true` if the uncompressed representation of the signature
    /// contains an odd number of one bits. Applications use this bit as a
    /// shared, unpredictable coin.
    pub fn parity(&self) -> (r: bool)
        ensures
            r == odd_parity(xor_fold(crate::groups::g2_uncompress(self.spec_val()))),
    {
        let uncomp = crate::groups::g2_to_uncompressed(&self.0);
        let ghost bytes = crate::groups::g2_uncompress(self.spec_val());
        let mut acc: u8 = 0;
        let mut i: usize = 0;
        while i < 192
            invariant
                uncomp@ == bytes,
                uncomp@.len() == 192,
                i <= 192,
                acc == xor_fold(bytes.take(i as int)),
            decreases 192 - i,
        {
            proof {
                assert(bytes.take(i + 1).drop_last() =~= bytes.take(i as int));
                assert(bytes.take(i + 1).last() == bytes[i as int]);
            }
            acc = acc ^ uncomp[i];
            i += 1;
        }
        proof {
            assert(bytes.take(192) =~= bytes);
        }
        let folded = (acc >> 7) ^ (acc >> 6) ^ (acc >> 5) ^ (acc >> 4) ^ (acc >> 3)
            ^ (acc >> 2) ^ (acc >> 1) ^ acc;
        folded & 1 == 1
    }
}

/// The xor of all bytes of a byte string.
pub open spec fn xor_fold(s: Seq<u8>) -> u8
    decreases s.len(),
{
    if s.len() == 0 {
        0
    } else {
        xor_fold(s.drop_last()) ^ s.last()
    }
}

/// Whether a byte has an odd number of one bits: the xor of its bits.
pub open spec fn odd_parity(b: u8) -> bool {
    ((b >> 7) ^ (b >> 6) ^ (b >> 5) ^ (b >> 4) ^ (b >> 3) ^ (b >> 2) ^ (b >> 1) ^ b) & 1 == 1
}

impl PartialEq for Signature {
    fn eq(&self, other: &Signature) -> (r: bool) {
        proof {
            lemma_mod_idempotent(g2_val(self.0));
            lemma_mod_idempotent(g2_val(other.0));
        }
        crate::groups::g2_eq(&self.0, &other.0)
    }
}

impl vstd::std_specs::cmp::PartialEqSpecImpl for Signature {
    open spec fn obeys_eq_spec() -> bool {
        true
    }

    closed spec fn eq_spec(&self, other: &Signature) -> bool {
        self.spec_val() == other.spec_val()
    }
}

impl Eq for Signature {}

/// A secret key: a scalar of the field `F_r`. Its scalar is overwritten
/// with zero when the key is dropped or explicitly zeroized.
#[derive(Clone)]
pub struct SecretKey(pub(crate) Scalar);

impl SecretKey {
    /// The field element that this key is.
    pub closed spec fn spec_val(&self) -> nat {
        scalar_val(self.0) % fr_order()
    }

    /// Whether the key's scalar has been overwritten with zero.
    pub closed spec fn is_zeroed(&self) -> bool {
        scalar_val(self.0) == 0
    }

    /// Creates a new `SecretKey` from a mutable reference to a field
    /// element, and overwrites the referenced element with zero, so that
    /// the caller's copy of the secret is gone.
    pub fn from_mut(fr: &mut Scalar) -> (r: Self)
        ensures
            r.spec_val() == scalar_val(*old(fr)) % fr_order(),
            scalar_val(*old(fr)) == 0 ==> r.is_zeroed(),
            scalar_val(*final(fr)) == 0,
    {
        let sk = SecretKey(*fr);
        scalar_clear(fr);
        sk
    }

    /// Creates a new random instance of `SecretKey`, from the operating
    /// system's random number generator.
    pub fn random() -> Self {
        let mut rng = os_rng();
        SecretKey(scalar_random(&mut rng))
    }

    /// Creates a new random instance of `SecretKey` from the given random
    /// number generator.
    pub fn sample<R: rand::RngCore>(rng: &mut R) -> Self {
        SecretKey(scalar_random(rng))
    }

    /// Returns the matching public key.
    pub fn public_key(&self) -> (r: PublicKey)
        ensures
            r.spec_val() == self.spec_val(),
    {
        let pk = g1_mul(&g1_generator(), &self.0);
        proof {
            lemma_mod_idempotent(scalar_val(self.0));
        }
        PublicKey(pk)
    }

    /// Signs the given element of `G2`.
    pub fn sign_g2(&self, hash: &G2Projective) -> (r: Signature)
        ensures
            r.spec_val() == (self.spec_val() * g2_val(*hash)) % fr_order(),
    {
        let p = g2_mul(hash, &self.0);
        proof {
            lemma_mod_idempotent(g2_val(*hash) * scalar_val(self.0));
            lemma_mul_comm(g2_val(*hash), scalar_val(self.0));
            lemma_mul_mod(scalar_val(self.0), g2_val(*hash));
        }
        Signature(p)
    }

    /// Signs the given message.
    ///
    /// This is equivalent to `sign_g2(hash_g2(msg))`.
    pub fn sign(&self, msg: &[u8]) -> (r: Signature)
        ensures
            r.spec_val() == (self.spec_val() * hash_g2_val(msg@)) % fr_order(),
    {
        let hash = hash_g2(msg);
        self.sign_g2(&hash)
    }

    /// Overwrites the key's scalar with zero.
    pub fn zeroize(&mut self)
        ensures
            final(self).is_zeroed(),
            final(self).spec_val() == 0,
    {
        scalar_clear(&mut self.0);
        proof {
            lemma_mod_small(0);
        }
    }

    /// Relies on `Debug for Scalar`: generates a non-redacted debug string.
    /// This deliberately leaks the secret field element.
    #[verifier::external_body]
    pub fn reveal_value(&self) -> String {
        format!("SecretKey({:?})", self.0)
    }
}

impl PartialEq for SecretKey {
    fn eq(&self, other: &SecretKey) -> (r: bool) {
        scalar_eq(&self.0, &other.0)
    }
}

impl vstd::std_specs::cmp::PartialEqSpecImpl for SecretKey {
    open spec fn obeys_eq_spec() -> bool {
        true
    }

    closed spec fn eq_spec(&self, other: &SecretKey) -> bool {
        self.spec_val() == other.spec_val()
    }
}

impl Eq for SecretKey {}

/// Overwrites the key's scalar with zero when the key goes out of scope.
impl Drop for SecretKey {
    fn drop(&mut self)
        opens_invariants none
        no_unwind
    {
        scalar_clear(&mut self.0);
    }
}

/// Creates a `SecretKey` containing the zero field element.
impl Default for SecretKey {
    fn default() -> (r: Self)
        ensures
            r.is_zeroed(),
            r.spec_val() == 0,
    {
        let mut fr = scalar_zero();
        let sk = SecretKey::from_mut(&mut fr);
        proof {
            lemma_mod_small(0);
        }
        sk
    }
}

/// An encrypted message: a point `U` of `G1`, masked bytes `V`, and a
/// point `W` of `G2` that ties the two together against chosen-ciphertext
/// tampering.
#[derive(Debug)]
pub struct Ciphertext(pub G1Projective, pub Vec<u8>, pub G2Projective);

impl Ciphertext {
    /// The generator multiple of the ciphertext's `U` component.
    pub closed spec fn u_val(&self) -> nat {
        g1_val(self.0) % fr_order()
    }

    /// The masked payload bytes `V`.
    pub closed spec fn v_bytes(&self) -> Seq<u8> {
        self.1@
    }

    /// The generator multiple of the ciphertext's `W` component.
    pub closed spec fn w_val(&self) -> nat {
        g2_val(self.2) % fr_order()
    }

    /// The pairing equation that an untampered ciphertext satisfies:
    /// `W` is the `U`-multiple of the hash of `(U, V)` in `G2`.
    pub open spec fn is_valid(&self) -> bool {
        self.w_val() == (self.u_val() * hash_g1_g2_val(self.u_val(), self.v_bytes()))
            % fr_order()
    }

    /// What it means for this ciphertext to encrypt the message `m` under
    /// a public key of value `pk`: some scalar `k` was drawn, `U` is the
    /// `k`-th multiple of the generator, `V` is `m` xored with the mask
    /// stream of the `k`-th multiple of the public key, and `W` binds them.
    pub open spec fn encrypted_with(&self, m: Seq<u8>, pk: nat, k: nat) -> bool {
        k < fr_order() && self.u_val() == k
            && self.v_bytes() == xor_with_hash_val((pk * k) % fr_order(), m)
            && self.w_val() == (k * hash_g1_g2_val(self.u_val(), self.v_bytes()))
            % fr_order()
    }

    pub open spec fn is_encryption_of(&self, m: Seq<u8>, pk: nat) -> bool {
        exists|k: nat| self.encrypted_with(m, pk, k)
    }

    /// Returns `true` if this is a valid ciphertext. This check is
    /// necessary to prevent chosen-ciphertext attacks.
    pub fn verify(&self) -> (r: bool)
        ensures
            r == self.is_valid(),
    {
        let hash = hash_g1_g2(&self.0, self.1.as_slice());
        let lhs = pairing_points(&g1_generator(), &self.2);
        let rhs = pairing_points(&self.0, &hash);
        proof {
            lemma_mod_idempotent(g2_val(self.2));
            lemma_mul_mod(g1_val(self.0), g2_val(hash));
        }
        gt_eq(&lhs, &rhs)
    }
}

impl PartialEq for Ciphertext {
    fn eq(&self, other: &Ciphertext) -> (r: bool) {
        proof {
            lemma_mod_idempotent(g1_val(self.0));
            lemma_mod_idempotent(g1_val(other.0));
            lemma_mod_idempotent(g2_val(self.2));
            lemma_mod_idempotent(g2_val(other.2));
        }
        crate::groups::g1_eq(&self.0, &other.0) && byte_vecs_eq(&self.1, &other.1)
            && crate::groups::g2_eq(&self.2, &other.2)
    }
}

impl vstd::std_specs::cmp::PartialEqSpecImpl for Ciphertext {
    open spec fn obeys_eq_spec() -> bool {
        true
    }

    closed spec fn eq_spec(&self, other: &Ciphertext) -> bool {
        self.u_val() == other.u_val() && self.v_bytes() == other.v_bytes()
            && self.w_val() == other.w_val()
    }
}

impl Eq for Ciphertext {}

/// Compares two byte vectors element by element.
fn byte_vecs_eq(a: &Vec<u8>, b: &Vec<u8>) -> (r: bool)
    ensures
        r == (a@ == b@),
{
    if a.len() != b.len() {
        proof {
            assert(a@.len() != b@.len());
        }
        return false;
    }
    let mut i: usize = 0;
    while i < a.len()
        invariant
            a@.len() == b@.len(),
            i <= a@.len(),
            forall|j: int| 0 <= j < i ==> a@[j] == b@[j],
        decreases a@.len() - i,
    {
        if a[i] != b[i] {
            return false;
        }
        i += 1;
    }
    proof {
        assert(a@ =~= b@);
    }
    true
}

impl PublicKey {
    /// Encrypts the message with randomness from the operating system's
    /// random number generator.
    pub fn encrypt(&self, msg: &[u8]) -> (r: Ciphertext)
        ensures
            r.is_encryption_of(msg@, self.spec_val()),
            r.v_bytes().len() == msg@.len(),
    {
        let mut rng = os_rng();
        self.encrypt_with_rng(&mut rng, msg)
    }

    /// Encrypts the message with randomness from the given generator.
    pub fn encrypt_with_rng<R: rand::RngCore>(&self, rng: &mut R, msg: &[u8]) -> (r: Ciphertext)
        ensures
            r.is_encryption_of(msg@, self.spec_val()),
            r.v_bytes().len() == msg@.len(),
    {
        let k = scalar_random(rng);
        let u = g1_mul(&g1_generator(), &k);
        let g = g1_mul(&self.0, &k);
        let v = xor_with_hash(&g, msg);
        let hash = hash_g1_g2(&u, v.as_slice());
        let w = g2_mul(&hash, &k);
        let ct = Ciphertext(u, v, w);
        proof {
            let kv = scalar_val(k);
            lemma_mod_small(kv);
            lemma_mod_idempotent(g1_val(g));
            lemma_mul_mod(g1_val(self.0), kv);
            lemma_mod_idempotent(g2_val(hash) * kv);
            lemma_mul_comm(g2_val(hash), kv);
            assert(ct.encrypted_with(msg@, self.spec_val(), kv));
        }
        ct
    }
}

impl SecretKey {
    /// Returns the decrypted text, or `None`, if the ciphertext isn't
    /// valid.
    pub fn decrypt(&self, ct: &Ciphertext) -> (r: Option<Vec<u8>>)
        ensures
            ct.is_valid() ==> r is Some
                && r->0@ == xor_with_hash_val((self.spec_val() * ct.u_val()) % fr_order(),
                ct.v_bytes()),
            !ct.is_valid() ==> r is None,
    {
        if !ct.verify() {
            return None;
        }
        let g = g1_mul(&ct.0, &self.0);
        let plain = xor_with_hash(&g, ct.1.as_slice());
        proof {
            lemma_mod_idempotent(g1_val(ct.0) * scalar_val(self.0));
            lemma_mul_comm(g1_val(ct.0), scalar_val(self.0));
            lemma_mul_mod(scalar_val(self.0), g1_val(ct.0));
        }
        Some(plain)
    }
}

/// A signature share: one party's contribution to a threshold signature.
#[derive(Clone, Debug)]
pub struct SignatureShare(pub Signature);

impl SignatureShare {
    /// The generator multiple of the underlying signature.
    pub closed spec fn spec_val(&self) -> nat {
        self.0.spec_val()
    }

    /// Returns the signature share with the given representation, if
    /// valid.
    pub fn from_bytes(bytes: [u8; SIG_SIZE]) -> (r: Result<SignatureShare, Error>)
        ensures
            match r {
                Ok(sig) => bytes@ == g2_compress(sig.spec_val()),
                Err(e) => e == Error::InvalidBytes
                    && forall|v: nat| v < fr_order() ==> bytes@ != g2_compress(v),
            },
            forall|v: nat| v < fr_order() && bytes@ == g2_compress(v)
                ==> r is Ok && r->Ok_0.spec_val() == v,
    {
        match Signature::from_bytes(bytes) {
            Ok(sig) => Ok(SignatureShare(sig)),
            Err(e) => Err(e),
        }
    }

    /// Returns a byte string representation of the signature share.
    pub fn to_bytes(&self) -> (r: [u8; SIG_SIZE])
        ensures
            r@ == g2_compress(self.spec_val()),
    {
        self.0.to_bytes()
    }
}

impl PartialEq for SignatureShare {
    fn eq(&self, other: &SignatureShare) -> (r: bool) {
        self.0.eq(&other.0)
    }
}

impl vstd::std_specs::cmp::PartialEqSpecImpl for SignatureShare {
    open spec fn obeys_eq_spec() -> bool {
        true
    }

    closed spec fn eq_spec(&self, other: &SignatureShare) -> bool {
        vstd::std_specs::cmp::PartialEqSpec::eq_spec(&self.0, &other.0)
    }
}

impl Eq for SignatureShare {}

/// A decryption share: one party's contribution to a threshold
/// decryption, a point of `G1`.
#[derive(Clone, Debug)]
pub struct DecryptionShare(pub(crate) G1Projective);

impl DecryptionShare {
    /// The generator multiple of the share's point.
    pub closed spec fn spec_val(&self) -> nat {
        g1_val(self.0) % fr_order()
    }
}

impl DecryptionShare {
    /// Returns the share with the given representation, if valid.
    pub fn from_bytes(bytes: [u8; PK_SIZE]) -> (r: Result<DecryptionShare, Error>)
        ensures
            match r {
                Ok(share) => bytes@ == g1_compress(share.spec_val()),
                Err(e) => e == Error::InvalidBytes
                    && forall|v: nat| v < fr_order() ==> bytes@ != g1_compress(v),
            },
            forall|v: nat| v < fr_order() && bytes@ == g1_compress(v)
                ==> r is Ok && r->Ok_0.spec_val() == v,
    {
        match g1_from_compressed(&bytes) {
            Some(p) => {
                proof {
                    lemma_mod_small(g1_val(p));
                }
                Ok(DecryptionShare(p))
            },
            None => Err(Error::InvalidBytes),
        }
    }

    /// Returns a byte string representation of the decryption share.
    pub fn to_bytes(&self) -> (r: [u8; PK_SIZE])
        ensures
            r@ == g1_compress(self.spec_val()),
    {
        g1_to_compressed(&self.0)
    }
}

/// A public key share: the public counterpart of one party's secret key
/// share.
#[derive(Clone, Copy, Debug)]
pub struct PublicKeyShare(pub(crate) PublicKey);

impl PublicKeyShare {
    /// The generator multiple of the underlying public key.
    pub closed spec fn spec_val(&self) -> nat {
        self.0.spec_val()
    }

    /// Returns `true` if the signature share matches the element of `G2`.
    pub fn verify_g2(&self, sig: &SignatureShare, hash: &G2Projective) -> (r: bool)
        ensures
            r == (sig.spec_val() == (self.spec_val() * g2_val(*hash)) % fr_order()),
    {
        self.0.verify_g2(&sig.0, hash)
    }

    /// Returns `true` if the signature share matches the message.
    pub fn verify(&self, sig: &SignatureShare, msg: &[u8]) -> (r: bool)
        ensures
            r == (sig.spec_val() == (self.spec_val() * hash_g2_val(msg@)) % fr_order()),
    {
        self.0.verify(&sig.0, msg)
    }

    /// Returns `true` if the decryption share matches the ciphertext: the
    /// pairing of the share with the hash of `(U, V)` equals the pairing
    /// of this key share with `W`.
    pub fn verify_decryption_share(&self, share: &DecryptionShare, ct: &Ciphertext) -> (r: bool)
        ensures
            r == ((share.spec_val() * hash_g1_g2_val(ct.u_val(), ct.v_bytes())) % fr_order()
                == (self.spec_val() * ct.w_val()) % fr_order()),
    {
        let hash = hash_g1_g2(&ct.0, ct.1.as_slice());
        let lhs = pairing_points(&share.0, &hash);
        let rhs = pairing_points(&(self.0).0, &ct.2);
        proof {
            lemma_mul_mod(g1_val(share.0), g2_val(hash));
            lemma_mul_mod(g1_val((self.0).0), g2_val(ct.2));
        }
        gt_eq(&lhs, &rhs)
    }

    /// Returns the key share with the given representation, if valid.
    pub fn from_bytes(bytes: [u8; PK_SIZE]) -> (r: Result<PublicKeyShare, Error>)
        ensures
            match r {
                Ok(pk) => bytes@ == g1_compress(pk.spec_val()),
                Err(e) => e == Error::InvalidBytes
                    && forall|v: nat| v < fr_order() ==> bytes@ != g1_compress(v),
            },
            forall|v: nat| v < fr_order() && bytes@ == g1_compress(v)
                ==> r is Ok && r->Ok_0.spec_val() == v,
    {
        match PublicKey::from_bytes(bytes) {
            Ok(pk) => Ok(PublicKeyShare(pk)),
            Err(e) => Err(e),
        }
    }

    /// Returns a byte string representation of the public key share.
    pub fn to_bytes(&self) -> (r: [u8; PK_SIZE])
        ensures
            r@ == g1_compress(self.spec_val()),
    {
        self.0.to_bytes()
    }

    /// Combines two public key shares into one by adding the underlying
    /// points, as when several dealers' contributions are summed.
    pub fn combine(&self, other: PublicKeyShare) -> (r: PublicKeyShare)
        ensures
            r.spec_val() == (self.spec_val() + other.spec_val()) % fr_order(),
    {
        let sum = crate::groups::g1_add(&(self.0).0, &(other.0).0);
        proof {
            lemma_mod_idempotent(g1_val((self.0).0) + g1_val((other.0).0));
            crate::arith::lemma_add_mod(g1_val((self.0).0), g1_val((other.0).0));
        }
        PublicKeyShare(PublicKey(sum))
    }
}

impl PartialEq for PublicKeyShare {
    fn eq(&self, other: &PublicKeyShare) -> (r: bool) {
        self.0.eq(&other.0)
    }
}

impl vstd::std_specs::cmp::PartialEqSpecImpl for PublicKeyShare {
    open spec fn obeys_eq_spec() -> bool {
        true
    }

    closed spec fn eq_spec(&self, other: &PublicKeyShare) -> bool {
        vstd::std_specs::cmp::PartialEqSpec::eq_spec(&self.0, &other.0)
    }
}

impl Eq for PublicKeyShare {}

/// A secret key share: one party's share of the master secret key. Like a
/// secret key, its scalar is overwritten with zero on drop.
#[derive(Clone)]
pub struct SecretKeyShare(pub(crate) SecretKey);

impl SecretKeyShare {
    /// The field element that this share is.
    pub closed spec fn spec_val(&self) -> nat {
        self.0.spec_val()
    }

    /// Whether the share's scalar has been overwritten with zero.
    pub closed spec fn is_zeroed(&self) -> bool {
        self.0.is_zeroed()
    }

    /// Creates a new `SecretKeyShare` from a mutable reference to a field
    /// element, and overwrites the referenced element with zero.
    pub fn from_mut(fr: &mut Scalar) -> (r: Self)
        ensures
            r.spec_val() == scalar_val(*old(fr)) % fr_order(),
            scalar_val(*final(fr)) == 0,
    {
        SecretKeyShare(SecretKey::from_mut(fr))
    }

    /// Returns the matching public key share.
    pub fn public_key_share(&self) -> (r: PublicKeyShare)
        ensures
            r.spec_val() == self.spec_val(),
    {
        PublicKeyShare(self.0.public_key())
    }

    /// Signs the given element of `G2`.
    pub fn sign_g2(&self, hash: &G2Projective) -> (r: SignatureShare)
        ensures
            r.spec_val() == (self.spec_val() * g2_val(*hash)) % fr_order(),
    {
        SignatureShare(self.0.sign_g2(hash))
    }

    /// Signs the given message.
    pub fn sign(&self, msg: &[u8]) -> (r: SignatureShare)
        ensures
            r.spec_val() == (self.spec_val() * hash_g2_val(msg@)) % fr_order(),
    {
        SignatureShare(self.0.sign(msg))
    }

    /// Returns a decryption share, or `None`, if the ciphertext isn't
    /// valid.
    pub fn decrypt_share(&self, ct: &Ciphertext) -> (r: Option<DecryptionShare>)
        ensures
            ct.is_valid() ==> r is Some
                && r->0.spec_val() == (self.spec_val() * ct.u_val()) % fr_order(),
            !ct.is_valid() ==> r is None,
    {
        if !ct.verify() {
            return None;
        }
        Some(self.decrypt_share_no_verify(ct))
    }

    /// Returns a decryption share, without validating the ciphertext.
    pub fn decrypt_share_no_verify(&self, ct: &Ciphertext) -> (r: DecryptionShare)
        ensures
            r.spec_val() == (self.spec_val() * ct.u_val()) % fr_order(),
    {
        let p = g1_mul(&ct.0, &(self.0).0);
        proof {
            lemma_mod_idempotent(g1_val(ct.0) * scalar_val((self.0).0));
            lemma_mul_comm(g1_val(ct.0), scalar_val((self.0).0));
            lemma_mul_mod(scalar_val((self.0).0), g1_val(ct.0));
        }
        DecryptionShare(p)
    }

    /// Adds another share to this one, field-element-wise, as when several
    /// dealers' contributions are summed.
    pub fn add(&self, other: &SecretKeyShare) -> (r: SecretKeyShare)
        ensures
            r.spec_val() == (self.spec_val() + other.spec_val()) % fr_order(),
    {
        let sum = crate::fr::scalar_add(&(self.0).0, &(other.0).0);
        proof {
            lemma_mod_idempotent(scalar_val((self.0).0) + scalar_val((other.0).0));
            crate::arith::lemma_add_mod(scalar_val((self.0).0), scalar_val((other.0).0));
        }
        SecretKeyShare(SecretKey(sum))
    }

    /// Relies on `Debug for Scalar`: generates a non-redacted debug
    /// string. This deliberately leaks the secret field element.
    #[verifier::external_body]
    pub fn reveal_value(&self) -> String {
        format!("SecretKeyShare({:?})", (self.0).0)
    }
}

impl PartialEq for SecretKeyShare {
    fn eq(&self, other: &SecretKeyShare) -> (r: bool) {
        self.0.eq(&other.0)
    }
}

impl vstd::std_specs::cmp::PartialEqSpecImpl for SecretKeyShare {
    open spec fn obeys_eq_spec() -> bool {
        true
    }

    closed spec fn eq_spec(&self, other: &SecretKeyShare) -> bool {
        vstd::std_specs::cmp::PartialEqSpec::eq_spec(&self.0, &other.0)
    }
}

impl Eq for SecretKeyShare {}

/// Creates a `SecretKeyShare` containing the zero field element.
impl Default for SecretKeyShare {
    fn default() -> (r: Self)
        ensures
            r.is_zeroed(),
            r.spec_val() == 0,
    {
        SecretKeyShare(SecretKey::default())
    }
}

/// A public key and an associated set of public key shares: the `G1`
/// commitment of the secret polynomial. The constant term is the master
/// public key; evaluating at `i + 1` gives key share `i`.
#[derive(Clone)]
pub struct PublicKeySet {
    pub(crate) commit: Commitment,
}

impl PublicKeySet {
    /// The committed coefficient values of the underlying polynomial.
    pub closed spec fn spec_commit(&self) -> Seq<nat> {
        self.commit.spec_coeffs()
    }

    /// Returns the threshold `t`: any set of `t + 1` signature shares can
    /// be combined into a full signature.
    pub fn threshold(&self) -> (r: usize)
        ensures
            r == spec_degree(self.spec_commit()),
    {
        self.commit.degree()
    }

    /// Returns the master public key: the constant term of the
    /// commitment.
    pub fn public_key(&self) -> (r: PublicKey)
        requires
            self.spec_commit().len() > 0,
        ensures
            r.spec_val() == self.spec_commit()[0],
    {
        let p = self.commit.first_coeff();
        PublicKey(p)
    }

    /// Returns the `i`-th public key share: the commitment evaluated at
    /// `i + 1`.
    pub fn public_key_share<T: IntoFr>(&self, i: T) -> (r: PublicKeyShare)
        ensures
            r.spec_val() == poly_eval(self.spec_commit(), (i.fr_spec() + 1) % fr_order()),
    {
        let x = scalar_add(&i.into_fr(), &scalar_one());
        let value = self.commit.evaluate(x);
        PublicKeyShare(PublicKey(value))
    }

    /// Combines the first `threshold + 1` signature shares into a
    /// signature under the master public key, by Lagrange interpolation
    /// at zero.
    ///
    /// The validity of the shares is not checked: if one of them is
    /// invalid, the resulting signature also is. An error is returned
    /// only on a duplicate index or too few shares.
    pub fn combine_signatures<T: IntoFr>(&self, shares: &Vec<(T, SignatureShare)>) -> (r:
        Result<Signature, Error>)
        ensures
            ({
                let t = spec_degree(self.spec_commit());
                &&& (shares@.len() < t + 1 <==> r == Err::<Signature, Error>(
                    Error::NotEnoughShares,
                ))
                &&& (shares@.len() >= t + 1 && t == 0 ==> r is Ok
                    && r->Ok_0.spec_val() == shares@[0].1.spec_val())
                &&& (shares@.len() >= t + 1 && t > 0 ==> {
                    let xs = crate::interpolate::sample_xs(shares@, t as int + 1);
                    let ys = Seq::new((t + 1) as nat, |i: int| shares@[i].1.spec_val());
                    &&& (r == Err::<Signature, Error>(Error::DuplicateEntry) <==> exists|
                        i: int,
                    |
                        0 <= i < t + 1 && #[trigger] crate::interpolate::denom_prod(xs, i,
                            t as int + 1) % fr_order() == 0)
                    &&& (r is Ok || r == Err::<Signature, Error>(Error::DuplicateEntry))
                    &&& (r is Ok ==> r->Ok_0.spec_val() == crate::interpolate::lagrange_sum(
                        xs, ys, t as int + 1))
                })
            }),
    {
        let ghost t = spec_degree(self.spec_commit());
        let mut converted: Vec<(T, G2Projective)> = Vec::new();
        let mut idx: usize = 0;
        while idx < shares.len()
            invariant
                idx <= shares@.len(),
                converted@.len() == idx,
                forall|j: int| 0 <= j < idx
                    ==> (#[trigger] converted@[j]).0.fr_spec() == shares@[j].0.fr_spec(),
                forall|j: int| 0 <= j < idx
                    ==> g2_val((#[trigger] converted@[j]).1) % fr_order()
                    == shares@[j].1.spec_val(),
            decreases shares@.len() - idx,
        {
            let pair = &shares[idx];
            converted.push((pair.0, ((pair.1).0).0.clone()));
            idx += 1;
        }
        let degree = self.commit.degree();
        let outcome = crate::interpolate::interpolate_g2(degree, &converted);
        proof {
            if converted@.len() >= t + 1 {
                assert(crate::interpolate::sample_xs(converted@, t as int + 1)
                    =~= crate::interpolate::sample_xs(shares@, t as int + 1));
                assert(Seq::new((t + 1) as nat, |i: int| g2_val(converted@[i].1) % fr_order())
                    =~= Seq::new((t + 1) as nat, |i: int| shares@[i].1.spec_val()));
            }
        }
        match outcome {
            Ok(p) => {
                proof {
                    lemma_mod_idempotent(g2_val(p));
                }
                Ok(Signature(p))
            },
            Err(e) => Err(e),
        }
    }

    /// Combines the first `threshold + 1` decryption shares to decrypt
    /// the ciphertext: the interpolated share masks the payload.
    ///
    /// The validity of the shares is not checked: if one of them is
    /// invalid, the resulting plaintext also is.
    pub fn decrypt<T: IntoFr>(&self, shares: &Vec<(T, DecryptionShare)>, ct: &Ciphertext)
        -> (r: Result<Vec<u8>, Error>)
        ensures
            ({
                let t = spec_degree(self.spec_commit());
                &&& (shares@.len() < t + 1 <==> r == Err::<Vec<u8>, Error>(
                    Error::NotEnoughShares,
                ))
                &&& (shares@.len() >= t + 1 && t == 0 ==> r is Ok
                    && r->Ok_0@ == xor_with_hash_val(shares@[0].1.spec_val(), ct.v_bytes()))
                &&& (shares@.len() >= t + 1 && t > 0 ==> {
                    let xs = crate::interpolate::sample_xs(shares@, t as int + 1);
                    let ys = Seq::new((t + 1) as nat, |i: int| shares@[i].1.spec_val());
                    &&& (r == Err::<Vec<u8>, Error>(Error::DuplicateEntry) <==> exists|i: int|
                        0 <= i < t + 1 && #[trigger] crate::interpolate::denom_prod(xs, i,
                            t as int + 1) % fr_order() == 0)
                    &&& (r is Ok || r == Err::<Vec<u8>, Error>(Error::DuplicateEntry))
                    &&& (r is Ok ==> r->Ok_0@ == xor_with_hash_val(
                        crate::interpolate::lagrange_sum(xs, ys, t as int + 1),
                        ct.v_bytes(),
                    ))
                })
            }),
    {
        let ghost t = spec_degree(self.spec_commit());
        let mut converted: Vec<(T, G1Projective)> = Vec::new();
        let mut idx: usize = 0;
        while idx < shares.len()
            invariant
                idx <= shares@.len(),
                converted@.len() == idx,
                forall|j: int| 0 <= j < idx
                    ==> (#[trigger] converted@[j]).0.fr_spec() == shares@[j].0.fr_spec(),
                forall|j: int| 0 <= j < idx
                    ==> g1_val((#[trigger] converted@[j]).1) % fr_order()
                    == shares@[j].1.spec_val(),
            decreases shares@.len() - idx,
        {
            let pair = &shares[idx];
            converted.push((pair.0, (pair.1).0.clone()));
            idx += 1;
        }
        let degree = self.commit.degree();
        let outcome = crate::interpolate::interpolate_g1(degree, &converted);
        proof {
            if converted@.len() >= t + 1 {
                assert(crate::interpolate::sample_xs(converted@, t as int + 1)
                    =~= crate::interpolate::sample_xs(shares@, t as int + 1));
                assert(Seq::new((t + 1) as nat, |i: int| g1_val(converted@[i].1) % fr_order())
                    =~= Seq::new((t + 1) as nat, |i: int| shares@[i].1.spec_val()));
            }
        }
        match outcome {
            Ok(g) => {
                proof {
                    lemma_mod_idempotent(g1_val(g));
                }
                Ok(xor_with_hash(&g, ct.1.as_slice()))
            },
            Err(e) => Err(e),
        }
    }

    /// Returns the underlying commitment.
    pub fn commitment(&self) -> (r: &Commitment)
        ensures
            r.spec_coeffs() == self.spec_commit(),
    {
        &self.commit
    }

    /// Combines two public key sets into one by adding the commitments,
    /// as when several dealers' contributions are summed to form a joint
    /// key.
    pub fn combine(&self, other: PublicKeySet) -> (r: PublicKeySet)
        ensures
            r.spec_commit() == crate::poly::trim_zeros(crate::poly::sum_coeffs(
                self.spec_commit(),
                other.spec_commit(),
            )),
    {
        PublicKeySet { commit: self.commit.add(&other.commit) }
    }
}

impl PublicKeySet {
    /// Compares two public key sets by their commitments.
    pub fn matches(&self, other: &PublicKeySet) -> (r: bool)
        ensures
            r == (self.spec_commit() == other.spec_commit()),
    {
        crate::poly::commitments_equal(&self.commit, &other.commit)
    }
}

impl From<Commitment> for PublicKeySet {
    fn from(commit: Commitment) -> (r: PublicKeySet) {
        PublicKeySet { commit }
    }
}

impl vstd::std_specs::convert::FromSpecImpl<Commitment> for PublicKeySet {
    open spec fn obeys_from_spec() -> bool {
        true
    }

    closed spec fn from_spec(commit: Commitment) -> PublicKeySet {
        PublicKeySet { commit }
    }
}

/// A secret key and an associated set of secret key shares: a random
/// polynomial whose value at zero is the master secret, and whose value
/// at `i + 1` is key share `i`.
#[derive(Clone)]
pub struct SecretKeySet {
    pub(crate) poly: Poly,
}

impl SecretKeySet {
    /// The coefficient values of the underlying polynomial.
    pub closed spec fn spec_poly(&self) -> Seq<nat> {
        self.poly.spec_coeffs()
    }

    /// Creates a set of secret key shares where any `threshold + 1` of
    /// them can collaboratively sign and decrypt.
    ///
    /// The threshold must leave room for `threshold + 1` coefficients;
    /// for the checked variant see [`SecretKeySet::try_random`].
    pub fn random<R: rand::RngCore>(threshold: usize, rng: &mut R) -> (r: Self)
        requires
            threshold < usize::MAX,
        ensures
            r.spec_poly().len() == threshold + 1,
    {
        SecretKeySet { poly: Poly::random(threshold, rng) }
    }

    /// Creates a set of secret key shares where any `threshold + 1` of
    /// them can collaboratively sign and decrypt, or `DegreeTooHigh` if
    /// `threshold + 1` coefficients cannot exist on this platform.
    pub fn try_random<R: rand::RngCore>(threshold: usize, rng: &mut R) -> (r: Result<
        Self,
        Error,
    >)
        ensures
            threshold < usize::MAX <==> r is Ok,
            r is Ok ==> r->Ok_0.spec_poly().len() == threshold + 1,
            r is Err ==> r->Err_0 == Error::DegreeTooHigh,
    {
        match Poly::try_random(threshold, rng) {
            Ok(poly) => Ok(SecretKeySet { poly }),
            Err(e) => Err(e),
        }
    }

    /// Returns the threshold `t`: any set of `t + 1` signature shares
    /// can be combined into a full signature.
    pub fn threshold(&self) -> (r: usize)
        ensures
            r == spec_degree(self.spec_poly()),
    {
        self.poly.degree()
    }

    /// Returns the `i`-th secret key share: the polynomial evaluated at
    /// `i + 1`, moved into a share that zeroizes on drop.
    pub fn secret_key_share<T: IntoFr>(&self, i: T) -> (r: SecretKeyShare)
        ensures
            r.spec_val() == poly_eval(self.spec_poly(), (i.fr_spec() + 1) % fr_order()),
    {
        let x = scalar_add(&i.into_fr(), &scalar_one());
        let mut fr = self.poly.evaluate(x);
        let share = SecretKeyShare::from_mut(&mut fr);
        proof {
            lemma_mod_idempotent(poly_eval(self.spec_poly(),
                (i.fr_spec() + 1) % fr_order()));
        }
        share
    }

    /// Returns the corresponding public key set: the commitment of the
    /// polynomial. That information can be shared publicly.
    pub fn public_keys(&self) -> (r: PublicKeySet)
        ensures
            r.spec_commit() == self.spec_poly(),
    {
        PublicKeySet { commit: self.poly.commitment() }
    }

    /// Returns the master secret key, the polynomial's value at zero.
    /// Only tests of the surrounding system should need this: in the
    /// protocol the master secret is never reconstructed.
    pub fn secret_key(&self) -> (r: SecretKey)
        ensures
            r.spec_val() == poly_eval(self.spec_poly(), 0),
    {
        let zero = crate::fr::scalar_zero();
        let mut fr = self.poly.evaluate(zero);
        let sk = SecretKey::from_mut(&mut fr);
        proof {
            lemma_mod_small(0);
            lemma_mod_idempotent(poly_eval(self.spec_poly(), 0));
        }
        sk
    }
}

impl From<Poly> for SecretKeySet {
    fn from(poly: Poly) -> (r: SecretKeySet) {
        SecretKeySet { poly }
    }
}

impl vstd::std_specs::convert::FromSpecImpl<Poly> for SecretKeySet {
    open spec fn obeys_from_spec() -> bool {
        true
    }

    closed spec fn from_spec(poly: Poly) -> SecretKeySet {
        SecretKeySet { poly }
    }
}

/// Law: threshold signatures combine exactly. If each signature share
/// was produced by the key share at its index — its value is the secret
/// polynomial at the translated index times the hashed message — and
/// the Lagrange denominators of the first `t + 1` indices are
/// invertible, then the combination that `combine_signatures` computes
/// is the master signature: the polynomial's value at zero times the
/// same hashed message. The result does not depend on which indices
/// were chosen.
pub proof fn lemma_threshold_signature_combines<T: IntoFr>(cs: Seq<nat>, h: nat,
    shares: Seq<(T, SignatureShare)>, t: int)
    requires
        0 <= t,
        cs.len() <= t + 1,
        t + 1 <= shares.len(),
        forall|i: int| 0 <= i < t + 1
            ==> (#[trigger] shares[i].1).spec_val()
            == (poly_eval(cs, (shares[i].0.fr_spec() + 1) % fr_order()) * h) % fr_order(),
        forall|i: int| 0 <= i < t + 1
            ==> #[trigger] crate::interpolate::denom_invertible(
            crate::interpolate::sample_xs(shares, t + 1), i, t + 1),
    ensures
        crate::interpolate::lagrange_sum(
            crate::interpolate::sample_xs(shares, t + 1),
            Seq::new((t + 1) as nat, |i: int| shares[i].1.spec_val()),
            t + 1,
        ) == (poly_eval(cs, 0) * h) % fr_order(),
{
    let xs = crate::interpolate::sample_xs(shares, t + 1);
    assert forall|i: int| 0 <= i < t + 1 implies xs[i] < fr_order() by {
        lemma_mod_idempotent(shares[i].0.fr_spec() + 1);
    }
    crate::interpolate::lemma_threshold_reconstructs(cs, h, xs, t + 1);
    assert(Seq::new((t + 1) as nat, |i: int| shares[i].1.spec_val())
        =~= Seq::new((t + 1) as nat,
        |i: int| (poly_eval(cs, xs[i]) * h) % fr_order()));
}

/// Law: threshold decryption combines exactly. If each decryption share
/// was produced by the key share at its index — its value is the secret
/// polynomial at the translated index times the ciphertext's `U` value —
/// and the Lagrange denominators are invertible, then the element that
/// `PublicKeySet::decrypt` interpolates is the master decryption secret:
/// the polynomial's value at zero times `U`, exactly what the master
/// secret key would compute, so the plaintext is the one the master key
/// would return.
pub proof fn lemma_threshold_decryption_combines<T: IntoFr>(cs: Seq<nat>, u: nat,
    shares: Seq<(T, DecryptionShare)>, t: int)
    requires
        0 <= t,
        cs.len() <= t + 1,
        t + 1 <= shares.len(),
        forall|i: int| 0 <= i < t + 1
            ==> (#[trigger] shares[i].1).spec_val()
            == (poly_eval(cs, (shares[i].0.fr_spec() + 1) % fr_order()) * u) % fr_order(),
        forall|i: int| 0 <= i < t + 1
            ==> #[trigger] crate::interpolate::denom_invertible(
            crate::interpolate::sample_xs(shares, t + 1), i, t + 1),
    ensures
        crate::interpolate::lagrange_sum(
            crate::interpolate::sample_xs(shares, t + 1),
            Seq::new((t + 1) as nat, |i: int| shares[i].1.spec_val()),
            t + 1,
        ) == (poly_eval(cs, 0) * u) % fr_order(),
{
    let xs = crate::interpolate::sample_xs(shares, t + 1);
    assert forall|i: int| 0 <= i < t + 1 implies xs[i] < fr_order() by {
        lemma_mod_idempotent(shares[i].0.fr_spec() + 1);
    }
    crate::interpolate::lemma_threshold_reconstructs(cs, u, xs, t + 1);
    assert(Seq::new((t + 1) as nat, |i: int| shares[i].1.spec_val())
        =~= Seq::new((t + 1) as nat,
        |i: int| (poly_eval(cs, xs[i]) * u) % fr_order()));
}

/// Law: two equal share indices among the first `threshold + 1` force a
/// zero Lagrange denominator, which is exactly the condition under which
/// `combine_signatures` and `decrypt` return `DuplicateEntry`.
pub proof fn lemma_duplicate_share_indices<T: IntoFr, S>(shares: Seq<(T, S)>, t: int, i: int,
    j: int)
    requires
        0 <= i < t + 1,
        0 <= j < t + 1,
        i != j,
        t + 1 <= shares.len(),
        shares[i].0.fr_spec() == shares[j].0.fr_spec(),
    ensures
        exists|k: int|
            0 <= k < t + 1 && #[trigger] crate::interpolate::denom_prod(
                crate::interpolate::sample_xs(shares, t + 1),
                k,
                t + 1,
            ) % fr_order() == 0,
{
    let xs = crate::interpolate::sample_xs(shares, t + 1);
    assert(xs[i] == xs[j]);
    assert(xs[i] < fr_order()) by {
        lemma_mod_idempotent(shares[i].0.fr_spec() + 1);
    }
    crate::interpolate::lemma_duplicate_gives_zero_denominator(xs, i, j, t + 1);
    assert(crate::interpolate::denom_prod(xs, i, t + 1) % fr_order() == 0);
}

/// Law: decryption undoes encryption. If a ciphertext encrypts `m` under
/// the public key matching a secret key, then the ciphertext is valid and
/// the bytes that `SecretKey::decrypt` returns for it are exactly `m`.
pub proof fn lemma_encrypt_decrypt_roundtrip(sk: SecretKey, pk: PublicKey, ct: Ciphertext,
    m: Seq<u8>)
    requires
        pk.spec_val() == sk.spec_val(),
        ct.is_encryption_of(m, pk.spec_val()),
    ensures
        ct.is_valid(),
        xor_with_hash_val((sk.spec_val() * ct.u_val()) % fr_order(), ct.v_bytes()) == m,
{
    let k = choose|k: nat| ct.encrypted_with(m, pk.spec_val(), k);
    assert(ct.encrypted_with(m, pk.spec_val(), k));
    let mask_key = (sk.spec_val() * ct.u_val()) % fr_order();
    assert(mask_key == (pk.spec_val() * k) % fr_order());
    let stream = crate::hashes::mask_stream(mask_key, m.len());
    assert(ct.v_bytes() == crate::hashes::xor_bytes(m, stream));
    crate::hashes::lemma_xor_bytes_involutive(m, stream);
    assert(xor_with_hash_val(mask_key, ct.v_bytes())
        == crate::hashes::xor_bytes(crate::hashes::xor_bytes(m, stream), stream));
}

/// Law: tampering with the `W` component of a valid ciphertext makes it
/// invalid: validity pins `W` as a function of `U` and `V`.
pub proof fn lemma_w_tampering_invalidates(ct: Ciphertext, forged: Ciphertext)
    requires
        ct.is_valid(),
        forged.u_val() == ct.u_val(),
        forged.v_bytes() == ct.v_bytes(),
        forged.w_val() != ct.w_val(),
    ensures
        !forged.is_valid(),
{
}

/// Law: a signature produced with a secret key verifies under the matching
/// public key, for every message. The hypotheses are exactly what
/// `SecretKey::public_key` and `SecretKey::sign` ensure; the conclusion is
/// exactly the condition under which `PublicKey::verify` returns `true`.
pub proof fn lemma_sign_verify(sk: SecretKey, pk: PublicKey, sig: Signature, msg: Seq<u8>)
    requires
        pk.spec_val() == sk.spec_val(),
        sig.spec_val() == (sk.spec_val() * hash_g2_val(msg)) % fr_order(),
    ensures
        sig.spec_val() == (pk.spec_val() * hash_g2_val(msg)) % fr_order(),
{
}

/// Law: a zeroized secret key compares equal to the default (zero) secret
/// key. The hypotheses are what `SecretKey::zeroize` and
/// `SecretKey::default` ensure; the conclusion is the meaning of `==` on
/// secret keys.
pub proof fn lemma_zeroized_equals_default(a: SecretKey, b: SecretKey)
    requires
        a.is_zeroed(),
        b.is_zeroed(),
    ensures
        a.eq_spec(&b),
{
}

/// Law: decoding the encoding of a public key yields the same key; the
/// length of the encoding, `PK_SIZE` bytes, is the return type of
/// `PublicKey::to_bytes`. The hypothesis on `decoded` is exactly what
/// `PublicKey::from_bytes` ensures when it is applied to `pk.to_bytes()`.
pub proof fn lemma_public_key_bytes_roundtrip(pk: PublicKey, decoded: Result<PublicKey, Error>)
    requires
        forall|v: nat| v < fr_order() && g1_compress(pk.spec_val()) == #[trigger] g1_compress(v)
            ==> decoded is Ok && decoded->Ok_0.spec_val() == v,
    ensures
        decoded is Ok && decoded->Ok_0.spec_val() == pk.spec_val(),
{
    pk.lemma_val_bound();
    assert(g1_compress(pk.spec_val()) == g1_compress(pk.spec_val()));
}

/// Law: decoding the encoding of a signature yields the same signature;
/// the length of the encoding, `SIG_SIZE` bytes, is the return type of
/// `Signature::to_bytes`. The hypothesis on `decoded` is exactly what
/// `Signature::from_bytes` ensures when it is applied to
/// `sig.to_bytes()`.
pub proof fn lemma_signature_bytes_roundtrip(sig: Signature, decoded: Result<Signature, Error>)
    requires
        forall|v: nat| v < fr_order() && g2_compress(sig.spec_val()) == #[trigger] g2_compress(v)
            ==> decoded is Ok && decoded->Ok_0.spec_val() == v,
    ensures
        decoded is Ok && decoded->Ok_0.spec_val() == sig.spec_val(),
{
    sig.lemma_val_bound();
    assert(g2_compress(sig.spec_val()) == g2_compress(sig.spec_val()));
}

} // verus!
