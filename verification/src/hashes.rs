//! Hashing into `G2` and the pseudorandom byte stream keyed by a `G1`
//! point.
//!
//! The constructions are deterministic compositions of SHA3-256, a ChaCha
//! generator seeded by a digest, and uniform sampling of a `G2` point from
//! that generator. Each outside step is named by a spec function of its
//! input bytes alone; the compositions themselves are verified code.

use vstd::prelude::*;
use bls12_381::{G1Projective, G2Projective};
use rand::Rng;
use rand::SeedableRng;
use rand_chacha::ChaChaRng;
use crate::fr_order;
use crate::groups::{g1_compress, g1_to_compressed, g1_val, g2_val};

verus! {

/// The 32-byte SHA3-256 digest of a byte string.
pub uninterp spec fn sha3_val(data: Seq<u8>) -> Seq<u8>;

/// The value of the `G2` point sampled from a ChaCha generator seeded with
/// the given 32 bytes.
pub uninterp spec fn g2_seed_val(seed: Seq<u8>) -> nat;

/// The first `len` bytes sampled from a ChaCha generator seeded with the
/// given 32 bytes.
pub uninterp spec fn chacha_stream(seed: Seq<u8>, len: nat) -> Seq<u8>;

/// Relies on `sha3::Sha3_256`: the SHA3-256 digest of the input, 32 bytes,
/// a function of the input alone.
#[verifier::external_body]
fn sha3_digest(data: &[u8]) -> (r: [u8; 32])
    ensures
        r@ == sha3_val(data@),
        r@.len() == 32,
{
    let mut hasher = <sha3::Sha3_256 as sha3::digest::Digest>::new();
    sha3::digest::Digest::update(&mut hasher, data);
    <sha3::Sha3_256 as sha3::digest::Digest>::finalize(hasher).into()
}

/// Relies on `ChaChaRng::from_seed` and `group::Group::random` for
/// `G2Projective`: both are deterministic in the seed, so the sampled point
/// is a function of the seed alone.
#[verifier::external_body]
fn g2_from_seed(seed: &[u8; 32]) -> (r: G2Projective)
    ensures
        g2_val(r) == g2_seed_val(seed@),
        g2_val(r) < fr_order(),
{
    <G2Projective as group::Group>::random(&mut ChaChaRng::from_seed(*seed))
}

/// Relies on `ChaChaRng::from_seed` and `rand`'s `Standard` distribution on
/// `u8`: the generator is deterministic in the seed, so the sampled bytes
/// are a function of the seed and the count alone.
#[verifier::external_body]
fn chacha_sample_bytes(seed: &[u8; 32], len: usize) -> (r: Vec<u8>)
    ensures
        r@ == chacha_stream(seed@, len as nat),
        r@.len() == len,
{
    let rng = ChaChaRng::from_seed(*seed);
    rng.sample_iter(&rand::distributions::Standard).take(len).collect()
}

/// The value of the hash of a byte string in `G2`: the SHA3-256 digest
/// seeds a ChaCha generator, from which a point is sampled uniformly.
pub open spec fn hash_g2_val(msg: Seq<u8>) -> nat {
    g2_seed_val(sha3_val(msg))
}

/// The preimage hashed into `G2` for a `G1` point `u` and a byte string
/// `v`: `v` itself if it is short, else its digest, followed by the
/// compressed encoding of `u`.
pub open spec fn g1_msg_preimage(u: nat, msg: Seq<u8>) -> Seq<u8> {
    let head = if msg.len() > 64 { sha3_val(msg) } else { msg };
    head + g1_compress(u)
}

/// The value of the hash of a `G1` point and a byte string in `G2`.
pub open spec fn hash_g1_g2_val(u: nat, msg: Seq<u8>) -> nat {
    hash_g2_val(g1_msg_preimage(u, msg))
}

/// The bitwise xor of two byte strings of equal length.
pub open spec fn xor_bytes(a: Seq<u8>, b: Seq<u8>) -> Seq<u8>
    recommends
        a.len() == b.len(),
{
    Seq::new(a.len(), |i: int| a[i] ^ b[i])
}

/// The mask stream determined by a `G1` point: ChaCha bytes seeded with the
/// SHA3-256 digest of the point's compressed encoding.
pub open spec fn mask_stream(g: nat, len: nat) -> Seq<u8> {
    chacha_stream(sha3_val(g1_compress(g)), len)
}

/// The xor of a byte string with the mask stream of a `G1` point.
pub open spec fn xor_with_hash_val(g: nat, bytes: Seq<u8>) -> Seq<u8> {
    xor_bytes(bytes, mask_stream(g, bytes.len()))
}

/// Xoring with the same byte string twice gives back the original.
pub proof fn lemma_xor_bytes_involutive(a: Seq<u8>, b: Seq<u8>)
    ensures
        xor_bytes(xor_bytes(a, b), b) == a,
{
    assert forall|i: int| 0 <= i < a.len() implies xor_bytes(xor_bytes(a, b), b)[i] == a[i] by {
        let x = a[i];
        let y = b[i];
        assert((x ^ y) ^ y == x) by (bit_vector);
    }
    assert(xor_bytes(xor_bytes(a, b), b) =~= a);
}

/// Returns a hash of the given message in `G2`.
pub fn hash_g2(msg: &[u8]) -> (r: G2Projective)
    ensures
        g2_val(r) == hash_g2_val(msg@),
        g2_val(r) < fr_order(),
{
    let digest = sha3_digest(msg);
    g2_from_seed(&digest)
}

/// Returns a hash of the group element and message, in the second group.
pub fn hash_g1_g2(g1: &G1Projective, msg: &[u8]) -> (r: G2Projective)
    ensures
        g2_val(r) == hash_g1_g2_val(g1_val(*g1) % fr_order(), msg@),
        g2_val(r) < fr_order(),
{
    let mut preimage: Vec<u8> = Vec::new();
    if msg.len() > 64 {
        let digest = sha3_digest(msg);
        let mut i: usize = 0;
        while i < 32
            invariant
                sha3_val(msg@).len() == 32,
                digest@ == sha3_val(msg@),
                i <= 32,
                preimage@ == sha3_val(msg@).take(i as int),
            decreases 32 - i,
        {
            preimage.push(digest[i]);
            i += 1;
        }
        proof {
            assert(preimage@ =~= sha3_val(msg@));
        }
    } else {
        let mut i: usize = 0;
        while i < msg.len()
            invariant
                i <= msg@.len(),
                preimage@ == msg@.take(i as int),
            decreases msg@.len() - i,
        {
            preimage.push(msg[i]);
            i += 1;
        }
        proof {
            assert(preimage@ =~= msg@);
        }
    }
    let comp = g1_to_compressed(g1);
    let ghost head = preimage@;
    let mut i: usize = 0;
    while i < 48
        invariant
            comp@ == g1_compress(g1_val(*g1) % fr_order()),
            comp@.len() == 48,
            i <= 48,
            preimage@ == head + comp@.take(i as int),
        decreases 48 - i,
    {
        preimage.push(comp[i]);
        i += 1;
    }
    proof {
        assert(preimage@ =~= g1_msg_preimage(g1_val(*g1) % fr_order(), msg@));
    }
    hash_g2(preimage.as_slice())
}

/// Returns the bitwise xor of `bytes` with a pseudorandom stream determined
/// by the point `g1`.
pub fn xor_with_hash(g1: &G1Projective, bytes: &[u8]) -> (r: Vec<u8>)
    ensures
        r@ == xor_with_hash_val(g1_val(*g1) % fr_order(), bytes@),
        r@.len() == bytes@.len(),
{
    let comp = g1_to_compressed(g1);
    let digest = sha3_digest(comp.as_slice());
    let stream = chacha_sample_bytes(&digest, bytes.len());
    let mut out: Vec<u8> = Vec::new();
    let mut i: usize = 0;
    while i < bytes.len()
        invariant
            stream@ == mask_stream(g1_val(*g1) % fr_order(), bytes@.len()),
            stream@.len() == bytes@.len(),
            i <= bytes@.len(),
            out@ == xor_with_hash_val(g1_val(*g1) % fr_order(), bytes@).take(i as int),
        decreases bytes@.len() - i,
    {
        out.push(bytes[i] ^ stream[i]);
        i += 1;
    }
    proof {
        assert(out@ =~= xor_with_hash_val(g1_val(*g1) % fr_order(), bytes@));
    }
    out
}

} // verus!
