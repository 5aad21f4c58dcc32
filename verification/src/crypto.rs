//! The sign/verify primitive at the consensus boundary, modelled as a
//! deterministic keyed digest over the canonical byte encoding: a signature
//! made with a secret key always verifies under the matching public key.
//! The secret key of a fresh node is drawn from the process entropy source.

use vstd::prelude::*;
use crate::codec::enc_u64;
use crate::hashing::{spec_hash_bytes, spec_hash_u64, hash_bytes};

verus! {

#[derive(Clone, Copy, PartialEq, Eq, Structural, Debug)]
pub struct SecretKey {
    pub key: u64,
}

#[derive(Clone, Copy, PartialEq, Eq, Structural, Debug)]
pub struct PublicKey {
    pub key: u64,
}

#[derive(Clone, Copy, PartialEq, Eq, Structural, Debug)]
pub struct Signature {
    pub signer: u64,
    pub tag: u64,
}

/// The public key derived from a secret key.
pub open spec fn spec_pk_of(sk: SecretKey) -> PublicKey {
    PublicKey { key: spec_hash_u64(sk.key) }
}

/// The digest a valid signature over `msg` must carry under `pk`.
pub open spec fn spec_tag(pk: PublicKey, msg: Seq<u8>) -> u64 {
    spec_hash_bytes(enc_u64(pk.key) + msg)
}

/// The signature produced by `sk` over `msg`.
pub open spec fn spec_sign(sk: SecretKey, msg: Seq<u8>) -> Signature {
    Signature { signer: spec_pk_of(sk).key, tag: spec_tag(spec_pk_of(sk), msg) }
}

/// Whether `sig` is a valid signature by `pk` over `msg`.
pub open spec fn spec_verify(pk: PublicKey, msg: Seq<u8>, sig: Signature) -> bool {
    sig.signer == pk.key && sig.tag == spec_tag(pk, msg)
}

/// A signature always verifies under the signer's public key.
pub proof fn lemma_sign_verifies(sk: SecretKey, msg: Seq<u8>)
    ensures
        spec_verify(spec_pk_of(sk), msg, spec_sign(sk, msg)),
{
}

impl PublicKey {
    /// Derives the public half from a secret key.
    pub fn from_secret(sk: SecretKey) -> (r: PublicKey)
        ensures
            r == spec_pk_of(sk),
    {
        PublicKey { key: crate::hashing::hash_u64(sk.key) }
    }
}

impl SecretKey {
    /// Draws a fresh secret key from the entropy source.
    pub fn random() -> (r: SecretKey) {
        SecretKey { key: random_u64() }
    }

    /// Signs `msg` with this secret key.
    pub fn sign(&self, msg: &Vec<u8>) -> (r: Signature)
        ensures
            r == spec_sign(*self, msg@),
    {
        let pk = PublicKey::from_secret(*self);
        let mut buf: Vec<u8> = Vec::new();
        crate::codec::encode_u64(pk.key, &mut buf);
        let mut i: usize = 0;
        while i < msg.len()
            invariant
                i <= msg@.len(),
                buf@ == enc_u64(pk.key) + msg@.take(i as int),
            decreases msg@.len() - i,
        {
            buf.push(msg[i]);
            i = i + 1;
            proof {
                assert(enc_u64(pk.key) + msg@.take(i as int) =~= (enc_u64(pk.key) + msg@.take(
                    i as int - 1,
                )).push(msg@[i as int - 1]));
            }
        }
        proof {
            assert(msg@.take(msg@.len() as int) =~= msg@);
        }
        Signature { signer: pk.key, tag: hash_bytes(&buf) }
    }
}

impl Signature {
    /// Checks this signature against `pk` and `msg`.
    pub fn verify(&self, pk: PublicKey, msg: &Vec<u8>) -> (r: bool)
        ensures
            r == spec_verify(pk, msg@, *self),
    {
        if self.signer != pk.key {
            return false;
        }
        let mut buf: Vec<u8> = Vec::new();
        crate::codec::encode_u64(pk.key, &mut buf);
        let mut i: usize = 0;
        while i < msg.len()
            invariant
                i <= msg@.len(),
                buf@ == enc_u64(pk.key) + msg@.take(i as int),
            decreases msg@.len() - i,
        {
            buf.push(msg[i]);
            i = i + 1;
            proof {
                assert(enc_u64(pk.key) + msg@.take(i as int) =~= (enc_u64(pk.key) + msg@.take(
                    i as int - 1,
                )).push(msg@[i as int - 1]));
            }
        }
        proof {
            assert(msg@.take(msg@.len() as int) =~= msg@);
        }
        self.tag == hash_bytes(&buf)
    }
}

/// Relies on `rand::random`: a uniformly drawn `u64` from the operating
/// system's entropy source.  Nothing is promised of the value.
#[verifier::external_body]
fn random_u64() -> u64 {
    rand::random::<u64>()
}

} // verus!
