use vstd::prelude::*;
use crate::event::{PUBLIC_ID_SIZE, SIGNATURE_SIZE};
use crate::seed::{Seed, SEED_SIZE};

verus! {

/// The public identity that keynesis derives from a seed.
pub uninterp spec fn public_key_of(seed: Seq<u8>) -> Seq<u8>;

/// The Ed25519 signature of `message` by the key derived from `seed`.
pub uninterp spec fn signature_by(seed: Seq<u8>, message: Seq<u8>) -> Seq<u8>;

/// Whether `signature` is a valid Ed25519 signature of `message` by `public`.
pub uninterp spec fn signature_verifies(public: Seq<u8>, message: Seq<u8>, signature: Seq<u8>) -> bool;

/// Relies on keynesis' ed25519_hd::SecretKey::new, fed by the seed's ChaCha
/// generator, and on its public_key: 32 bytes of Ed25519 key, then 32 of
/// chain code.
#[verifier::external_body]
pub(crate) fn derive_public(seed: &Seed) -> (r: Vec<u8>)
    requires
        seed@.len() == SEED_SIZE,
    ensures
        r@ == public_key_of(seed@),
        r@.len() == PUBLIC_ID_SIZE,
{
    let mut bytes = [0u8; 32];
    bytes.copy_from_slice(seed.as_bytes());
    let rng = keynesis::Seed::from(bytes).into_rand_chacha();
    let public = keynesis::key::ed25519_hd::SecretKey::new(rng).public_key();
    let mut r = public.key().as_ref().to_vec();
    r.extend_from_slice(public.chain_code().as_ref());
    r
}

/// Relies on keynesis' ed25519_hd::SecretKey::sign, with the key derived as
/// in `derive_public`: a 64-byte Ed25519 signature, which verifies against
/// that key's public identity.
#[verifier::external_body]
pub(crate) fn sign_with(seed: &Seed, message: &Vec<u8>) -> (r: Vec<u8>)
    requires
        seed@.len() == SEED_SIZE,
    ensures
        r@ == signature_by(seed@, message@),
        r@.len() == SIGNATURE_SIZE,
        signature_verifies(public_key_of(seed@), message@, r@),
{
    let mut bytes = [0u8; 32];
    bytes.copy_from_slice(seed.as_bytes());
    let rng = keynesis::Seed::from(bytes).into_rand_chacha();
    let key = keynesis::key::ed25519_hd::SecretKey::new(rng);
    key.sign(message).as_ref().to_vec()
}

/// Relies on keynesis' ed25519::PublicKey::verify, reached from the
/// ed25519_hd public key whose first 32 bytes are the Ed25519 key.
#[verifier::external_body]
pub(crate) fn verify_with(public: &Vec<u8>, message: &Vec<u8>, signature: &Vec<u8>) -> (r: bool)
    requires
        public@.len() == PUBLIC_ID_SIZE,
        signature@.len() == SIGNATURE_SIZE,
    ensures
        r == signature_verifies(public@, message@, signature@),
{
    let mut key = [0u8; 64];
    key.copy_from_slice(public);
    let mut sig = [0u8; 64];
    sig.copy_from_slice(signature);
    let key = keynesis::key::ed25519_hd::PublicKey::from(key);
    key.verify(message, &keynesis::Signature::from(sig))
}

} // verus!
